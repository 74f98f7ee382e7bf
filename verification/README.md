# rust_detector

A motion detector for grayscale camera frames, written in Verus.

`ImageProcessor::new(width, height)` makes a detector. Each call of `process_image` takes a frame of
`width * height` bytes and gives the bounding boxes of what moved since the reference frame, as
corners `[x, y, x + w, y + h]`, those with the most changed pixels first. The first frame gives no
boxes. `reconfigure` changes the frame size, `reset_state` forgets what was seen.

A frame goes through these steps:

1. a Gaussian blur (`blur.rs`, done by the `libblur` crate),
2. a mask of the pixels that differ from the reference by a threshold (`difference.rs`),
3. dilation of the mask with a square window (`dilate.rs`),
4. the connected blobs of the mask (`blobs.rs`, with `bitset.rs` and `grid.rs`),
5. merging of blobs that lie near each other (`cluster.rs`),
6. a check of how much of the frame is covered (`coverage.rs`).

`state.rs` holds the detector's state as mathematics and says what one frame does to it;
`processor.rs` is the detector itself. `debug.rs` runs the steps one at a time with a picture to
save after each, and `render.rs` draws boxes on a frame.

What holds of the whole is proved in `blob_laws.rs`, `dilate_laws.rs`, `cluster_laws.rs`,
`merge_order.rs`, `ranking.rs`, `detector_laws.rs` and `stream_laws.rs`: every changed pixel is
counted in exactly one blob, clusters keep their distance and do not depend on the order of the
blobs, a still scene is never reported, no motion is lost, a reset detector answers like a new one,
and more. The laws over several frames speak of frames as the blur leaves them. With a kernel of a
single pixel `libblur` leaves the first row of a buffer as it was, so what was there before can show.

`app/` binds the detector to Node.js and saves the pictures.
