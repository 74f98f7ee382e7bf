//! A motion detector for grayscale camera frames.
//!
//! Each frame is blurred and held against a reference frame. The pixels that changed are dilated,
//! collected into connected blobs, and nearby blobs are merged into clusters; the bounding boxes
//! of the clusters are what is reported.
pub mod bitset;
pub mod blob_laws;
pub mod blobs;
pub mod blur;
pub mod cluster;
pub mod cluster_laws;
pub mod coverage;
pub mod debug;
pub mod detector_laws;
pub mod difference;
pub mod dilate;
pub mod dilate_laws;
pub mod grid;
pub mod merge_order;
pub mod plain_blobs;
pub mod plain_calls;
pub mod plain_report;
pub mod plain_steps;
pub mod processor;
pub mod ranking;
pub mod render;
pub mod state;
pub mod stream_laws;

pub use crate::blur::DetectorError;
pub use crate::debug::{DebugImage, DebugStage, DebugStep};
pub use crate::processor::ImageProcessor;
pub use crate::state::BoundingBox;
