//! What holds of the detector as a whole, whatever frames it is given.
use crate::bitset::lemma_packed_holds;
use crate::blob_laws::{
    law_blob_describes, law_cluster_counts, law_dark_frame, law_groups_cover,
    lemma_merged_in_frame, lemma_raw_blobs,
};
use crate::blobs::{
    all_blobs, found_cells, groups_of, lit_cells, positions, seeds, spans, BlobView, MAX_RAW_BLOBS,
};
use crate::cluster::{clustered, gather, hull, large_enough, merged, ranked, settle, touching};
use crate::cluster_laws::{
    each, in_some, inside, law_merged_covers, lemma_merged_keeps, lemma_merged_len,
};
use crate::coverage::box_cells;
use crate::difference::{difference_mask, distance};
use crate::dilate::{dilated, grown, law_dilated_binary};
use crate::grid::{
    frame_cells, lemma_raster_bounds, lemma_reach_within, raster, reach, rect, Cell,
};
use crate::processor::lemma_clusters;
use crate::ranking::{law_clustered, lemma_clustered_keeps};
use crate::state::{cluster_corners, Corners, ProcessorView};
use vstd::prelude::*;

verus! {

impl ProcessorView {
    /// The pixels by which the current frame differs from the reference by at least `threshold`.
    pub open spec fn changed_cells(self, threshold: u8) -> Set<Cell> {
        let width = self.width as int;
        Set::new(
            |c: Cell|
                frame_cells(width, self.height as int).contains(c) && distance(
                    self.current()[raster(c, width)],
                    self.reference()[raster(c, width)],
                ) >= threshold,
        )
    }

    /// The current frame held against the reference, and the difference dilated.
    pub open spec fn seen(self, threshold: u8, dilate_size: u8) -> ProcessorView {
        self.compared(threshold).spread(dilate_size)
    }

    /// Too much changed to tell what: the whole frame is reported.
    pub open spec fn overwhelmed(self, threshold: u8, dilate_size: u8, min_area: u32) -> bool {
        let seen = self.seen(threshold, dilate_size);
        seen.crowded() || seen.flooded(min_area)
    }
}

/// The detector looks for blobs in exactly the pixels that changed by at least the threshold,
/// grown into squares of the dilation radius.
pub proof fn law_motion_cells(state: ProcessorView, threshold: u8, dilate_size: u8)
    requires
        state.even(),
        state.holds_frame(),
    ensures
        lit_cells(
            state.seen(threshold, dilate_size).dilated,
            state.width as int,
            state.height as int,
            state.width as int,
        ) == grown(
            state.changed_cells(threshold),
            state.width as int,
            state.height as int,
            dilate_size as int,
        ),
{
    let w = state.width as int;
    let h = state.height as int;
    let mask = difference_mask(state.current(), state.reference(), threshold);
    let difference = state.compared(threshold).difference;
    let result = dilated(difference, w, h, dilate_size as int);
    let seen = state.seen(threshold, dilate_size);
    assert(difference =~= mask);
    law_dilated_binary(difference, w, h, dilate_size as int);
    assert forall|c: Cell| frame_cells(w, h).contains(c) implies 0 <= #[trigger] raster(c, w) < w
        * h by {
        lemma_raster_bounds(c, w, h);
    }
    assert(lit_cells(difference, w, h, w) =~= state.changed_cells(threshold));
    assert(lit_cells(seen.dilated, w, h, w) =~= lit_cells(result, w, h, w));
}

/// A first frame is never reported; it becomes the reference.
pub proof fn law_first_frame(
    state: ProcessorView,
    threshold: u8,
    dilate_size: u8,
    min_area: u32,
    update_reference: bool,
)
    requires
        !state.has_previous,
    ensures
        ({
            let (next, boxes) = state.judged(threshold, dilate_size, min_area, update_reference);
            &&& boxes == Seq::<Corners>::empty()
            &&& next.has_previous
            &&& next.reference() == state.current()
        }),
{
}

proof fn lemma_no_clusters(pad: int, min_area: int)
    ensures
        clustered(Seq::<BlobView>::empty(), pad, min_area) == Seq::<BlobView>::empty(),
{
    reveal(Seq::filter);
    let none = Seq::<BlobView>::empty();
    assert(gather(none, pad) =~= none);
    assert(settle(none, pad) =~= none);
    assert(large_enough(none, min_area) =~= none);
    assert(ranked(none) =~= none);
}

/// Nothing is reported while no pixel changes by the threshold or more.
pub proof fn law_nothing_moved(
    state: ProcessorView,
    threshold: u8,
    dilate_size: u8,
    min_area: u32,
    update_reference: bool,
)
    requires
        state.even(),
        state.holds_frame(),
        state.changed_cells(threshold) == Set::<Cell>::empty(),
    ensures
        state.judged(threshold, dilate_size, min_area, update_reference).1 == Seq::<
            Corners,
        >::empty(),
{
    if state.has_previous {
        let w = state.width as int;
        let h = state.height as int;
        let seen = state.seen(threshold, dilate_size);
        law_motion_cells(state, threshold, dilate_size);
        let lit = lit_cells(seen.dilated, w, h, w);
        assert(lit =~= Set::<Cell>::empty());
        law_dark_frame(seen.dilated, w, h, w);
        assert(seen.blobs() =~= Seq::<BlobView>::empty());
        lemma_no_clusters(seen.pad(), min_area as int);
        assert(4 * (w * h) >= 0) by (nonlinear_arith)
            requires
                w > 0,
                h > 0,
        ;
        assert(cluster_corners(seen.clusters(min_area)) =~= Seq::<Corners>::empty());
    }
}

/// A scene that stands still is never reported, unless the threshold is zero: it is then that
/// every pixel counts as changed.
pub proof fn law_still_scene(
    state: ProcessorView,
    threshold: u8,
    dilate_size: u8,
    min_area: u32,
    update_reference: bool,
)
    requires
        state.even(),
        state.holds_frame(),
        state.current() == state.reference(),
        threshold > 0,
    ensures
        state.judged(threshold, dilate_size, min_area, update_reference).1 == Seq::<
            Corners,
        >::empty(),
{
    assert(state.changed_cells(threshold) =~= Set::<Cell>::empty());
    law_nothing_moved(state, threshold, dilate_size, min_area, update_reference);
}

/// The box has pixels and lies in a frame of this size.
pub open spec fn valid_box(bounds: Corners, width: u32, height: u32) -> bool {
    0 <= bounds.0 < bounds.2 <= width && 0 <= bounds.1 < bounds.3 <= height
}

/// The boxes come within `pad` pixels of each other.
pub open spec fn near(a: Corners, b: Corners, pad: int) -> bool {
    &&& a.0 <= b.2 + pad
    &&& b.0 <= a.2 + pad
    &&& a.1 <= b.3 + pad
    &&& b.1 <= a.3 + pad
}

/// Every box reported has pixels and lies in the frame, there are at most `MAX_RAW_BLOBS` of
/// them, and no two come within a sixth of the frame's shorter side of each other.
pub proof fn law_boxes_sound(
    state: ProcessorView,
    threshold: u8,
    dilate_size: u8,
    min_area: u32,
    update_reference: bool,
)
    requires
        state.even(),
        state.holds_frame(),
    ensures
        ({
            let boxes = state.judged(threshold, dilate_size, min_area, update_reference).1;
            &&& boxes.len() <= MAX_RAW_BLOBS
            &&& forall|i: int|
                0 <= i < boxes.len() ==> valid_box(#[trigger] boxes[i], state.width, state.height)
            &&& forall|i: int, j: int|
                0 <= i < boxes.len() && 0 <= j < boxes.len() && i != j ==> !near(
                    #[trigger] boxes[i],
                    #[trigger] boxes[j],
                    state.pad(),
                )
        }),
{
    let seen = state.seen(threshold, dilate_size);
    let boxes = state.judged(threshold, dilate_size, min_area, update_reference).1;
    if state.has_previous && !state.overwhelmed(threshold, dilate_size, min_area) {
        let clusters = seen.clusters(min_area);
        lemma_clusters(seen, min_area);
        law_clustered(seen.blobs(), seen.pad(), min_area as int);
        lemma_merged_len(seen.blobs(), seen.pad());
        assert(boxes == cluster_corners(clusters));
        assert forall|i: int| 0 <= i < boxes.len() implies valid_box(
            #[trigger] boxes[i],
            state.width,
            state.height,
        ) by {
            let c = clusters[i];
            assert(boxes[i] == (c.min_x, c.min_y, c.max_x, c.max_y));
        }
        assert forall|i: int, j: int|
            0 <= i < boxes.len() && 0 <= j < boxes.len() && i != j implies !near(
            #[trigger] boxes[i],
            #[trigger] boxes[j],
            state.pad(),
        ) by {
            let a = clusters[i];
            let b = clusters[j];
            assert(boxes[i] == (a.min_x, a.min_y, a.max_x, a.max_y));
            assert(boxes[j] == (b.min_x, b.min_y, b.max_x, b.max_y));
            assert(!touching(clusters[i], clusters[j], state.pad()));
        }
    }
}

/// The cell lies in the box.
pub open spec fn in_box(c: Cell, bounds: Corners) -> bool {
    bounds.0 <= c.1 < bounds.2 && bounds.1 <= c.0 < bounds.3
}

/// The cell lies in one of the boxes.
pub open spec fn in_a_box(c: Cell, boxes: Seq<Corners>) -> bool {
    exists|i: int| 0 <= i < boxes.len() && in_box(c, #[trigger] boxes[i])
}

/// A foreground cell lies in one of the clusters, which counts at least one pixel.
proof fn lemma_cell_clustered(state: ProcessorView, c: Cell) -> (cluster: BlobView)
    requires
        state.even(),
        state.holds_frame(),
        !state.crowded(),
        lit_cells(
            state.dilated,
            state.width as int,
            state.height as int,
            state.width as int,
        ).contains(c),
    ensures
        merged(state.blobs(), state.pad()).contains(cluster),
        cluster.min_x <= c.1 < cluster.max_x,
        cluster.min_y <= c.0 < cluster.max_y,
{
    let w = state.width as int;
    let h = state.height as int;
    let lit = lit_cells(state.dilated, w, h, w);
    let firsts = seeds(lit, w, w * h);
    let blobs = state.blobs();
    let clusters = merged(blobs, state.pad());
    assert(lit.subset_of(frame_cells(w, h)));
    law_groups_cover(lit, w, h);
    assert(groups_of(lit, firsts).contains(c));
    let i = choose|i: int| 0 <= i < firsts.len() && reach(lit, #[trigger] firsts[i]).contains(c);
    assert(blobs == all_blobs(state.dilated, w, h, w));
    law_blob_describes(state.dilated, w, h, w, i);
    let b = blobs[i];
    assert(spans(reach(lit, firsts[i]), b.min_x, b.min_y, b.max_x - 1, b.max_y - 1));
    law_merged_covers(blobs, state.pad());
    assert(in_some(blobs[i], clusters));
    let k = choose|k: int| 0 <= k < clusters.len() && inside(blobs[i], #[trigger] clusters[k]);
    assert(clusters.contains(clusters[k]));
    clusters[k]
}

/// No motion is lost: every pixel that changed, and every pixel within the dilation radius of
/// one, lies in a box that is reported, or else in a cluster of fewer than `min_area` pixels.
/// With a `min_area` of one or less it always lies in a box.
pub proof fn law_motion_reported(
    state: ProcessorView,
    threshold: u8,
    dilate_size: u8,
    min_area: u32,
    update_reference: bool,
    c: Cell,
)
    requires
        state.even(),
        state.holds_frame(),
        state.has_previous,
        grown(
            state.changed_cells(threshold),
            state.width as int,
            state.height as int,
            dilate_size as int,
        ).contains(c),
    ensures
        ({
            let seen = state.seen(threshold, dilate_size);
            let boxes = state.judged(threshold, dilate_size, min_area, update_reference).1;
            ||| in_a_box(c, boxes)
            ||| min_area > 1 && exists|cluster: BlobView| #[trigger]
                merged(seen.blobs(), seen.pad()).contains(cluster) && box_cells(cluster).contains(c)
                    && cluster.area < min_area
        }),
{
    let seen = state.seen(threshold, dilate_size);
    let boxes = state.judged(threshold, dilate_size, min_area, update_reference).1;
    law_motion_cells(state, threshold, dilate_size);
    if state.overwhelmed(threshold, dilate_size, min_area) {
        assert(in_box(c, boxes[0]));
    } else {
        let w = state.width as int;
        let h = state.height as int;
        let cluster = lemma_cell_clustered(seen, c);
        let clusters = seen.clusters(min_area);
        let all = merged(seen.blobs(), seen.pad());
        lemma_raw_blobs(seen.dilated, w, h, w);
        lemma_merged_in_frame(seen.blobs(), seen.pad(), w, h);
        law_clustered(seen.blobs(), seen.pad(), min_area as int);
        let m = choose|m: int| 0 <= m < all.len() && all[m] == cluster;
        assert(0 < all[m].area);
        if cluster.area >= min_area {
            assert(clusters.contains(cluster));
            let i = choose|i: int| 0 <= i < clusters.len() && clusters[i] == cluster;
            assert(boxes[i] == (cluster.min_x, cluster.min_y, cluster.max_x, cluster.max_y));
            assert(in_box(c, boxes[i]));
        }
    }
}

impl ProcessorView {
    /// How many pixels in the box changed or lie within the dilation radius of one that did.
    pub open spec fn motion_in(self, threshold: u8, dilate_size: u8, bounds: Corners) -> nat {
        grown(
            self.changed_cells(threshold),
            self.width as int,
            self.height as int,
            dilate_size as int,
        ).intersect(rect(bounds.0, bounds.1, bounds.2, bounds.3)).len()
    }
}

/// Unless the whole frame is reported, every box holds at least `min_area` pixels of motion, and
/// boxes with more motion come first.
pub proof fn law_boxes_ranked(
    state: ProcessorView,
    threshold: u8,
    dilate_size: u8,
    min_area: u32,
    update_reference: bool,
)
    requires
        state.even(),
        state.holds_frame(),
        state.has_previous,
        !state.overwhelmed(threshold, dilate_size, min_area),
    ensures
        ({
            let boxes = state.judged(threshold, dilate_size, min_area, update_reference).1;
            &&& forall|i: int|
                0 <= i < boxes.len() ==> state.motion_in(
                    threshold,
                    dilate_size,
                    #[trigger] boxes[i],
                ) >= min_area
            &&& forall|i: int, j: int|
                0 <= i < j < boxes.len() ==> state.motion_in(
                    threshold,
                    dilate_size,
                    #[trigger] boxes[i],
                ) >= state.motion_in(threshold, dilate_size, #[trigger] boxes[j])
        }),
{
    let seen = state.seen(threshold, dilate_size);
    let boxes = state.judged(threshold, dilate_size, min_area, update_reference).1;
    let clusters = seen.clusters(min_area);
    law_clustered(seen.blobs(), seen.pad(), min_area as int);
    law_motion_cells(state, threshold, dilate_size);
    assert forall|i: int| 0 <= i < boxes.len() implies state.motion_in(
        threshold,
        dilate_size,
        #[trigger] boxes[i],
    ) == clusters[i].area && clusters[i].area >= min_area by {
        let w = state.width as int;
        let h = state.height as int;
        let all = merged(seen.blobs(), seen.pad());
        let c = clusters[i];
        assert(boxes[i] == (c.min_x, c.min_y, c.max_x, c.max_y));
        assert(clusters.contains(c));
        let m = choose|m: int| 0 <= m < all.len() && all[m] == c;
        assert(seen.blobs() == all_blobs(seen.dilated, w, h, w));
        law_cluster_counts(seen.dilated, w, h, seen.pad(), m);
    }
}

/// What the next frame is held against: this frame, if it is the first one, if it is to become
/// the reference, or if too much changed; else still the old reference.
pub proof fn law_reference(
    state: ProcessorView,
    threshold: u8,
    dilate_size: u8,
    min_area: u32,
    update_reference: bool,
)
    ensures
        ({
            let next = state.judged(threshold, dilate_size, min_area, update_reference).0;
            &&& next.has_previous
            &&& next.reference() == (if !state.has_previous || update_reference
                || state.overwhelmed(threshold, dilate_size, min_area) {
                state.current()
            } else {
                state.reference()
            })
        }),
{
}

/// Processing a frame keeps the size and the buffers fit for the next one.
pub proof fn law_judged_fit(
    state: ProcessorView,
    threshold: u8,
    dilate_size: u8,
    min_area: u32,
    update_reference: bool,
)
    requires
        state.even(),
        state.holds_frame(),
    ensures
        ({
            let next = state.judged(threshold, dilate_size, min_area, update_reference).0;
            &&& next.even()
            &&& next.holds_frame()
            &&& next.width == state.width
            &&& next.height == state.height
            &&& next.frame_a.len() == state.frame_a.len()
        }),
{
    let w = state.width as int;
    let h = state.height as int;
    let seen = state.seen(threshold, dilate_size);
    lemma_packed_holds(
        positions(found_cells(seen.dilated, w, h, w), w, h),
        state.marks.len(),
    );
}

/// Step-by-step processing leads to the same state as processing with the reference updated,
/// and to the same boxes as long as the clusters do not cover too much of the frame. Where they
/// do, the steps report the clusters all the same, and processing at once the whole frame.
pub proof fn law_debug_agrees(
    state: ProcessorView,
    threshold: u8,
    dilate_size: u8,
    min_area: u32,
)
    requires
        state.has_previous,
    ensures
        ({
            let seen = state.compared(threshold).spread(dilate_size);
            let (next, boxes) = state.judged(threshold, dilate_size, min_area, true);
            &&& seen.searched().toggled() == next
            &&& seen.crowded() || !seen.flooded(min_area) ==> seen.debug_boxes(min_area) == boxes
            &&& !seen.crowded() && seen.flooded(min_area) ==> {
                &&& seen.debug_boxes(min_area) == cluster_corners(seen.clusters(min_area))
                &&& boxes == seen.whole()
            }
        }),
{
}

/// With a lower threshold no fewer pixels count as changed.
pub proof fn law_threshold(state: ProcessorView, low: u8, high: u8)
    requires
        low <= high,
    ensures
        state.changed_cells(high).subset_of(state.changed_cells(low)),
{
}

/// Motion looks the same both ways: with the two frames exchanged the same boxes are reported.
pub proof fn law_exchanged(
    state: ProcessorView,
    other: ProcessorView,
    threshold: u8,
    dilate_size: u8,
    min_area: u32,
    update_reference: bool,
)
    requires
        state.even(),
        state.holds_frame(),
        other.even(),
        other.width == state.width,
        other.height == state.height,
        other.frame_a.len() == state.frame_a.len(),
        other.has_previous == state.has_previous,
        other.current() == state.reference(),
        other.reference() == state.current(),
    ensures
        state.judged(threshold, dilate_size, min_area, update_reference).1 == other.judged(
            threshold,
            dilate_size,
            min_area,
            update_reference,
        ).1,
{
    let w = state.width as int;
    let h = state.height as int;
    law_motion_cells(state, threshold, dilate_size);
    law_motion_cells(other, threshold, dilate_size);
    assert(state.changed_cells(threshold) =~= other.changed_cells(threshold));
    let seen = state.seen(threshold, dilate_size);
    let turned = other.seen(threshold, dilate_size);
    assert(lit_cells(seen.dilated, w, h, w) == lit_cells(turned.dilated, w, h, w));
    assert(seen.blobs() == turned.blobs());
}

/// The box is the smallest one around those of the cells that lie in it: each of its four sides
/// has one of them.
pub open spec fn tight(cells: Set<Cell>, bounds: Corners) -> bool {
    spans(
        cells.intersect(rect(bounds.0, bounds.1, bounds.2, bounds.3)),
        bounds.0,
        bounds.1,
        bounds.2 - 1,
        bounds.3 - 1,
    )
}

spec fn blob_corners(b: BlobView) -> Corners {
    (b.min_x, b.min_y, b.max_x, b.max_y)
}

/// A box around cells of which each of its sides has one is tight.
proof fn lemma_tight(cells: Set<Cell>, some: Set<Cell>, b: BlobView)
    requires
        some.subset_of(cells),
        spans(some, b.min_x, b.min_y, b.max_x - 1, b.max_y - 1),
    ensures
        tight(cells, blob_corners(b)),
{
    let held = cells.intersect(rect(b.min_x, b.min_y, b.max_x, b.max_y));
    assert forall|c: Cell| some.contains(c) implies held.contains(c) by {}
    let left = choose|c: Cell| #[trigger] some.contains(c) && c.1 == b.min_x;
    let top = choose|c: Cell| #[trigger] some.contains(c) && c.0 == b.min_y;
    let right = choose|c: Cell| #[trigger] some.contains(c) && c.1 == b.max_x - 1;
    let bottom = choose|c: Cell| #[trigger] some.contains(c) && c.0 == b.max_y - 1;
    assert(held.contains(left) && held.contains(top) && held.contains(right) && held.contains(
        bottom,
    ));
}

/// The box around two tight boxes is tight.
proof fn lemma_tight_hull(cells: Set<Cell>, a: BlobView, b: BlobView)
    requires
        tight(cells, blob_corners(a)),
        tight(cells, blob_corners(b)),
    ensures
        tight(cells, blob_corners(hull(a, b))),
{
    let in_a = cells.intersect(rect(a.min_x, a.min_y, a.max_x, a.max_y));
    let in_b = cells.intersect(rect(b.min_x, b.min_y, b.max_x, b.max_y));
    let some = in_a.union(in_b);
    let h = hull(a, b);
    let left_a = choose|c: Cell| #[trigger] in_a.contains(c) && c.1 == a.min_x;
    let top_a = choose|c: Cell| #[trigger] in_a.contains(c) && c.0 == a.min_y;
    let right_a = choose|c: Cell| #[trigger] in_a.contains(c) && c.1 == a.max_x - 1;
    let bottom_a = choose|c: Cell| #[trigger] in_a.contains(c) && c.0 == a.max_y - 1;
    let left_b = choose|c: Cell| #[trigger] in_b.contains(c) && c.1 == b.min_x;
    let top_b = choose|c: Cell| #[trigger] in_b.contains(c) && c.0 == b.min_y;
    let right_b = choose|c: Cell| #[trigger] in_b.contains(c) && c.1 == b.max_x - 1;
    let bottom_b = choose|c: Cell| #[trigger] in_b.contains(c) && c.0 == b.max_y - 1;
    assert(some.contains(left_a) && some.contains(top_a) && some.contains(right_a)
        && some.contains(bottom_a));
    assert(some.contains(left_b) && some.contains(top_b) && some.contains(right_b)
        && some.contains(bottom_b));
    assert(spans(some, h.min_x, h.min_y, h.max_x - 1, h.max_y - 1));
    lemma_tight(cells, some, h);
}

/// Unless the whole frame is reported, every box is tight: its first and last row and its first
/// and last column each hold a pixel of motion.
pub proof fn law_boxes_tight(
    state: ProcessorView,
    threshold: u8,
    dilate_size: u8,
    min_area: u32,
    update_reference: bool,
)
    requires
        state.even(),
        state.holds_frame(),
        state.has_previous,
        !state.overwhelmed(threshold, dilate_size, min_area),
    ensures
        ({
            let boxes = state.judged(threshold, dilate_size, min_area, update_reference).1;
            let motion = grown(
                state.changed_cells(threshold),
                state.width as int,
                state.height as int,
                dilate_size as int,
            );
            forall|i: int| 0 <= i < boxes.len() ==> tight(motion, #[trigger] boxes[i])
        }),
{
    let w = state.width as int;
    let h = state.height as int;
    let seen = state.seen(threshold, dilate_size);
    let boxes = state.judged(threshold, dilate_size, min_area, update_reference).1;
    let blobs = seen.blobs();
    let lit = lit_cells(seen.dilated, w, h, w);
    let firsts = seeds(lit, w, w * h);
    law_motion_cells(state, threshold, dilate_size);
    assert(blobs == all_blobs(seen.dilated, w, h, w));
    let keeps = |b: BlobView| tight(lit, blob_corners(b));
    assert(each(blobs, keeps)) by {
        assert forall|i: int| 0 <= i < blobs.len() implies keeps(#[trigger] blobs[i]) by {
            law_blob_describes(seen.dilated, w, h, w, i);
            let group = reach(lit, firsts[i]);
            lemma_reach_within(lit, firsts[i]);
            assert(group.subset_of(lit));
            lemma_tight(lit, group, blobs[i]);
        }
    }
    assert forall|a: BlobView, b: BlobView|
        keeps(a) && keeps(b) && touching(a, b, seen.pad()) implies keeps(#[trigger] hull(a, b)) by {
        lemma_tight_hull(lit, a, b);
    }
    lemma_merged_keeps(blobs, seen.pad(), keeps);
    lemma_clustered_keeps(blobs, seen.pad(), min_area as int, keeps);
    let clusters = seen.clusters(min_area);
    assert forall|i: int| 0 <= i < boxes.len() implies tight(lit, #[trigger] boxes[i]) by {
        assert(keeps(clusters[i]));
        assert(boxes[i] == blob_corners(clusters[i]));
    }
}

} // verus!
