//! What the detector reports, said of the two frames alone.
use crate::blob_laws::{
    law_blob_describes, law_blobs_partition, law_cluster_counts, law_groups_cover,
    lemma_merged_in_frame,
};
use crate::blobs::{all_blobs, groups_of, lit_cells, seeds, spans, BlobView};
use crate::cluster::{clustered, merged, touching};
use crate::cluster_laws::{
    all_proper, covered_by, in_some, inside, law_merged_covers, law_merged_least,
    law_merged_separated, proper, separated,
};
use crate::coverage::{box_cells, coverage, covered_cells, law_coverage_exact};
use crate::detector_laws::{law_judged_fit, law_motion_cells};
use crate::dilate::{grown, over};
use crate::grid::{
    adjacent, closed_under_steps, frame_cells, lemma_raster_bounds, lemma_reach_least,
    lemma_rect_len, raster, reach, rect, Cell,
};
use crate::plain_blobs::{groups, lemma_groups_are_parts, parts_of};
use crate::plain_steps::{gap, pixel};
use crate::processor::lemma_clusters;
use crate::ranking::{law_clustered, law_clustered_separated};
use crate::state::{cluster_corners, Corners, ProcessorView};
use vstd::prelude::*;

verus! {

/// The pixel in row `y` and column `x` differs by at least `threshold` between the frames.
pub open spec fn changed(
    frame: Seq<u8>,
    reference: Seq<u8>,
    width: int,
    y: int,
    x: int,
    threshold: int,
) -> bool {
    let now = pixel(frame, width, y, x) as int;
    let before = pixel(reference, width, y, x) as int;
    now >= before + threshold || before >= now + threshold
}

/// The pixels of motion: those that have a changed one at most `r` rows and columns away.
pub open spec fn motion(
    frame: Seq<u8>,
    reference: Seq<u8>,
    width: int,
    height: int,
    threshold: int,
    r: int,
) -> Set<(int, int)> {
    Set::new(
        |c: (int, int)|
            0 <= c.0 && c.0 < height && 0 <= c.1 && c.1 < width && exists|v: int, u: int|
                0 <= v < height && 0 <= u < width && gap(v, c.0) <= r && gap(u, c.1) <= r
                    && #[trigger] changed(frame, reference, width, v, u, threshold),
    )
}

/// The pixel lies in the box with these left, top, right and bottom bounds.
pub open spec fn holds(b: (int, int, int, int), c: (int, int)) -> bool {
    b.0 <= c.1 && c.1 < b.2 && b.1 <= c.0 && c.0 < b.3
}

/// Every pixel of motion lies in one of the boxes.
pub open spec fn holds_all(boxes: Seq<(int, int, int, int)>, cells: Set<(int, int)>) -> bool {
    forall|c: (int, int)| #[trigger]
        cells.contains(c) ==> exists|i: int| 0 <= i < boxes.len() && #[trigger] holds(boxes[i], c)
}

/// Any two of the boxes are more than `pad` pixels apart, side by side or one above the other.
pub open spec fn spaced(boxes: Seq<(int, int, int, int)>, pad: int) -> bool {
    forall|i: int, j: int|
        #![trigger boxes[i], boxes[j]]
        0 <= i < boxes.len() && 0 <= j < boxes.len() && i != j ==> boxes[j].0 - boxes[i].2 > pad
            || boxes[i].0 - boxes[j].2 > pad || boxes[j].1 - boxes[i].3 > pad || boxes[i].1
            - boxes[j].3 > pad
}

/// The first box lies in one of the others.
pub open spec fn lies_in(b: (int, int, int, int), boxes: Seq<(int, int, int, int)>) -> bool {
    exists|j: int|
        0 <= j < boxes.len() && (#[trigger] boxes[j]).0 <= b.0 && boxes[j].1 <= b.1 && b.2
            <= boxes[j].2 && b.3 <= boxes[j].3
}

/// The smallest boxes that hold all the pixels and are more than `pad` pixels apart: each lies in
/// a box of whatever other boxes do so.
pub open spec fn least_cover(
    boxes: Seq<(int, int, int, int)>,
    cells: Set<(int, int)>,
    pad: int,
) -> bool {
    &&& holds_all(boxes, cells)
    &&& spaced(boxes, pad)
    &&& forall|others: Seq<(int, int, int, int)>, i: int|
        #![trigger lies_in(boxes[i], others)]
        holds_all(others, cells) && spaced(others, pad) && 0 <= i < boxes.len() ==> lies_in(
            boxes[i],
            others,
        )
}

/// How many of the pixels lie in the box.
pub open spec fn count_in(cells: Set<(int, int)>, b: (int, int, int, int)) -> nat {
    Set::new(|c: (int, int)| cells.contains(c) && holds(b, c)).len()
}

/// The pixels that lie in a box with at least `min_area` of the cells.
pub open spec fn covered_by_large(
    boxes: Seq<(int, int, int, int)>,
    cells: Set<(int, int)>,
    min_area: int,
) -> Set<(int, int)> {
    Set::new(
        |c: (int, int)|
            exists|i: int|
                0 <= i < boxes.len() && count_in(cells, boxes[i]) >= min_area && #[trigger] holds(
                    boxes[i],
                    c,
                ),
    )
}

/// `report` lists exactly those boxes that have at least `min_area` of the cells, each once, and
/// those with more of them first.
pub open spec fn lists_large(
    report: Seq<(int, int, int, int)>,
    boxes: Seq<(int, int, int, int)>,
    cells: Set<(int, int)>,
    min_area: int,
) -> bool {
    &&& forall|b: (int, int, int, int)| #[trigger]
        report.contains(b) <==> boxes.contains(b) && count_in(cells, b) >= min_area
    &&& forall|i: int, j: int|
        #![trigger report[i], report[j]]
        0 <= i < j < report.len() ==> report[i] != report[j] && count_in(cells, report[i])
            >= count_in(cells, report[j])
}

/// The frame that the next one is held against.
pub open spec fn held_against(state: ProcessorView) -> Seq<u8> {
    (if state.phase {
        state.frame_b
    } else {
        state.frame_a
    }).take(state.width * state.height)
}

/// The buffers belong together and hold a frame.
pub open spec fn buffers_fit(state: ProcessorView) -> bool {
    let n = state.frame_a.len();
    &&& 0 < state.width && 0 < state.height && state.width * state.height <= n && n <= 0xffff_ffff
    &&& state.frame_b.len() == n && state.difference.len() == n && state.dilated.len() == n
    &&& state.scratch.len() == n && n <= 64 * state.marks.len() && 64 * state.marks.len() < n + 64
}

proof fn lemma_fit(state: ProcessorView)
    requires
        buffers_fit(state),
    ensures
        state.even(),
        state.holds_frame(),
{
}

/// The frame given, and what it is held against.
proof fn lemma_given_frame(state: ProcessorView, frame: Seq<u8>)
    requires
        buffers_fit(state),
        state.width * state.height <= frame.len() <= state.frame_a.len(),
    ensures
        ({
            let s = state.with_current(over(frame, state.current()));
            &&& buffers_fit(s)
            &&& s.current().take(state.width * state.height) == frame.take(
                state.width * state.height,
            )
            &&& s.reference().take(state.width * state.height) == held_against(state)
            &&& s.width == state.width && s.height == state.height
            &&& s.has_previous == state.has_previous
        }),
{
    let whole = over(frame, state.current());
    assert(whole.len() == state.frame_a.len());
    assert(whole.take(state.width * state.height) =~= frame.take(state.width * state.height));
}

/// What is searched for blobs is the motion between the two frames.
proof fn lemma_motion(
    state: ProcessorView,
    frame: Seq<u8>,
    threshold: u8,
    dilate_size: u8,
)
    requires
        buffers_fit(state),
        state.width * state.height <= frame.len() <= state.frame_a.len(),
    ensures
        ({
            let w = state.width as int;
            let h = state.height as int;
            let s = state.with_current(over(frame, state.current()));
            lit_cells(s.compared(threshold).spread(dilate_size).dilated, w, h, w) == motion(
                frame,
                held_against(state),
                w,
                h,
                threshold as int,
                dilate_size as int,
            )
        }),
{
    let w = state.width as int;
    let h = state.height as int;
    let r = dilate_size as int;
    let count = state.width * state.height;
    let s = state.with_current(over(frame, state.current()));
    lemma_given_frame(state, frame);
    lemma_fit(s);
    law_motion_cells(s, threshold, dilate_size);
    let cells = s.changed_cells(threshold);
    let ours = grown(cells, w, h, r);
    let plain = motion(frame, held_against(state), w, h, threshold as int, r);
    assert forall|v: int, u: int| 0 <= v < h && 0 <= u < w implies #[trigger] changed(
        frame,
        held_against(state),
        w,
        v,
        u,
        threshold as int,
    ) == cells.contains((v, u)) by {
        lemma_raster_bounds((v, u), w, h);
        let n = v * w + u;
        assert(raster((v, u), w) == n);
        assert(s.current().take(count)[n] == s.current()[n]);
        assert(frame.take(count)[n] == frame[n]);
        assert(s.reference().take(count)[n] == s.reference()[n]);
    }
    assert forall|c: Cell| ours.contains(c) implies plain.contains(c) by {
        let d = choose|d: Cell| #[trigger]
            cells.contains(d) && c.0 - r <= d.0 <= c.0 + r && c.1 - r <= d.1 <= c.1 + r;
        assert(cells.contains((d.0, d.1)));
        assert(changed(frame, held_against(state), w, d.0, d.1, threshold as int));
    }
    assert forall|c: Cell| plain.contains(c) implies ours.contains(c) by {
        let (v, u) = choose|v: int, u: int|
            0 <= v < h && 0 <= u < w && gap(v, c.0) <= r && gap(u, c.1) <= r
                && #[trigger] changed(frame, held_against(state), w, v, u, threshold as int);
        assert(cells.contains((v, u)));
    }
    assert(ours =~= plain);
}

/// Boxes of which no area is known.
spec fn as_blobs(boxes: Seq<Corners>) -> Seq<BlobView> {
    boxes.map_values(
        |b: Corners| BlobView { min_x: b.0, min_y: b.1, max_x: b.2, max_y: b.3, area: 0 },
    )
}

/// Spaced boxes that hold all pixels hold each blob in one of them.
proof fn lemma_cover_holds_blobs(
    data: Seq<u8>,
    width: int,
    height: int,
    pad: int,
    others: Seq<Corners>,
)
    requires
        0 < width,
        0 <= height,
        0 <= pad,
        holds_all(others, lit_cells(data, width, height, width)),
        spaced(others, pad),
    ensures
        covered_by(all_blobs(data, width, height, width), as_blobs(others)),
{
    let lit = lit_cells(data, width, height, width);
    let firsts = seeds(lit, width, width * height);
    let blobs = all_blobs(data, width, height, width);
    let views = as_blobs(others);
    assert forall|k: int| 0 <= k < blobs.len() implies #[trigger] in_some(blobs[k], views) by {
        law_blob_describes(data, width, height, width, k);
        let first = firsts[k];
        let group = reach(lit, first);
        let b = blobs[k];
        assert(lit.contains(first));
        let i = choose|i: int| 0 <= i < others.len() && #[trigger] holds(others[i], first);
        let held = Set::new(|c: Cell| holds(others[i], c));
        assert(closed_under_steps(lit, held)) by {
            assert forall|p: Cell, q: Cell|
                #![trigger held.contains(p), lit.contains(q)]
                held.contains(p) && lit.contains(q) && adjacent(p, q) implies held.contains(q) by {
                let j = choose|j: int| 0 <= j < others.len() && #[trigger] holds(others[j], q);
                assert(holds(others[i], p));
                if i != j {
                    assert(others[j].0 - others[i].2 > pad || others[i].0 - others[j].2 > pad
                        || others[j].1 - others[i].3 > pad || others[i].1 - others[j].3 > pad);
                }
            }
        }
        lemma_reach_least(lit, first, held);
        assert(spans(group, b.min_x, b.min_y, b.max_x - 1, b.max_y - 1));
        let left = choose|c: Cell| #[trigger] group.contains(c) && c.1 == b.min_x;
        let top = choose|c: Cell| #[trigger] group.contains(c) && c.0 == b.min_y;
        let right = choose|c: Cell| #[trigger] group.contains(c) && c.1 == b.max_x - 1;
        let bottom = choose|c: Cell| #[trigger] group.contains(c) && c.0 == b.max_y - 1;
        assert(held.contains(left) && held.contains(top) && held.contains(right) && held.contains(
            bottom,
        ));
        assert(inside(blobs[k], views[i]));
    }
}

/// The boxes of all clusters are the least cover of the foreground, and a cluster counts what
/// its box holds.
pub proof fn lemma_least_cover(data: Seq<u8>, width: int, height: int, pad: int)
    requires
        0 < width,
        0 <= height,
        0 <= pad,
    ensures
        ({
            let lit = lit_cells(data, width, height, width);
            let all = merged(all_blobs(data, width, height, width), pad);
            let boxes = cluster_corners(all);
            &&& least_cover(boxes, lit, pad)
            &&& forall|i: int|
                0 <= i < all.len() ==> (#[trigger] all[i]).area == count_in(lit, boxes[i])
        }),
{
    let lit = lit_cells(data, width, height, width);
    let firsts = seeds(lit, width, width * height);
    let blobs = all_blobs(data, width, height, width);
    let all = merged(blobs, pad);
    let boxes = cluster_corners(all);
    assert(lit.subset_of(frame_cells(width, height)));
    law_groups_cover(lit, width, height);
    law_merged_covers(blobs, pad);
    law_merged_separated(blobs, pad);
    assert forall|c: Cell| #[trigger] lit.contains(c) implies exists|i: int|
        0 <= i < boxes.len() && #[trigger] holds(boxes[i], c) by {
        assert(groups_of(lit, firsts).contains(c));
        let k = choose|k: int| 0 <= k < firsts.len() && reach(lit, #[trigger] firsts[k]).contains(c);
        law_blob_describes(data, width, height, width, k);
        assert(in_some(blobs[k], all));
        let i = choose|i: int| 0 <= i < all.len() && inside(blobs[k], #[trigger] all[i]);
        assert(holds(boxes[i], c));
    }
    assert forall|i: int, j: int|
        #![trigger boxes[i], boxes[j]]
        0 <= i < boxes.len() && 0 <= j < boxes.len() && i != j implies boxes[j].0 - boxes[i].2 > pad
        || boxes[i].0 - boxes[j].2 > pad || boxes[j].1 - boxes[i].3 > pad || boxes[i].1 - boxes[j].3
        > pad by {
        assert(!touching(all[i], all[j], pad));
    }
    assert forall|others: Seq<Corners>, i: int|
        #![trigger lies_in(boxes[i], others)]
        holds_all(others, lit) && spaced(others, pad) && 0 <= i < boxes.len() implies lies_in(
        boxes[i],
        others,
    ) by {
        let views = as_blobs(others);
        lemma_cover_holds_blobs(data, width, height, pad, others);
        assert(separated(views, pad)) by {
            assert forall|a: int, b: int|
                0 <= a < views.len() && 0 <= b < views.len() && a != b implies !touching(
                #[trigger] views[a],
                #[trigger] views[b],
                pad,
            ) by {
                assert(others[b].0 - others[a].2 > pad || others[a].0 - others[b].2 > pad
                    || others[b].1 - others[a].3 > pad || others[a].1 - others[b].3 > pad);
            }
        }
        law_merged_least(blobs, pad, views);
        assert(in_some(all[i], views));
        let j = choose|j: int| 0 <= j < views.len() && inside(all[i], #[trigger] views[j]);
        assert(others[j].0 <= boxes[i].0);
    }
    assert forall|i: int| 0 <= i < all.len() implies (#[trigger] all[i]).area == count_in(
        lit,
        boxes[i],
    ) by {
        law_cluster_counts(data, width, height, pad, i);
        assert(Set::new(|c: Cell| lit.contains(c) && holds(boxes[i], c)) =~= lit.intersect(
            box_cells(all[i]),
        ));
    }
}

/// The clusters that are kept are the large boxes.
pub proof fn lemma_lists_large(data: Seq<u8>, width: int, height: int, pad: int, min_area: int)
    requires
        0 < width,
        0 <= height,
        0 <= pad,
    ensures
        ({
            let lit = lit_cells(data, width, height, width);
            let blobs = all_blobs(data, width, height, width);
            let boxes = cluster_corners(merged(blobs, pad));
            let kept = clustered(blobs, pad, min_area);
            &&& lists_large(cluster_corners(kept), boxes, lit, min_area)
            &&& covered_cells(kept) == covered_by_large(boxes, lit, min_area)
            &&& covered_by_large(boxes, lit, min_area).len() == coverage(kept)
        }),
{
    let lit = lit_cells(data, width, height, width);
    let blobs = all_blobs(data, width, height, width);
    let all = merged(blobs, pad);
    let boxes = cluster_corners(all);
    let kept = clustered(blobs, pad, min_area);
    let report = cluster_corners(kept);
    lemma_least_cover(data, width, height, pad);
    law_clustered(blobs, pad, min_area);
    law_clustered_separated(blobs, pad, min_area);
    law_blobs_partition(data, width, height, width);
    lemma_merged_in_frame(blobs, pad, width, height);
    assert forall|i: int| 0 <= i < kept.len() implies exists|m: int|
        0 <= m < all.len() && #[trigger] all[m] == #[trigger] kept[i] by {
        assert(kept.contains(kept[i]));
    }
    assert forall|i: int| 0 <= i < kept.len() implies #[trigger] report[i] == (
        kept[i].min_x,
        kept[i].min_y,
        kept[i].max_x,
        kept[i].max_y,
    ) && kept[i].area == count_in(lit, report[i]) && kept[i].area >= min_area by {
        assert(kept.contains(kept[i]));
        let m = choose|m: int| 0 <= m < all.len() && all[m] == kept[i];
        assert(boxes[m] == report[i]);
        assert(all[m].area == count_in(lit, boxes[m]));
    }
    assert forall|b: Corners| #[trigger] report.contains(b) <==> boxes.contains(b) && count_in(
        lit,
        b,
    ) >= min_area by {
        if report.contains(b) {
            let i = choose|i: int| 0 <= i < report.len() && report[i] == b;
            assert(kept.contains(kept[i]));
            let m = choose|m: int| 0 <= m < all.len() && all[m] == kept[i];
            assert(boxes[m] == b);
        }
        if boxes.contains(b) && count_in(lit, b) >= min_area {
            let m = choose|m: int| 0 <= m < boxes.len() && boxes[m] == b;
            assert(all[m].area == count_in(lit, boxes[m]));
            assert(all.contains(all[m]));
            assert(kept.contains(all[m]));
            let i = choose|i: int| 0 <= i < kept.len() && kept[i] == all[m];
            assert(report[i] == b);
        }
    }
    assert(all_proper(kept)) by {
        assert forall|i: int| 0 <= i < kept.len() implies proper(
            #[trigger] kept[i],
        ) by {
            assert(kept.contains(kept[i]));
            let m = choose|m: int| 0 <= m < all.len() && all[m] == kept[i];
            assert(proper(all[m]));
        }
    }
    assert forall|i: int, j: int|
        #![trigger report[i], report[j]]
        0 <= i < j < report.len() implies report[i] != report[j] && count_in(lit, report[i])
        >= count_in(lit, report[j]) by {
        assert(!touching(kept[i], kept[j], pad));
        assert(proper(kept[i]));
        assert(kept[i].area >= kept[j].area);
        assert(kept[i].area == count_in(lit, report[i]));
        assert(kept[j].area == count_in(lit, report[j]));
    }
    let large = covered_by_large(boxes, lit, min_area);
    assert forall|c: Cell| covered_cells(kept).contains(c) implies large.contains(c) by {
        let i = choose|i: int| 0 <= i < kept.len() && box_cells(#[trigger] kept[i]).contains(c);
        assert(report.contains(report[i]));
        let m = choose|m: int| 0 <= m < boxes.len() && boxes[m] == report[i];
        assert(holds(boxes[m], c));
    }
    assert forall|c: Cell| large.contains(c) implies covered_cells(kept).contains(c) by {
        let m = choose|m: int|
            0 <= m < boxes.len() && count_in(lit, boxes[m]) >= min_area && #[trigger] holds(
                boxes[m],
                c,
            );
        assert(boxes.contains(boxes[m]));
        assert(report.contains(boxes[m]));
        let i = choose|i: int| 0 <= i < report.len() && report[i] == boxes[m];
        assert(box_cells(kept[i]).contains(c));
    }
    assert(covered_cells(kept) =~= large);
    law_coverage_exact(kept, pad);
}

/// What a frame leads to, said of it and of the frame it is held against.
///
/// Take the pixels of motion: those that have, at most `dilate_size` rows and columns away, a
/// pixel that differs by `threshold` or more. Let `parts` be their connected parts, and `boxes`
/// the smallest boxes that hold them all and are more than `pad` pixels apart. If there are more
/// than a thousand parts, or the boxes with at least `min_area` pixels of motion cover more than
/// four fifths of the frame, the whole frame is reported, and the next frame is held against this
/// one. Otherwise exactly these boxes are reported, those with most motion first, and the next
/// frame is held against this one if it is to become the reference, and against the old one if
/// not.
pub open spec fn reports(
    before: ProcessorView,
    frame: Seq<u8>,
    threshold: int,
    dilate_size: int,
    min_area: int,
    update_reference: bool,
    pad: int,
    report: Seq<(int, int, int, int)>,
    after: ProcessorView,
) -> bool {
    let w = before.width as int;
    let h = before.height as int;
    let cells = motion(frame, held_against(before), w, h, threshold, dilate_size);
    exists|parts: Seq<Set<(int, int)>>, boxes: Seq<(int, int, int, int)>|
        {
            let too_much = parts.len() > 1000 || 5 * covered_by_large(boxes, cells, min_area).len()
                > 4 * (w * h);
            &&& #[trigger] parts_of(cells, parts)
            &&& #[trigger] least_cover(boxes, cells, pad)
            &&& too_much ==> report == seq![(0int, 0int, w, h)]
            &&& !too_much ==> lists_large(report, boxes, cells, min_area)
            &&& held_against(after) == (if too_much || update_reference {
                frame.take(w * h)
            } else {
                held_against(before)
            })
            &&& after.has_previous
            &&& after.width == before.width && after.height == before.height
            &&& buffers_fit(after)
        }
}

/// `pad` is a sixth of the shorter side of a frame.
pub open spec fn sixth_of_shorter(pad: int, width: int, height: int) -> bool {
    6 * pad <= width && 6 * pad <= height && (6 * pad + 6 > width || 6 * pad + 6 > height)
}

/// A frame that is held against another leads to what `reports` says, with boxes merged up to a
/// sixth of the shorter side.
pub proof fn law_report(
    state: ProcessorView,
    frame: Seq<u8>,
    threshold: u8,
    dilate_size: u8,
    min_area: u32,
    update_reference: bool,
    pad: int,
)
    requires
        buffers_fit(state),
        state.has_previous,
        state.width * state.height <= frame.len() <= state.frame_a.len(),
        sixth_of_shorter(pad, state.width as int, state.height as int),
    ensures
        ({
            let (next, report) = state.with_current(over(frame, state.current())).judged(
                threshold,
                dilate_size,
                min_area,
                update_reference,
            );
            reports(
                state,
                frame,
                threshold as int,
                dilate_size as int,
                min_area as int,
                update_reference,
                pad,
                report,
                next,
            )
        }),
{
    let w = state.width as int;
    let h = state.height as int;
    let s = state.with_current(over(frame, state.current()));
    lemma_given_frame(state, frame);
    lemma_fit(s);
    lemma_motion(state, frame, threshold, dilate_size);
    let seen = s.compared(threshold).spread(dilate_size);
    let cells = lit_cells(seen.dilated, w, h, w);
    let parts = groups(cells, w, h);
    let blobs = all_blobs(seen.dilated, w, h, w);
    let boxes = cluster_corners(merged(blobs, pad));
    assert(pad == seen.pad() && 0 <= pad);
    assert(cells.subset_of(frame_cells(w, h)));
    lemma_groups_are_parts(cells, w, h);
    lemma_least_cover(seen.dilated, w, h, pad);
    lemma_lists_large(seen.dilated, w, h, pad, min_area as int);
    assert(blobs.len() == parts.len());
    law_judged_fit(s, threshold, dilate_size, min_area, update_reference);
    let next = s.judged(threshold, dilate_size, min_area, update_reference).0;
    let too_much = parts.len() > 1000 || 5 * covered_by_large(
        boxes,
        cells,
        min_area as int,
    ).len() > 4 * (w * h);
    assert(seen.crowded() == (parts.len() > 1000)) by {
        assert(blobs.take(1001).len() == 1001 || blobs.len() < 1001);
    }
    if !seen.crowded() {
        assert(seen.blobs() == blobs);
        assert(seen.flooded(min_area) == (5 * covered_by_large(
            boxes,
            cells,
            min_area as int,
        ).len() > 4 * (w * h)));
    }
    assert(too_much == (seen.crowded() || seen.flooded(min_area)) || seen.crowded());
    assert(parts_of(cells, parts) && least_cover(boxes, cells, pad));
}

/// A first frame is only kept: nothing is reported, and the next frame is held against it.
pub proof fn law_first_report(
    state: ProcessorView,
    frame: Seq<u8>,
    threshold: u8,
    dilate_size: u8,
    min_area: u32,
    update_reference: bool,
)
    requires
        buffers_fit(state),
        !state.has_previous,
        state.width * state.height <= frame.len() <= state.frame_a.len(),
    ensures
        ({
            let (next, report) = state.with_current(over(frame, state.current())).judged(
                threshold,
                dilate_size,
                min_area,
                update_reference,
            );
            &&& report.len() == 0
            &&& next.has_previous
            &&& held_against(next) == frame.take(state.width * state.height)
            &&& next.width == state.width && next.height == state.height
            &&& buffers_fit(next)
        }),
{
    lemma_given_frame(state, frame);
}

/// What step-by-step processing leads to: the same as `law_report` says, with the reference
/// updated and no heed paid to how much of the frame is covered.
pub proof fn law_steps_report(
    state: ProcessorView,
    frame: Seq<u8>,
    threshold: u8,
    dilate_size: u8,
    min_area: u32,
    pad: int,
)
    requires
        buffers_fit(state),
        state.width * state.height <= frame.len() <= state.frame_a.len(),
        sixth_of_shorter(pad, state.width as int, state.height as int),
    ensures
        ({
            let w = state.width as int;
            let h = state.height as int;
            let cells = motion(
                frame,
                held_against(state),
                w,
                h,
                threshold as int,
                dilate_size as int,
            );
            let seen = state.with_current(over(frame, state.current())).compared(threshold).spread(
                dilate_size,
            );
            let report = seen.debug_boxes(min_area);
            let next = seen.searched().toggled();
            exists|parts: Seq<Set<(int, int)>>, boxes: Seq<(int, int, int, int)>|
                {
                    &&& #[trigger] parts_of(cells, parts)
                    &&& #[trigger] least_cover(boxes, cells, pad)
                    &&& parts.len() > 1000 ==> report == seq![(0int, 0int, w, h)]
                    &&& parts.len() <= 1000 ==> lists_large(report, boxes, cells, min_area as int)
                    &&& held_against(next) == frame.take(w * h)
                    &&& next.has_previous == state.has_previous
                    &&& next.width == state.width && next.height == state.height
                }
        }),
{
    let w = state.width as int;
    let h = state.height as int;
    let s = state.with_current(over(frame, state.current()));
    lemma_given_frame(state, frame);
    lemma_fit(s);
    lemma_motion(state, frame, threshold, dilate_size);
    let seen = s.compared(threshold).spread(dilate_size);
    let cells = lit_cells(seen.dilated, w, h, w);
    let parts = groups(cells, w, h);
    let blobs = all_blobs(seen.dilated, w, h, w);
    let boxes = cluster_corners(merged(blobs, pad));
    assert(pad == seen.pad() && 0 <= pad);
    assert(cells.subset_of(frame_cells(w, h)));
    lemma_groups_are_parts(cells, w, h);
    lemma_least_cover(seen.dilated, w, h, pad);
    lemma_lists_large(seen.dilated, w, h, pad, min_area as int);
    assert(blobs.len() == parts.len());
    assert(seen.crowded() == (parts.len() > 1000)) by {
        assert(blobs.take(1001).len() == 1001 || blobs.len() < 1001);
    }
    assert(parts_of(cells, parts) && least_cover(boxes, cells, pad));
}

/// What judging a frame leaves behind, whatever it reports. A first frame leaves every buffer as
/// it is; a later one leaves what comparing, dilating and searching in turn leave. Neither frame
/// buffer changes, and neither does the size.
pub proof fn law_judged_buffers(
    state: ProcessorView,
    threshold: u8,
    dilate_size: u8,
    min_area: u32,
    update_reference: bool,
)
    ensures
        ({
            let (next, report) = state.judged(threshold, dilate_size, min_area, update_reference);
            let left = if state.has_previous {
                state.compared(threshold).spread(dilate_size).searched()
            } else {
                state
            };
            &&& next.width == state.width && next.height == state.height
            &&& next.frame_a == state.frame_a && next.frame_b == state.frame_b
            &&& next.difference == left.difference && next.dilated == left.dilated
            &&& next.scratch == left.scratch && next.stack == left.stack
            &&& next.marks == left.marks && next.has_previous
            &&& !state.has_previous || update_reference ==> next.phase == !state.phase
        }),
{
}

/// The frame counts as flooded exactly if the boxes of its clusters cover more than four fifths
/// of its pixels.
pub proof fn law_flooded(state: ProcessorView, min_area: u32)
    requires
        buffers_fit(state),
    ensures
        state.flooded(min_area) <==> {
            let clusters = state.clusters(min_area);
            let covered = Set::new(
                |c: (int, int)|
                    exists|i: int|
                        0 <= i < clusters.len() && (#[trigger] clusters[i]).min_y <= c.0 && c.0
                            < clusters[i].max_y && clusters[i].min_x <= c.1 && c.1
                            < clusters[i].max_x,
            );
            let pixels = Set::new(
                |c: (int, int)|
                    0 <= c.0 && c.0 < state.height && 0 <= c.1 && c.1 < state.width,
            );
            5 * covered.len() > 4 * pixels.len()
        },
{
    let w = state.width as int;
    let h = state.height as int;
    let clusters = state.clusters(min_area);
    lemma_fit(state);
    lemma_clusters(state, min_area);
    law_coverage_exact(clusters, state.pad());
    let covered = Set::new(
        |c: (int, int)|
            exists|i: int|
                0 <= i < clusters.len() && (#[trigger] clusters[i]).min_y <= c.0 && c.0
                    < clusters[i].max_y && clusters[i].min_x <= c.1 && c.1 < clusters[i].max_x,
    );
    let pixels = Set::new(
        |c: (int, int)| 0 <= c.0 && c.0 < state.height && 0 <= c.1 && c.1 < state.width,
    );
    assert forall|c: Cell| covered.contains(c) == covered_cells(clusters).contains(c) by {
        if covered.contains(c) {
            let i = choose|i: int|
                0 <= i < clusters.len() && (#[trigger] clusters[i]).min_y <= c.0 && c.0
                    < clusters[i].max_y && clusters[i].min_x <= c.1 && c.1 < clusters[i].max_x;
            assert(box_cells(clusters[i]).contains(c));
        }
        if covered_cells(clusters).contains(c) {
            let i = choose|i: int|
                0 <= i < clusters.len() && box_cells(#[trigger] clusters[i]).contains(c);
            assert(clusters[i].min_y <= c.0);
        }
    }
    assert(covered =~= covered_cells(clusters));
    lemma_rect_len(0, 0, w, h);
    assert(pixels =~= rect(0, 0, w, h));
}

} // verus!
