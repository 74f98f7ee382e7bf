//! How much of a frame a list of boxes covers.
use crate::blobs::{blob_views, Blob, BlobView};
use crate::cluster::touching;
use crate::cluster_laws::{all_proper, proper, separated};
use crate::grid::{frame_cells, lemma_rect_len, rect, Cell};
use vstd::prelude::*;
use vstd::set_lib::*;

verus! {

/// The pixels of a box.
pub open spec fn box_cells(blob: BlobView) -> Set<Cell> {
    rect(blob.min_x, blob.min_y, blob.max_x, blob.max_y)
}

/// The pixels that lie in some of the boxes.
pub open spec fn covered_cells(blobs: Seq<BlobView>) -> Set<Cell> {
    Set::new(
        |c: Cell|
            exists|i: int| 0 <= i < blobs.len() && box_cells(#[trigger] blobs[i]).contains(c),
    )
}

/// Width times height of a box.
pub open spec fn box_size(blob: BlobView) -> int {
    (blob.max_x - blob.min_x) * (blob.max_y - blob.min_y)
}

/// The sizes of the boxes added up.
pub open spec fn coverage(blobs: Seq<BlobView>) -> int
    decreases blobs.len(),
{
    if blobs.len() == 0 {
        0
    } else {
        coverage(blobs.drop_last()) + box_size(blobs.last())
    }
}

/// More than four fifths of the frame.
pub open spec fn over_limit(covered: int, width: int, height: int) -> bool {
    5 * covered > 4 * (width * height)
}

/// The box lies in a frame of this size.
pub open spec fn in_frame(blob: BlobView, width: int, height: int) -> bool {
    0 <= blob.min_x && 0 <= blob.min_y && blob.max_x <= width && blob.max_y <= height
}

proof fn lemma_covered_last(blobs: Seq<BlobView>)
    requires
        blobs.len() > 0,
    ensures
        covered_cells(blobs) == covered_cells(blobs.drop_last()).union(box_cells(blobs.last())),
{
    let fewer = blobs.drop_last();
    let both = covered_cells(fewer).union(box_cells(blobs.last()));
    assert forall|c: Cell| both.contains(c) implies covered_cells(blobs).contains(c) by {
        if covered_cells(fewer).contains(c) {
            let i = choose|i: int| 0 <= i < fewer.len() && box_cells(#[trigger] fewer[i]).contains(c);
            assert(blobs[i] == fewer[i]);
        } else {
            assert(blobs[blobs.len() - 1] == blobs.last());
        }
    }
    assert forall|c: Cell| covered_cells(blobs).contains(c) implies both.contains(c) by {
        let i = choose|i: int| 0 <= i < blobs.len() && box_cells(#[trigger] blobs[i]).contains(c);
        if i < fewer.len() {
            assert(fewer[i] == blobs[i]);
        }
    }
    assert(covered_cells(blobs) =~= both);
}

/// Boxes that do not touch share no pixel, so the sum of their sizes is the number of pixels
/// that they cover.
pub proof fn law_coverage_exact(blobs: Seq<BlobView>, pad: int)
    requires
        0 <= pad,
        all_proper(blobs),
        separated(blobs, pad),
    ensures
        covered_cells(blobs).finite(),
        covered_cells(blobs).len() == coverage(blobs),
    decreases blobs.len(),
{
    if blobs.len() == 0 {
        assert(covered_cells(blobs) =~= Set::<Cell>::empty());
    } else {
        let fewer = blobs.drop_last();
        let last = blobs.last();
        assert(all_proper(fewer)) by {
            assert forall|i: int| 0 <= i < fewer.len() implies proper(#[trigger] fewer[i]) by {
                assert(proper(blobs[i]));
            }
        }
        law_coverage_exact(fewer, pad);
        lemma_covered_last(blobs);
        assert(proper(blobs[blobs.len() - 1]));
        lemma_rect_len(last.min_x, last.min_y, last.max_x, last.max_y);
        assert forall|c: Cell| covered_cells(fewer).contains(c) implies !box_cells(last).contains(
            c,
        ) by {
            let i = choose|i: int| 0 <= i < fewer.len() && box_cells(#[trigger] fewer[i]).contains(c);
            assert(!touching(blobs[i], blobs[blobs.len() - 1], pad));
        }
        assert(covered_cells(fewer).disjoint(box_cells(last)));
        lemma_set_disjoint_lens(covered_cells(fewer), box_cells(last));
    }
}

/// Boxes that do not touch and lie in a frame cover at most the frame.
pub proof fn law_coverage_in_frame(blobs: Seq<BlobView>, pad: int, width: int, height: int)
    requires
        0 <= pad,
        0 <= width,
        0 <= height,
        all_proper(blobs),
        separated(blobs, pad),
        forall|i: int| 0 <= i < blobs.len() ==> in_frame(#[trigger] blobs[i], width, height),
    ensures
        0 <= coverage(blobs) <= width * height,
{
    law_coverage_exact(blobs, pad);
    let frame = frame_cells(width, height);
    lemma_rect_len(0, 0, width, height);
    assert forall|c: Cell| covered_cells(blobs).contains(c) implies frame.contains(c) by {
        let i = choose|i: int| 0 <= i < blobs.len() && box_cells(#[trigger] blobs[i]).contains(c);
        assert(in_frame(blobs[i], width, height));
    }
    lemma_len_subset(covered_cells(blobs), frame);
}

/// No box has a negative side.
pub open spec fn upright(blobs: Seq<BlobView>) -> bool {
    forall|i: int|
        0 <= i < blobs.len() ==> (#[trigger] blobs[i]).min_x <= blobs[i].max_x && blobs[i].min_y
            <= blobs[i].max_y
}

proof fn lemma_coverage_grows(blobs: Seq<BlobView>, k: int)
    requires
        upright(blobs),
        0 <= k <= blobs.len(),
    ensures
        0 <= coverage(blobs.take(k)) <= coverage(blobs),
    decreases blobs.len(),
{
    if k == blobs.len() {
        assert(blobs.take(k) =~= blobs);
    }
    if blobs.len() > 0 {
        let fewer = blobs.drop_last();
        let last = blobs[blobs.len() - 1];
        assert(upright(fewer)) by {
            assert forall|i: int| 0 <= i < fewer.len() implies (#[trigger] fewer[i]).min_x
                <= fewer[i].max_x && fewer[i].min_y <= fewer[i].max_y by {
                assert(fewer[i] == blobs[i]);
            }
        }
        assert(box_size(last) >= 0) by (nonlinear_arith)
            requires
                last.min_x <= last.max_x,
                last.min_y <= last.max_y,
        ;
        if k < blobs.len() {
            lemma_coverage_grows(fewer, k);
            assert(fewer.take(k) =~= blobs.take(k));
        } else {
            lemma_coverage_grows(fewer, k - 1);
            assert(fewer.take(k - 1) =~= fewer);
        }
    }
}

/// The sizes of the boxes added up.
pub fn box_coverage(clusters: &Vec<Blob>) -> (covered: u64)
    requires
        upright(blob_views(clusters@)),
        coverage(blob_views(clusters@)) <= u64::MAX,
    ensures
        covered == coverage(blob_views(clusters@)),
{
    let ghost views = blob_views(clusters@);
    let mut covered: u64 = 0;
    let mut i: usize = 0;
    while i < clusters.len()
        invariant
            i <= clusters@.len(),
            views == blob_views(clusters@),
            upright(views),
            coverage(views) <= u64::MAX,
            covered == coverage(views.take(i as int)),
        decreases clusters@.len() - i,
    {
        let c: Blob = clusters[i];
        proof {
            assert(views[i as int] == c@);
            assert(views.take(i + 1).drop_last() =~= views.take(i as int));
            assert(views.take(i + 1).last() == c@);
            lemma_coverage_grows(views, i + 1);
            lemma_coverage_grows(views, i as int);
            assert((c.max_x - c.min_x) * (c.max_y - c.min_y) <= u32::MAX * u32::MAX)
                by (nonlinear_arith)
                requires
                    c.min_x <= c.max_x,
                    c.min_y <= c.max_y,
            ;
        }
        covered += ((c.max_x - c.min_x) as u64) * ((c.max_y - c.min_y) as u64);
        i += 1;
    }
    proof {
        assert(views.take(i as int) =~= views);
    }
    covered
}

/// Whether `covered` pixels are more than four fifths of a frame of this size.
pub fn covers_too_much(covered: u64, width: u32, height: u32) -> (too_much: bool)
    ensures
        too_much == over_limit(covered as int, width as int, height as int),
{
    proof {
        assert(width * height <= u32::MAX * u32::MAX) by (nonlinear_arith);
    }
    5 * (covered as u128) > 4 * ((width as u128) * (height as u128))
}

} // verus!
