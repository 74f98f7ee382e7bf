//! What holds of the blobs of a frame as a whole.
use crate::bitset::{bit_at, lemma_same_bits};
use crate::blobs::{
    all_blobs, blob_views, cell_at, described, describes, extent, fill_outcome, found_cells, groups_of,
    is_seed, lemma_cell_at, lemma_extent_unique, lemma_free_group, lemma_groups_push, lemma_reach_in_frame,
    lemma_seeds_complete, lemma_seeds_sound, lemma_spans_grow, lit_cells, marked_cells,
    ordered_seeds, raw_blobs, search_outcome, seeds, spans, Blob, BlobView, MAX_RAW_BLOBS,
};
use crate::cluster::{areas_counted, areas_within, merged, touching};
use crate::cluster_laws::{
    all_proper, area_inside, each, in_some, inside, law_merged_areas, law_merged_covers,
    law_merged_separated, law_merged_total, lemma_merged_keeps, lemma_merged_proper, proper,
    total_area,
};
use crate::coverage::{box_cells, in_frame};
use crate::grid::{
    frame_cells, lemma_raster_bounds, lemma_reach_same, lemma_reach_start, lemma_reach_symmetric,
    lemma_reach_transitive, lemma_rect_len, raster, reach, Cell,
};
use vstd::prelude::*;
use vstd::set_lib::*;

verus! {

/// Any cells, if finitely many and at least one, have a bounding box.
pub proof fn lemma_extent_exists(cells: Set<Cell>)
    requires
        cells.finite(),
        cells.len() > 0,
    ensures
        describes(extent(cells), cells),
    decreases cells.len(),
{
    let c = cells.choose();
    let fewer = cells.remove(c);
    assert(fewer.insert(c) =~= cells);
    let blob = if fewer.len() == 0 {
        assert(fewer =~= Set::<Cell>::empty());
        let blob = BlobView { min_x: c.1, min_y: c.0, max_x: c.1 + 1, max_y: c.0 + 1, area: 1 };
        assert(spans(cells, c.1, c.0, c.1, c.0)) by {
            assert(cells.contains(c));
        }
        blob
    } else {
        lemma_extent_exists(fewer);
        let b = extent(fewer);
        lemma_spans_grow(fewer, c, b.min_x, b.min_y, b.max_x - 1, b.max_y - 1);
        BlobView {
            min_x: if c.1 < b.min_x { c.1 } else { b.min_x },
            min_y: if c.0 < b.min_y { c.0 } else { b.min_y },
            max_x: if c.1 > b.max_x - 1 { c.1 + 1 } else { b.max_x },
            max_y: if c.0 > b.max_y - 1 { c.0 + 1 } else { b.max_y },
            area: cells.len() as int,
        }
    };
    assert(describes(blob, cells));
    lemma_extent_unique(blob, cells);
}

/// The first cell of the group that a foreground cell belongs to.
proof fn lemma_group_has_seed(lit: Set<Cell>, width: int, height: int, c: Cell) -> (first: Cell)
    requires
        lit.subset_of(frame_cells(width, height)),
        lit.contains(c),
    ensures
        is_seed(lit, width, first),
        reach(lit, first).contains(c),
    decreases raster(c, width),
{
    lemma_reach_start(lit, c);
    if is_seed(lit, width, c) {
        c
    } else {
        let d = choose|d: Cell| #[trigger]
            reach(lit, c).contains(d) && !(raster(c, width) <= raster(d, width));
        lemma_reach_symmetric(lit, c, d);
        lemma_raster_bounds(d, width, height);
        let first = lemma_group_has_seed(lit, width, height, d);
        lemma_reach_transitive(lit, first, d);
        first
    }
}

/// Every foreground pixel belongs to one of the groups, and nothing else does.
pub proof fn law_groups_cover(lit: Set<Cell>, width: int, height: int)
    requires
        0 < width,
        0 <= height,
        lit.subset_of(frame_cells(width, height)),
    ensures
        groups_of(lit, seeds(lit, width, width * height)) == lit,
{
    let firsts = seeds(lit, width, width * height);
    assert(0 <= width * height) by (nonlinear_arith)
        requires
            0 < width,
            0 <= height,
    ;
    lemma_seeds_sound(lit, width, height, width * height);
    assert forall|c: Cell| lit.contains(c) implies groups_of(lit, firsts).contains(c) by {
        let first = lemma_group_has_seed(lit, width, height, c);
        lemma_raster_bounds(first, width, height);
        lemma_seeds_complete(lit, width, height, width * height, first);
        let i = choose|i: int| 0 <= i < firsts.len() && firsts[i] == first;
        assert(reach(lit, firsts[i]).contains(c));
    }
    assert forall|c: Cell| groups_of(lit, firsts).contains(c) implies lit.contains(c) by {
        let i = choose|i: int| 0 <= i < firsts.len() && reach(lit, #[trigger] firsts[i]).contains(c);
        assert(is_seed(lit, width, firsts[i]));
        lemma_reach_symmetric(lit, firsts[i], c);
    }
    assert(groups_of(lit, firsts) =~= lit);
}

/// Two groups with different first pixels share no pixel.
pub proof fn law_groups_disjoint(lit: Set<Cell>, width: int, p: Cell, q: Cell)
    requires
        is_seed(lit, width, p),
        is_seed(lit, width, q),
        raster(p, width) != raster(q, width),
    ensures
        reach(lit, p).disjoint(reach(lit, q)),
{
    assert forall|c: Cell| reach(lit, p).contains(c) implies !reach(lit, q).contains(c) by {
        if reach(lit, q).contains(c) {
            lemma_reach_same(lit, p, c);
            lemma_reach_same(lit, q, c);
            lemma_reach_start(lit, p);
            lemma_reach_start(lit, q);
            assert(reach(lit, p).contains(q));
            assert(reach(lit, q).contains(p));
        }
    }
}

/// A group is described by its blob, which is not empty and lies in the frame.
proof fn lemma_group_extent(lit: Set<Cell>, width: int, height: int, first: Cell)
    requires
        lit.subset_of(frame_cells(width, height)),
        lit.contains(first),
    ensures
        describes(extent(reach(lit, first)), reach(lit, first)),
        proper(extent(reach(lit, first))),
        in_frame(extent(reach(lit, first)), width, height),
        extent(reach(lit, first)).area > 0,
{
    let group = reach(lit, first);
    lemma_reach_in_frame(lit, first, width, height);
    lemma_reach_start(lit, first);
    if group.len() == 0 {
        assert(group =~= Set::<Cell>::empty());
    }
    lemma_extent_exists(group);
    let b = extent(group);
    assert(spans(group, b.min_x, b.min_y, b.max_x - 1, b.max_y - 1));
    let left = choose|c: Cell| #[trigger] group.contains(c) && c.1 == b.min_x;
    let top = choose|c: Cell| #[trigger] group.contains(c) && c.0 == b.min_y;
    let right = choose|c: Cell| #[trigger] group.contains(c) && c.1 == b.max_x - 1;
    let bottom = choose|c: Cell| #[trigger] group.contains(c) && c.0 == b.max_y - 1;
    let frame = frame_cells(width, height);
    assert(frame.contains(left) && frame.contains(top) && frame.contains(right) && frame.contains(
        bottom,
    ));
    assert(b.min_x <= first.1 <= b.max_x - 1 && b.min_y <= first.0 <= b.max_y - 1);
}

/// Blobs as a frame of this size can have them: each box has pixels, lies in the frame, and
/// counts at least one pixel.
pub open spec fn frame_blobs(blobs: Seq<BlobView>, width: int, height: int) -> bool {
    forall|i: int|
        0 <= i < blobs.len() ==> proper(#[trigger] blobs[i]) && in_frame(blobs[i], width, height)
            && 0 < blobs[i].area
}

proof fn lemma_fewer_seeds(lit: Set<Cell>, width: int, firsts: Seq<Cell>, n: int)
    requires
        firsts.len() > 0,
        ordered_seeds(lit, width, firsts, n),
    ensures
        ordered_seeds(lit, width, firsts.drop_last(), n),
{
    let fewer = firsts.drop_last();
    assert forall|i: int| 0 <= i < fewer.len() implies is_seed(lit, width, #[trigger] fewer[i])
        && raster(fewer[i], width) < n by {
        assert(fewer[i] == firsts[i]);
    }
    assert forall|i: int, j: int| 0 <= i < j < fewer.len() implies raster(
        #[trigger] fewer[i],
        width,
    ) < raster(#[trigger] fewer[j], width) by {
        assert(fewer[i] == firsts[i] && fewer[j] == firsts[j]);
    }
}

proof fn lemma_described(lit: Set<Cell>, firsts: Seq<Cell>, width: int, height: int)
    requires
        lit.subset_of(frame_cells(width, height)),
        ordered_seeds(lit, width, firsts, width * height),
    ensures
        frame_blobs(described(lit, firsts), width, height),
        groups_of(lit, firsts).finite(),
        total_area(described(lit, firsts)) == groups_of(lit, firsts).len(),
    decreases firsts.len(),
{
    let blobs = described(lit, firsts);
    if firsts.len() == 0 {
        assert(groups_of(lit, firsts) =~= Set::<Cell>::empty());
    } else {
        let fewer = firsts.drop_last();
        let last = firsts.last();
        assert(firsts[firsts.len() - 1] == last);
        lemma_fewer_seeds(lit, width, firsts, width * height);
        lemma_described(lit, fewer, width, height);
        lemma_groups_push(lit, fewer, last);
        assert(fewer.push(last) =~= firsts);
        lemma_group_extent(lit, width, height, last);
        assert(blobs.drop_last() =~= described(lit, fewer));
        assert(blobs.last() == extent(reach(lit, last)));
        assert forall|c: Cell| groups_of(lit, fewer).contains(c) implies !reach(
            lit,
            last,
        ).contains(c) by {
            let i = choose|i: int|
                0 <= i < fewer.len() && reach(lit, #[trigger] fewer[i]).contains(c);
            assert(fewer[i] == firsts[i]);
            law_groups_disjoint(lit, width, firsts[i], last);
        }
        assert(groups_of(lit, fewer).disjoint(reach(lit, last)));
        lemma_set_disjoint_lens(groups_of(lit, fewer), reach(lit, last));
        assert forall|i: int| 0 <= i < blobs.len() implies proper(#[trigger] blobs[i]) && in_frame(
            blobs[i],
            width,
            height,
        ) && 0 < blobs[i].area by {
            if i < fewer.len() {
                assert(described(lit, fewer)[i] == blobs[i]);
            }
        }
    }
}

/// The blobs of a frame lie in the frame, and their areas add up to the number of foreground
/// pixels: every such pixel is counted in exactly one blob.
pub proof fn law_blobs_partition(data: Seq<u8>, width: int, height: int, stride: int)
    requires
        0 < width,
        0 <= height,
    ensures
        frame_blobs(all_blobs(data, width, height, stride), width, height),
        lit_cells(data, width, height, stride).finite(),
        total_area(all_blobs(data, width, height, stride)) == lit_cells(
            data,
            width,
            height,
            stride,
        ).len(),
{
    let lit = lit_cells(data, width, height, stride);
    assert(0 <= width * height) by (nonlinear_arith)
        requires
            0 < width,
            0 <= height,
    ;
    assert(lit.subset_of(frame_cells(width, height)));
    lemma_seeds_sound(lit, width, height, width * height);
    lemma_described(lit, seeds(lit, width, width * height), width, height);
    law_groups_cover(lit, width, height);
}

/// Each blob of a frame is the bounding box of one connected group of foreground pixels and
/// counts them.
pub proof fn law_blob_describes(data: Seq<u8>, width: int, height: int, stride: int, i: int)
    requires
        0 < width,
        0 <= height,
        0 <= i < all_blobs(data, width, height, stride).len(),
    ensures
        ({
            let lit = lit_cells(data, width, height, stride);
            let first = seeds(lit, width, width * height)[i];
            &&& is_seed(lit, width, first)
            &&& describes(all_blobs(data, width, height, stride)[i], reach(lit, first))
        }),
{
    let lit = lit_cells(data, width, height, stride);
    let firsts = seeds(lit, width, width * height);
    assert(0 <= width * height) by (nonlinear_arith)
        requires
            0 < width,
            0 <= height,
    ;
    assert(lit.subset_of(frame_cells(width, height)));
    lemma_seeds_sound(lit, width, height, width * height);
    assert(is_seed(lit, width, firsts[i]));
    lemma_group_extent(lit, width, height, firsts[i]);
}

/// A frame without foreground pixels has no blobs.
pub proof fn law_dark_frame(data: Seq<u8>, width: int, height: int, stride: int)
    requires
        0 < width,
        0 <= height,
        lit_cells(data, width, height, stride) == Set::<Cell>::empty(),
    ensures
        raw_blobs(data, width, height, stride).len() == 0,
{
    let lit = lit_cells(data, width, height, stride);
    let firsts = seeds(lit, width, width * height);
    assert(0 <= width * height) by (nonlinear_arith)
        requires
            0 < width,
            0 <= height,
    ;
    lemma_seeds_sound(lit, width, height, width * height);
    if firsts.len() > 0 {
        assert(is_seed(lit, width, firsts[0]));
    }
}

proof fn lemma_total_take(blobs: Seq<BlobView>, k: int)
    requires
        areas_counted(blobs),
        0 <= k <= blobs.len(),
    ensures
        0 <= total_area(blobs.take(k)) <= total_area(blobs),
    decreases blobs.len(),
{
    if k == blobs.len() {
        assert(blobs.take(k) =~= blobs);
    }
    if blobs.len() > 0 {
        let fewer = blobs.drop_last();
        assert(blobs[blobs.len() - 1].area >= 0);
        assert(areas_counted(fewer)) by {
            assert forall|i: int| 0 <= i < fewer.len() implies 0 <= (#[trigger] fewer[i]).area by {
                assert(blobs[i].area >= 0);
            }
        }
        if k < blobs.len() {
            lemma_total_take(fewer, k);
            assert(fewer.take(k) =~= blobs.take(k));
        } else {
            lemma_total_take(fewer, k - 1);
            assert(fewer.take(k - 1) =~= fewer);
        }
    }
}

/// What a search gives lies in the frame, and the areas add up to at most the frame's size.
pub proof fn lemma_raw_blobs(data: Seq<u8>, width: int, height: int, stride: int)
    requires
        0 < width,
        0 <= height,
    ensures
        frame_blobs(raw_blobs(data, width, height, stride), width, height),
        raw_blobs(data, width, height, stride).len() <= MAX_RAW_BLOBS + 1,
        0 <= total_area(raw_blobs(data, width, height, stride)) <= width * height,
{
    let all = all_blobs(data, width, height, stride);
    let lit = lit_cells(data, width, height, stride);
    law_blobs_partition(data, width, height, stride);
    lemma_rect_len(0, 0, width, height);
    lemma_len_subset(lit, frame_cells(width, height));
    lemma_total_take(all, if all.len() > MAX_RAW_BLOBS { MAX_RAW_BLOBS + 1 } else { all.len() as int });
    assert(all.take(all.len() as int) =~= all);
}

proof fn lemma_area_below_total(blobs: Seq<BlobView>, i: int)
    requires
        areas_counted(blobs),
        0 <= i < blobs.len(),
    ensures
        0 <= blobs[i].area <= total_area(blobs),
{
    lemma_total_take(blobs, i + 1);
    lemma_total_take(blobs, i);
    assert(blobs.take(i + 1).drop_last() =~= blobs.take(i));
    assert(blobs.take(i + 1).last() == blobs[i]);
}

/// Merging keeps the boxes in the frame, and no area exceeds the total.
pub proof fn lemma_merged_in_frame(blobs: Seq<BlobView>, pad: int, width: int, height: int)
    requires
        frame_blobs(blobs, width, height),
    ensures
        frame_blobs(merged(blobs, pad), width, height),
        all_proper(merged(blobs, pad)),
        areas_within(merged(blobs, pad), total_area(blobs)),
{
    let keeps = |b: BlobView| proper(b) && in_frame(b, width, height) && 0 < b.area;
    assert(each(blobs, keeps)) by {
        assert forall|i: int| 0 <= i < blobs.len() implies keeps(#[trigger] blobs[i]) by {}
    }
    lemma_merged_keeps(blobs, pad, keeps);
    let clusters = merged(blobs, pad);
    assert forall|i: int| 0 <= i < clusters.len() implies proper(#[trigger] clusters[i]) && in_frame(
        clusters[i],
        width,
        height,
    ) && 0 < clusters[i].area by {
        assert(keeps(clusters[i]));
    }
    lemma_merged_areas(blobs, pad);
}

/// While no area is negative, no cluster has more than the areas of all blobs together.
proof fn lemma_merged_areas(blobs: Seq<BlobView>, pad: int)
    requires
        areas_counted(blobs),
    ensures
        areas_within(merged(blobs, pad), total_area(blobs)),
{
    let counts = |b: BlobView| 0 <= b.area;
    assert(each(blobs, counts));
    lemma_merged_keeps(blobs, pad, counts);
    let clusters = merged(blobs, pad);
    assert(areas_counted(clusters)) by {
        assert forall|i: int| 0 <= i < clusters.len() implies 0 <= (
        #[trigger] clusters[i]).area by {
            assert(counts(clusters[i]));
        }
    }
    law_merged_total(blobs, pad);
    assert forall|i: int| 0 <= i < clusters.len() implies 0 <= (#[trigger] clusters[i]).area
        <= total_area(blobs) by {
        lemma_area_below_total(clusters, i);
    }
}

/// Blobs whose areas add up to a 32-bit number can be clustered: no cluster outgrows it.
pub proof fn law_clusters_fit(blobs: Seq<Blob>, pad: int)
    requires
        total_area(blob_views(blobs)) <= u32::MAX,
    ensures
        areas_within(merged(blob_views(blobs), pad), u32::MAX as int),
{
    let views = blob_views(blobs);
    assert(areas_counted(views)) by {
        assert forall|i: int| 0 <= i < views.len() implies 0 <= (#[trigger] views[i]).area by {
            assert(views[i] == blobs[i]@);
        }
    }
    lemma_merged_areas(views, pad);
    let clusters = merged(views, pad);
    assert forall|i: int| 0 <= i < clusters.len() implies 0 <= (#[trigger] clusters[i]).area
        <= u32::MAX by {}
}

/// A group lies in the box or outside it, as a whole.
spec fn whole_groups(lit: Set<Cell>, firsts: Seq<Cell>, cluster: BlobView) -> bool {
    forall|i: int|
        0 <= i < firsts.len() ==> inside(extent(reach(lit, #[trigger] firsts[i])), cluster)
            || reach(lit, firsts[i]).disjoint(box_cells(cluster))
}

proof fn lemma_count_inside(
    lit: Set<Cell>,
    firsts: Seq<Cell>,
    width: int,
    height: int,
    cluster: BlobView,
)
    requires
        lit.subset_of(frame_cells(width, height)),
        ordered_seeds(lit, width, firsts, width * height),
        whole_groups(lit, firsts, cluster),
    ensures
        groups_of(lit, firsts).finite(),
        area_inside(described(lit, firsts), cluster) == groups_of(lit, firsts).intersect(
            box_cells(cluster),
        ).len(),
    decreases firsts.len(),
{
    let blobs = described(lit, firsts);
    let cells = box_cells(cluster);
    lemma_described(lit, firsts, width, height);
    if firsts.len() == 0 {
        assert(groups_of(lit, firsts).intersect(cells) =~= Set::<Cell>::empty());
    } else {
        let fewer = firsts.drop_last();
        let last = firsts.last();
        assert(firsts[firsts.len() - 1] == last);
        lemma_fewer_seeds(lit, width, firsts, width * height);
        assert(whole_groups(lit, fewer, cluster)) by {
            assert forall|i: int| 0 <= i < fewer.len() implies inside(
                extent(reach(lit, #[trigger] fewer[i])),
                cluster,
            ) || reach(lit, fewer[i]).disjoint(cells) by {
                assert(fewer[i] == firsts[i]);
            }
        }
        lemma_count_inside(lit, fewer, width, height, cluster);
        lemma_groups_push(lit, fewer, last);
        assert(fewer.push(last) =~= firsts);
        lemma_group_extent(lit, width, height, last);
        lemma_reach_in_frame(lit, last, width, height);
        assert(blobs.drop_last() =~= described(lit, fewer));
        let group = reach(lit, last);
        let b = extent(group);
        assert(blobs.last() == b);
        let before = groups_of(lit, fewer).intersect(cells);
        if inside(b, cluster) {
            assert(spans(group, b.min_x, b.min_y, b.max_x - 1, b.max_y - 1));
            assert(group.subset_of(cells));
            assert(groups_of(lit, firsts).intersect(cells) =~= before.union(group));
            assert forall|c: Cell| before.contains(c) implies !group.contains(c) by {
                let i = choose|i: int|
                    0 <= i < fewer.len() && reach(lit, #[trigger] fewer[i]).contains(c);
                assert(fewer[i] == firsts[i]);
                law_groups_disjoint(lit, width, firsts[i], last);
            }
            assert(before.disjoint(group));
            lemma_set_disjoint_lens(before, group);
        } else {
            assert(group.disjoint(cells));
            assert(groups_of(lit, firsts).intersect(cells) =~= before);
        }
    }
}

/// The area of a cluster is the number of foreground pixels in its box.
pub proof fn law_cluster_counts(data: Seq<u8>, width: int, height: int, pad: int, i: int)
    requires
        0 < width,
        0 <= height,
        0 <= pad,
        0 <= i < merged(all_blobs(data, width, height, width), pad).len(),
    ensures
        ({
            let cluster = merged(all_blobs(data, width, height, width), pad)[i];
            cluster.area == lit_cells(data, width, height, width).intersect(
                box_cells(cluster),
            ).len()
        }),
{
    let lit = lit_cells(data, width, height, width);
    let firsts = seeds(lit, width, width * height);
    let blobs = all_blobs(data, width, height, width);
    let clusters = merged(blobs, pad);
    let cluster = clusters[i];
    assert(0 <= width * height) by (nonlinear_arith)
        requires
            0 < width,
            0 <= height,
    ;
    assert(lit.subset_of(frame_cells(width, height)));
    lemma_seeds_sound(lit, width, height, width * height);
    law_blobs_partition(data, width, height, width);
    assert(all_proper(blobs));
    law_groups_cover(lit, width, height);
    law_merged_areas(blobs, pad);
    law_merged_covers(blobs, pad);
    law_merged_separated(blobs, pad);
    lemma_merged_proper(blobs, pad);
    assert(whole_groups(lit, firsts, cluster)) by {
        assert forall|k: int| 0 <= k < firsts.len() implies inside(
            extent(reach(lit, #[trigger] firsts[k])),
            cluster,
        ) || reach(lit, firsts[k]).disjoint(box_cells(cluster)) by {
            let group = reach(lit, firsts[k]);
            let b = blobs[k];
            assert(b == extent(group));
            assert(is_seed(lit, width, firsts[k]));
            lemma_group_extent(lit, width, height, firsts[k]);
            assert(in_some(blobs[k], clusters));
            let o = choose|o: int| 0 <= o < clusters.len() && inside(blobs[k], #[trigger] clusters[o]);
            if o != i {
                assert(!touching(clusters[o], clusters[i], pad));
                assert(spans(group, b.min_x, b.min_y, b.max_x - 1, b.max_y - 1));
                assert forall|c: Cell| group.contains(c) implies !box_cells(cluster).contains(
                    c,
                ) by {}
            }
        }
    }
    lemma_count_inside(lit, firsts, width, height, cluster);
}

/// Two bounding boxes of the same cells are the same.
proof fn lemma_spans_unique(
    cells: Set<Cell>,
    a: (int, int, int, int),
    b: (int, int, int, int),
)
    requires
        spans(cells, a.0, a.1, a.2, a.3),
        spans(cells, b.0, b.1, b.2, b.3),
    ensures
        a == b,
{
}

/// Marks that mark the same cells and agree behind the frame are the same marks.
proof fn lemma_same_marks(a: Seq<u64>, b: Seq<u64>, width: int, height: int)
    requires
        0 <= width,
        a.len() == b.len(),
        marked_cells(a, width, height) == marked_cells(b, width, height),
        forall|n: int|
            width * height <= n < 64 * a.len() ==> #[trigger] bit_at(a, n) == bit_at(b, n),
    ensures
        a == b,
{
    assert forall|n: int| 0 <= n < 64 * a.len() implies #[trigger] bit_at(a, n) == bit_at(b, n) by {
        if n < width * height {
            assert(0 < width) by (nonlinear_arith)
                requires
                    0 <= n < width * height,
                    0 <= width,
            ;
            lemma_cell_at(n, width, height);
            let c = cell_at(n, width);
            assert(frame_cells(width, height).contains(c) && raster(c, width) == n);
            assert(marked_cells(a, width, height).contains(c) == bit_at(a, n));
            assert(marked_cells(b, width, height).contains(c) == bit_at(b, n));
            assert(marked_cells(a, width, height).contains(c) == marked_cells(
                b,
                width,
                height,
            ).contains(c));
        }
    }
    lemma_same_bits(a, b);
}

/// What a flood fill finds and marks depends on the group, not on where in it the fill starts, as
/// long as no pixel of the group is marked yet.
pub proof fn law_fill_any_start(
    data: Seq<u8>,
    width: int,
    height: int,
    stride: int,
    before: Seq<u64>,
    p: Cell,
    found_p: (usize, usize, usize, usize, u32),
    after_p: Seq<u64>,
    q: Cell,
    found_q: (usize, usize, usize, usize, u32),
    after_q: Seq<u64>,
)
    requires
        ({
            let lit = lit_cells(data, width, height, stride);
            &&& lit.contains(p)
            &&& reach(lit, p).contains(q)
            &&& reach(lit, p).disjoint(marked_cells(before, width, height))
        }),
        fill_outcome(data, width, height, stride, p, before, found_p, after_p),
        fill_outcome(data, width, height, stride, q, before, found_q, after_q),
    ensures
        found_p == found_q,
        after_p == after_q,
{
    let lit = lit_cells(data, width, height, stride);
    let marked = marked_cells(before, width, height);
    lemma_reach_same(lit, p, q);
    lemma_reach_symmetric(lit, p, q);
    lemma_free_group(lit, marked, p);
    lemma_free_group(lit, marked, q);
    lemma_spans_unique(
        reach(lit, p),
        (found_p.0 as int, found_p.1 as int, found_p.2 as int, found_p.3 as int),
        (found_q.0 as int, found_q.1 as int, found_q.2 as int, found_q.3 as int),
    );
    assert forall|n: int| width * height <= n < 64 * after_p.len() implies #[trigger] bit_at(
        after_p,
        n,
    ) == bit_at(after_q, n) by {
        assert(bit_at(after_q, n) == bit_at(before, n));
    }
    lemma_same_marks(after_p, after_q, width, height);
}

/// A search depends on the frame alone, not on what stack and marks held before it: it always
/// gives the same blobs in the same order, and leaves the same marks.
pub proof fn law_search_repeats(
    data: Seq<u8>,
    width: int,
    height: int,
    stride: int,
    first: Seq<Blob>,
    first_marks: Seq<u64>,
    second: Seq<Blob>,
    second_marks: Seq<u64>,
)
    requires
        0 <= width,
        search_outcome(data, width, height, stride, first, first_marks),
        search_outcome(data, width, height, stride, second, second_marks),
    ensures
        first == second,
        first_marks.len() == second_marks.len() ==> first_marks == second_marks,
{
    let views = blob_views(first);
    assert(views.len() == first.len() && blob_views(second).len() == second.len());
    assert forall|i: int| 0 <= i < first.len() implies first[i] == second[i] by {
        assert(views[i] == first[i]@);
        assert(blob_views(second)[i] == second[i]@);
    }
    assert(first =~= second);
    if first_marks.len() == second_marks.len() {
        assert forall|n: int| width * height <= n < 64 * first_marks.len() implies #[trigger] bit_at(
            first_marks,
            n,
        ) == bit_at(second_marks, n) by {
            assert(!bit_at(second_marks, n));
        }
        lemma_same_marks(first_marks, second_marks, width, height);
    }
}

/// Unless a search stopped early it leaves exactly the foreground pixels marked.
pub proof fn law_search_marks(
    data: Seq<u8>,
    width: int,
    height: int,
    stride: int,
    blobs: Seq<Blob>,
    marks: Seq<u64>,
)
    requires
        0 <= width,
        0 <= height,
        search_outcome(data, width, height, stride, blobs, marks),
        blobs.len() <= MAX_RAW_BLOBS,
    ensures
        marked_cells(marks, width, height) == lit_cells(data, width, height, stride),
        forall|n: int| width * height <= n < 64 * marks.len() ==> !#[trigger] bit_at(marks, n),
{
    let lit = lit_cells(data, width, height, stride);
    let firsts = seeds(lit, width, width * height);
    let all = all_blobs(data, width, height, stride);
    assert(blob_views(blobs).len() == blobs.len());
    assert(all.len() == firsts.len());
    assert(firsts.take(firsts.len() as int) =~= firsts);
    if width > 0 {
        law_groups_cover(lit, width, height);
    } else {
        assert(width * height == 0) by (nonlinear_arith)
            requires
                width == 0,
        ;
        assert(groups_of(lit, firsts) =~= lit);
    }
}

/// A search depends on the foreground alone, wherever the rows start and whatever other values
/// the pixels have.
pub proof fn law_same_foreground(
    data: Seq<u8>,
    stride: int,
    other: Seq<u8>,
    other_stride: int,
    width: int,
    height: int,
)
    requires
        lit_cells(data, width, height, stride) == lit_cells(other, width, height, other_stride),
    ensures
        raw_blobs(data, width, height, stride) == raw_blobs(other, width, height, other_stride),
        found_cells(data, width, height, stride) == found_cells(
            other,
            width,
            height,
            other_stride,
        ),
{
}

} // verus!
