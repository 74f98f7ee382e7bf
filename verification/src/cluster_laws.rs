//! What holds of clustering as a whole.
use crate::blobs::BlobView;
use crate::cluster::{
    absorb, first_touching, gather, hull, join, lemma_first_touching, lemma_join,
    lemma_sweep_row_len, merged, settle, sweep, sweep_row, touching,
};
use vstd::prelude::*;

verus! {

/// No two of the boxes come within `pad` pixels of each other.
pub open spec fn separated(clusters: Seq<BlobView>, pad: int) -> bool {
    forall|i: int, j: int|
        0 <= i < clusters.len() && 0 <= j < clusters.len() && i != j ==> !touching(
            #[trigger] clusters[i],
            #[trigger] clusters[j],
            pad,
        )
}

/// Box `a` lies within box `b`.
pub open spec fn inside(a: BlobView, b: BlobView) -> bool {
    &&& b.min_x <= a.min_x
    &&& b.min_y <= a.min_y
    &&& a.max_x <= b.max_x
    &&& a.max_y <= b.max_y
}

/// The box holds at least one pixel.
pub open spec fn proper(blob: BlobView) -> bool {
    blob.min_x < blob.max_x && blob.min_y < blob.max_y
}

pub open spec fn all_proper(blobs: Seq<BlobView>) -> bool {
    forall|i: int| 0 <= i < blobs.len() ==> proper(#[trigger] blobs[i])
}

/// `blob` lies within one of the boxes.
pub open spec fn in_some(blob: BlobView, clusters: Seq<BlobView>) -> bool {
    exists|i: int| 0 <= i < clusters.len() && inside(blob, #[trigger] clusters[i])
}

/// Each of `blobs` lies within one of the boxes.
pub open spec fn covered_by(blobs: Seq<BlobView>, clusters: Seq<BlobView>) -> bool {
    forall|k: int| 0 <= k < blobs.len() ==> #[trigger] in_some(blobs[k], clusters)
}

/// The areas added up.
pub open spec fn total_area(blobs: Seq<BlobView>) -> int
    decreases blobs.len(),
{
    if blobs.len() == 0 {
        0
    } else {
        total_area(blobs.drop_last()) + blobs.last().area
    }
}

proof fn lemma_quiet_row(clusters: Seq<BlobView>, i: int, j: int, pad: int)
    requires
        0 <= i < j,
        sweep_row(clusters, i, j, pad).len() == clusters.len(),
    ensures
        sweep_row(clusters, i, j, pad) == clusters,
        forall|k: int| j <= k < clusters.len() ==> !touching(clusters[i], #[trigger] clusters[k], pad),
    decreases clusters.len() - j,
{
    if j < clusters.len() {
        if touching(clusters[i], clusters[j], pad) {
            lemma_sweep_row_len(join(clusters, i, j), i, j, pad);
            lemma_join(clusters, i, j);
        } else {
            lemma_quiet_row(clusters, i, j + 1, pad);
        }
    }
}

proof fn lemma_sweep_len(clusters: Seq<BlobView>, i: int, pad: int)
    requires
        0 <= i,
    ensures
        sweep(clusters, i, pad).len() <= clusters.len(),
    decreases clusters.len() - i,
{
    if i < clusters.len() {
        lemma_sweep_row_len(clusters, i, i + 1, pad);
        lemma_sweep_len(sweep_row(clusters, i, i + 1, pad), i + 1, pad);
    }
}

proof fn lemma_quiet_sweep(clusters: Seq<BlobView>, i: int, pad: int)
    requires
        0 <= i,
        sweep(clusters, i, pad).len() == clusters.len(),
    ensures
        sweep(clusters, i, pad) == clusters,
        forall|a: int, b: int|
            i <= a < b < clusters.len() ==> !touching(
                #[trigger] clusters[a],
                #[trigger] clusters[b],
                pad,
            ),
    decreases clusters.len() - i,
{
    if i < clusters.len() {
        lemma_sweep_row_len(clusters, i, i + 1, pad);
        lemma_sweep_len(sweep_row(clusters, i, i + 1, pad), i + 1, pad);
        lemma_quiet_row(clusters, i, i + 1, pad);
        lemma_quiet_sweep(clusters, i + 1, pad);
    }
}

proof fn lemma_settle_separated(clusters: Seq<BlobView>, pad: int)
    ensures
        separated(settle(clusters, pad), pad),
    decreases clusters.len(),
{
    let next = sweep(clusters, 0, pad);
    lemma_sweep_len(clusters, 0, pad);
    if next.len() < clusters.len() {
        lemma_settle_separated(next, pad);
    } else {
        lemma_quiet_sweep(clusters, 0, pad);
    }
}

/// After merging, no two clusters come within `pad` pixels of each other.
pub proof fn law_merged_separated(blobs: Seq<BlobView>, pad: int)
    ensures
        separated(merged(blobs, pad), pad),
{
    lemma_settle_separated(gather(blobs, pad), pad);
}

/// How the blobs are shared out: `owner[k]` is the cluster that the `k`-th blob went into.
spec fn shares(blobs: Seq<BlobView>, clusters: Seq<BlobView>, owner: Seq<int>) -> bool {
    &&& owner.len() == blobs.len()
    &&& forall|k: int|
        0 <= k < owner.len() ==> 0 <= #[trigger] owner[k] < clusters.len() && inside(
            blobs[k],
            clusters[owner[k]],
        )
    &&& forall|i: int|
        0 <= i < clusters.len() ==> (#[trigger] clusters[i]).area == owned_area(blobs, owner, i)
}

/// The areas of the blobs that cluster `i` owns.
spec fn owned_area(blobs: Seq<BlobView>, owner: Seq<int>, i: int) -> int
    decreases owner.len(),
{
    if owner.len() == 0 {
        0
    } else {
        owned_area(blobs, owner.drop_last(), i) + if owner.last() == i {
            blobs[owner.len() - 1].area
        } else {
            0
        }
    }
}

proof fn lemma_owned_prefix(blobs: Seq<BlobView>, more: Seq<BlobView>, owner: Seq<int>, i: int)
    requires
        owner.len() <= blobs.len() <= more.len(),
        forall|k: int| 0 <= k < blobs.len() ==> more[k] == #[trigger] blobs[k],
    ensures
        owned_area(more, owner, i) == owned_area(blobs, owner, i),
    decreases owner.len(),
{
    if owner.len() > 0 {
        lemma_owned_prefix(blobs, more, owner.drop_last(), i);
        assert(more[owner.len() - 1] == blobs[owner.len() - 1]);
    }
}

/// Nobody owns what lies beyond the clusters.
proof fn lemma_owned_none(blobs: Seq<BlobView>, owner: Seq<int>, i: int)
    requires
        forall|k: int| 0 <= k < owner.len() ==> #[trigger] owner[k] != i,
    ensures
        owned_area(blobs, owner, i) == 0,
    decreases owner.len(),
{
    if owner.len() > 0 {
        lemma_owned_none(blobs, owner.drop_last(), i);
        assert(owner[owner.len() - 1] != i);
    }
}

proof fn lemma_absorb_shares(
    blobs: Seq<BlobView>,
    clusters: Seq<BlobView>,
    owner: Seq<int>,
    blob: BlobView,
    pad: int,
) -> (next_owner: Seq<int>)
    requires
        shares(blobs, clusters, owner),
    ensures
        shares(blobs.push(blob), absorb(clusters, blob, pad), next_owner),
{
    lemma_first_touching(clusters, blob, pad, 0);
    let at = first_touching(clusters, blob, pad, 0);
    let next = absorb(clusters, blob, pad);
    let next_owner = owner.push(at);
    let more = blobs.push(blob);
    assert forall|k: int| 0 <= k < next_owner.len() implies 0 <= #[trigger] next_owner[k]
        < next.len() && inside(more[k], next[next_owner[k]]) by {
        if k < owner.len() {
            assert(next_owner[k] == owner[k]);
        }
    }
    assert forall|i: int| 0 <= i < next.len() implies (#[trigger] next[i]).area == owned_area(
        more,
        next_owner,
        i,
    ) by {
        assert(next_owner.drop_last() =~= owner);
        lemma_owned_prefix(blobs, more, owner, i);
        if i < clusters.len() {
            assert(clusters[i].area == owned_area(blobs, owner, i));
        } else {
            lemma_owned_none(blobs, owner, i);
        }
    }
    next_owner
}

proof fn lemma_gather_shares(blobs: Seq<BlobView>, pad: int) -> (owner: Seq<int>)
    ensures
        shares(blobs, gather(blobs, pad), owner),
    decreases blobs.len(),
{
    if blobs.len() == 0 {
        Seq::empty()
    } else {
        let owner = lemma_gather_shares(blobs.drop_last(), pad);
        assert(blobs.drop_last().push(blobs.last()) =~= blobs);
        lemma_absorb_shares(
            blobs.drop_last(),
            gather(blobs.drop_last(), pad),
            owner,
            blobs.last(),
            pad,
        )
    }
}

/// Who owns a blob after cluster `j` went into cluster `i` and the last one took its place.
spec fn reassigned(owner: Seq<int>, i: int, j: int, last: int) -> Seq<int> {
    owner.map_values(
        |o: int|
            if o == j {
                i
            } else if o == last {
                j
            } else {
                o
            },
    )
}

proof fn lemma_reassigned_area(blobs: Seq<BlobView>, owner: Seq<int>, i: int, j: int, last: int, at: int)
    requires
        0 <= i < j <= last,
        0 <= at < last,
        forall|k: int| 0 <= k < owner.len() ==> 0 <= #[trigger] owner[k] <= last,
    ensures
        owned_area(blobs, reassigned(owner, i, j, last), at) == (if at == i {
            owned_area(blobs, owner, i) + owned_area(blobs, owner, j)
        } else if at == j {
            owned_area(blobs, owner, last)
        } else {
            owned_area(blobs, owner, at)
        }),
    decreases owner.len(),
{
    if owner.len() > 0 {
        lemma_reassigned_area(blobs, owner.drop_last(), i, j, last, at);
        assert(reassigned(owner, i, j, last).drop_last() =~= reassigned(
            owner.drop_last(),
            i,
            j,
            last,
        ));
        assert(0 <= owner[owner.len() - 1] <= last);
    }
}

proof fn lemma_join_shares(
    blobs: Seq<BlobView>,
    clusters: Seq<BlobView>,
    owner: Seq<int>,
    i: int,
    j: int,
) -> (next_owner: Seq<int>)
    requires
        shares(blobs, clusters, owner),
        0 <= i < j < clusters.len(),
    ensures
        shares(blobs, join(clusters, i, j), next_owner),
{
    lemma_join(clusters, i, j);
    let last = clusters.len() - 1;
    let next = join(clusters, i, j);
    let next_owner = reassigned(owner, i, j, last);
    assert forall|k: int| 0 <= k < next_owner.len() implies 0 <= #[trigger] next_owner[k]
        < next.len() && inside(blobs[k], next[next_owner[k]]) by {
        assert(0 <= owner[k] < clusters.len());
        if owner[k] != i && owner[k] != j && owner[k] != last {
            assert(next[owner[k]] == clusters[owner[k]]);
        }
    }
    assert forall|at: int| 0 <= at < next.len() implies (#[trigger] next[at]).area == owned_area(
        blobs,
        next_owner,
        at,
    ) by {
        lemma_reassigned_area(blobs, owner, i, j, last, at);
        assert(clusters[i].area == owned_area(blobs, owner, i));
        assert(clusters[j].area == owned_area(blobs, owner, j));
        assert(clusters[last].area == owned_area(blobs, owner, last));
        assert(clusters[at].area == owned_area(blobs, owner, at));
    }
    next_owner
}

proof fn lemma_sweep_row_shares(
    blobs: Seq<BlobView>,
    clusters: Seq<BlobView>,
    owner: Seq<int>,
    i: int,
    j: int,
    pad: int,
) -> (next_owner: Seq<int>)
    requires
        shares(blobs, clusters, owner),
    ensures
        shares(blobs, sweep_row(clusters, i, j, pad), next_owner),
    decreases clusters.len() - j,
{
    if 0 <= i < j < clusters.len() {
        if touching(clusters[i], clusters[j], pad) {
            let next = lemma_join_shares(blobs, clusters, owner, i, j);
            lemma_join(clusters, i, j);
            lemma_sweep_row_shares(blobs, join(clusters, i, j), next, i, j, pad)
        } else {
            lemma_sweep_row_shares(blobs, clusters, owner, i, j + 1, pad)
        }
    } else {
        owner
    }
}

proof fn lemma_sweep_shares(
    blobs: Seq<BlobView>,
    clusters: Seq<BlobView>,
    owner: Seq<int>,
    i: int,
    pad: int,
) -> (next_owner: Seq<int>)
    requires
        shares(blobs, clusters, owner),
    ensures
        shares(blobs, sweep(clusters, i, pad), next_owner),
    decreases clusters.len() - i,
{
    if 0 <= i < clusters.len() {
        lemma_sweep_row_len(clusters, i, i + 1, pad);
        let next = lemma_sweep_row_shares(blobs, clusters, owner, i, i + 1, pad);
        lemma_sweep_shares(blobs, sweep_row(clusters, i, i + 1, pad), next, i + 1, pad)
    } else {
        owner
    }
}

proof fn lemma_settle_shares(
    blobs: Seq<BlobView>,
    clusters: Seq<BlobView>,
    owner: Seq<int>,
    pad: int,
) -> (next_owner: Seq<int>)
    requires
        shares(blobs, clusters, owner),
    ensures
        shares(blobs, settle(clusters, pad), next_owner),
    decreases clusters.len(),
{
    let next = sweep(clusters, 0, pad);
    let next_owner = lemma_sweep_shares(blobs, clusters, owner, 0, pad);
    if next.len() < clusters.len() {
        lemma_settle_shares(blobs, next, next_owner, pad)
    } else {
        next_owner
    }
}

/// Every blob lies within one of the clusters.
pub proof fn law_merged_covers(blobs: Seq<BlobView>, pad: int)
    ensures
        covered_by(blobs, merged(blobs, pad)),
{
    let clusters = merged(blobs, pad);
    let gathered = lemma_gather_shares(blobs, pad);
    let owner = lemma_settle_shares(blobs, gather(blobs, pad), gathered, pad);
    assert forall|k: int| 0 <= k < blobs.len() implies in_some(#[trigger] blobs[k], clusters) by {
        assert(0 <= owner[k] < clusters.len());
        assert(inside(blobs[k], clusters[owner[k]]));
    }
}

/// The areas of the blobs that lie within `cluster`.
pub open spec fn area_inside(blobs: Seq<BlobView>, cluster: BlobView) -> int
    decreases blobs.len(),
{
    if blobs.len() == 0 {
        0
    } else {
        area_inside(blobs.drop_last(), cluster) + if inside(blobs.last(), cluster) {
            blobs.last().area
        } else {
            0
        }
    }
}

proof fn lemma_owned_is_inside(
    blobs: Seq<BlobView>,
    clusters: Seq<BlobView>,
    owner: Seq<int>,
    i: int,
    pad: int,
    n: int,
)
    requires
        0 <= pad,
        all_proper(blobs),
        owner.len() == blobs.len(),
        forall|k: int|
            0 <= k < owner.len() ==> 0 <= #[trigger] owner[k] < clusters.len() && inside(
                blobs[k],
                clusters[owner[k]],
            ),
        separated(clusters, pad),
        0 <= i < clusters.len(),
        0 <= n <= blobs.len(),
    ensures
        owned_area(blobs, owner.take(n), i) == area_inside(blobs.take(n), clusters[i]),
    decreases n,
{
    if n > 0 {
        lemma_owned_is_inside(blobs, clusters, owner, i, pad, n - 1);
        assert(owner.take(n).drop_last() =~= owner.take(n - 1));
        assert(blobs.take(n).drop_last() =~= blobs.take(n - 1));
        let o = owner[n - 1];
        let blob = blobs[n - 1];
        assert(proper(blob));
        assert(inside(blob, clusters[o]));
        if inside(blob, clusters[i]) && o != i {
            assert(touching(clusters[i], clusters[o], pad));
        }
    }
}

/// The area of a cluster is that of all the blobs that lie within its box.
pub proof fn law_merged_areas(blobs: Seq<BlobView>, pad: int)
    requires
        0 <= pad,
        all_proper(blobs),
    ensures
        forall|i: int|
            0 <= i < merged(blobs, pad).len() ==> (#[trigger] merged(blobs, pad)[i]).area
                == area_inside(blobs, merged(blobs, pad)[i]),
{
    let clusters = merged(blobs, pad);
    let gathered = lemma_gather_shares(blobs, pad);
    let owner = lemma_settle_shares(blobs, gather(blobs, pad), gathered, pad);
    law_merged_separated(blobs, pad);
    assert forall|i: int| 0 <= i < clusters.len() implies (#[trigger] clusters[i]).area
        == area_inside(blobs, clusters[i]) by {
        lemma_owned_is_inside(blobs, clusters, owner, i, pad, blobs.len() as int);
        assert(owner.take(blobs.len() as int) =~= owner);
        assert(blobs.take(blobs.len() as int) =~= blobs);
    }
}

/// What holds of each of the blobs.
pub open spec fn each(blobs: Seq<BlobView>, keeps: spec_fn(BlobView) -> bool) -> bool {
    forall|i: int| 0 <= i < blobs.len() ==> keeps(#[trigger] blobs[i])
}

/// Merging two blobs that touch keeps the property.
pub open spec fn kept_by_merging(keeps: spec_fn(BlobView) -> bool, pad: int) -> bool {
    forall|a: BlobView, b: BlobView|
        keeps(a) && keeps(b) && touching(a, b, pad) ==> keeps(#[trigger] hull(a, b))
}

proof fn lemma_sweep_row_keeps(
    clusters: Seq<BlobView>,
    i: int,
    j: int,
    pad: int,
    keeps: spec_fn(BlobView) -> bool,
)
    requires
        each(clusters, keeps),
        kept_by_merging(keeps, pad),
    ensures
        each(sweep_row(clusters, i, j, pad), keeps),
    decreases clusters.len() - j,
{
    if 0 <= i < j < clusters.len() {
        if touching(clusters[i], clusters[j], pad) {
            lemma_join(clusters, i, j);
            let next = join(clusters, i, j);
            assert forall|k: int| 0 <= k < next.len() implies keeps(#[trigger] next[k]) by {
                assert(keeps(clusters[i]) && keeps(clusters[j]) && keeps(clusters[k]) && keeps(
                    clusters[clusters.len() - 1],
                ));
            }
            lemma_sweep_row_keeps(next, i, j, pad, keeps);
        } else {
            lemma_sweep_row_keeps(clusters, i, j + 1, pad, keeps);
        }
    }
}

proof fn lemma_sweep_keeps(
    clusters: Seq<BlobView>,
    i: int,
    pad: int,
    keeps: spec_fn(BlobView) -> bool,
)
    requires
        each(clusters, keeps),
        kept_by_merging(keeps, pad),
    ensures
        each(sweep(clusters, i, pad), keeps),
    decreases clusters.len() - i,
{
    if 0 <= i < clusters.len() {
        lemma_sweep_row_len(clusters, i, i + 1, pad);
        lemma_sweep_row_keeps(clusters, i, i + 1, pad, keeps);
        lemma_sweep_keeps(sweep_row(clusters, i, i + 1, pad), i + 1, pad, keeps);
    }
}

proof fn lemma_settle_keeps(clusters: Seq<BlobView>, pad: int, keeps: spec_fn(BlobView) -> bool)
    requires
        each(clusters, keeps),
        kept_by_merging(keeps, pad),
    ensures
        each(settle(clusters, pad), keeps),
    decreases clusters.len(),
{
    lemma_sweep_keeps(clusters, 0, pad, keeps);
    let next = sweep(clusters, 0, pad);
    if next.len() < clusters.len() {
        lemma_settle_keeps(next, pad, keeps);
    }
}

proof fn lemma_gather_keeps(blobs: Seq<BlobView>, pad: int, keeps: spec_fn(BlobView) -> bool)
    requires
        each(blobs, keeps),
        kept_by_merging(keeps, pad),
    ensures
        each(gather(blobs, pad), keeps),
        gather(blobs, pad).len() <= blobs.len(),
    decreases blobs.len(),
{
    if blobs.len() > 0 {
        lemma_gather_keeps(blobs.drop_last(), pad, keeps);
        let before = gather(blobs.drop_last(), pad);
        let next = gather(blobs, pad);
        lemma_first_touching(before, blobs.last(), pad, 0);
        assert forall|k: int| 0 <= k < next.len() implies keeps(#[trigger] next[k]) by {
            assert(keeps(blobs[blobs.len() - 1]));
            if k < before.len() {
                assert(keeps(before[k]));
            }
        }
    }
}

proof fn lemma_settle_len(clusters: Seq<BlobView>, pad: int)
    ensures
        settle(clusters, pad).len() <= clusters.len(),
    decreases clusters.len(),
{
    lemma_sweep_len(clusters, 0, pad);
    let next = sweep(clusters, 0, pad);
    if next.len() < clusters.len() {
        lemma_settle_len(next, pad);
    }
}

/// There are no more clusters than blobs.
pub proof fn lemma_merged_len(blobs: Seq<BlobView>, pad: int)
    ensures
        merged(blobs, pad).len() <= blobs.len(),
{
    let keeps = |b: BlobView| true;
    lemma_gather_keeps(blobs, pad, keeps);
    lemma_settle_len(gather(blobs, pad), pad);
}

/// A property of the blobs that merging keeps is one of the clusters.
pub proof fn lemma_merged_keeps(blobs: Seq<BlobView>, pad: int, keeps: spec_fn(BlobView) -> bool)
    requires
        each(blobs, keeps),
        kept_by_merging(keeps, pad),
    ensures
        each(merged(blobs, pad), keeps),
{
    lemma_gather_keeps(blobs, pad, keeps);
    lemma_settle_keeps(gather(blobs, pad), pad, keeps);
}

/// The clusters are the tightest way to keep the blobs apart: whatever boxes that do not come
/// within `pad` pixels of each other hold all the blobs, each cluster lies within one of them.
pub proof fn law_merged_least(blobs: Seq<BlobView>, pad: int, boxes: Seq<BlobView>)
    requires
        separated(boxes, pad),
        covered_by(blobs, boxes),
    ensures
        covered_by(merged(blobs, pad), boxes),
{
    let keeps = |b: BlobView| in_some(b, boxes);
    assert forall|a: BlobView, b: BlobView|
        keeps(a) && keeps(b) && touching(a, b, pad) implies keeps(#[trigger] hull(a, b)) by {
        let i = choose|i: int| 0 <= i < boxes.len() && inside(a, #[trigger] boxes[i]);
        let j = choose|j: int| 0 <= j < boxes.len() && inside(b, #[trigger] boxes[j]);
        assert(touching(boxes[i], boxes[j], pad));
        assert(i == j);
        assert(inside(hull(a, b), boxes[i]));
    }
    assert(each(blobs, keeps));
    lemma_merged_keeps(blobs, pad, keeps);
    let clusters = merged(blobs, pad);
    assert forall|k: int| 0 <= k < clusters.len() implies in_some(#[trigger] clusters[k], boxes) by {
        assert(keeps(clusters[k]));
    }
}

/// Clusters of boxes with pixels have pixels.
pub proof fn lemma_merged_proper(blobs: Seq<BlobView>, pad: int)
    requires
        all_proper(blobs),
    ensures
        all_proper(merged(blobs, pad)),
{
    let keeps = |b: BlobView| proper(b);
    assert(each(blobs, keeps));
    lemma_merged_keeps(blobs, pad, keeps);
    let clusters = merged(blobs, pad);
    assert forall|k: int| 0 <= k < clusters.len() implies proper(#[trigger] clusters[k]) by {
        assert(keeps(clusters[k]));
    }
}

proof fn lemma_total_update(blobs: Seq<BlobView>, i: int, blob: BlobView)
    requires
        0 <= i < blobs.len(),
    ensures
        total_area(blobs.update(i, blob)) == total_area(blobs) - blobs[i].area + blob.area,
    decreases blobs.len(),
{
    if i == blobs.len() - 1 {
        assert(blobs.update(i, blob).drop_last() =~= blobs.drop_last());
    } else {
        lemma_total_update(blobs.drop_last(), i, blob);
        assert(blobs.update(i, blob).drop_last() =~= blobs.drop_last().update(i, blob));
    }
}

proof fn lemma_total_join(clusters: Seq<BlobView>, i: int, j: int)
    requires
        0 <= i < j < clusters.len(),
    ensures
        total_area(join(clusters, i, j)) == total_area(clusters),
{
    lemma_total_update(clusters, j, clusters.last());
    let moved = clusters.update(j, clusters.last());
    assert(moved.last() == clusters.last());
    lemma_total_update(moved.drop_last(), i, hull(clusters[i], clusters[j]));
}

proof fn lemma_total_sweep_row(clusters: Seq<BlobView>, i: int, j: int, pad: int)
    ensures
        total_area(sweep_row(clusters, i, j, pad)) == total_area(clusters),
    decreases clusters.len() - j,
{
    if 0 <= i < j < clusters.len() {
        if touching(clusters[i], clusters[j], pad) {
            lemma_join(clusters, i, j);
            lemma_total_join(clusters, i, j);
            lemma_total_sweep_row(join(clusters, i, j), i, j, pad);
        } else {
            lemma_total_sweep_row(clusters, i, j + 1, pad);
        }
    }
}

proof fn lemma_total_sweep(clusters: Seq<BlobView>, i: int, pad: int)
    ensures
        total_area(sweep(clusters, i, pad)) == total_area(clusters),
    decreases clusters.len() - i,
{
    if 0 <= i < clusters.len() {
        lemma_sweep_row_len(clusters, i, i + 1, pad);
        lemma_total_sweep_row(clusters, i, i + 1, pad);
        lemma_total_sweep(sweep_row(clusters, i, i + 1, pad), i + 1, pad);
    }
}

proof fn lemma_total_settle(clusters: Seq<BlobView>, pad: int)
    ensures
        total_area(settle(clusters, pad)) == total_area(clusters),
    decreases clusters.len(),
{
    lemma_total_sweep(clusters, 0, pad);
    let next = sweep(clusters, 0, pad);
    if next.len() < clusters.len() {
        lemma_total_settle(next, pad);
    }
}

proof fn lemma_total_gather(blobs: Seq<BlobView>, pad: int)
    ensures
        total_area(gather(blobs, pad)) == total_area(blobs),
    decreases blobs.len(),
{
    if blobs.len() > 0 {
        lemma_total_gather(blobs.drop_last(), pad);
        let before = gather(blobs.drop_last(), pad);
        lemma_first_touching(before, blobs.last(), pad, 0);
        let at = first_touching(before, blobs.last(), pad, 0);
        if at < before.len() {
            lemma_total_update(before, at, hull(before[at], blobs.last()));
        } else {
            assert(before.push(blobs.last()).drop_last() =~= before);
        }
    }
}

/// Merging loses no area and makes none up.
pub proof fn law_merged_total(blobs: Seq<BlobView>, pad: int)
    ensures
        total_area(merged(blobs, pad)) == total_area(blobs),
{
    lemma_total_gather(blobs, pad);
    lemma_total_settle(gather(blobs, pad), pad);
}

/// Touching goes both ways, and boxes that touch still do with more padding.
pub proof fn law_touching(a: BlobView, b: BlobView, pad: int, more: int)
    requires
        pad <= more,
    ensures
        touching(a, b, pad) == touching(b, a, pad),
        touching(a, b, pad) ==> touching(a, b, more),
{
}

/// In which order boxes are merged does not matter, and what is merged lies within the result.
pub proof fn law_hull(a: BlobView, b: BlobView, c: BlobView)
    ensures
        hull(a, b) == hull(b, a),
        hull(hull(a, b), c) == hull(a, hull(b, c)),
        inside(a, hull(a, b)),
        inside(b, hull(a, b)),
{
}

/// With more padding each cluster lies within a cluster.
pub proof fn law_merged_padding(blobs: Seq<BlobView>, pad: int, more: int)
    requires
        pad <= more,
    ensures
        covered_by(merged(blobs, pad), merged(blobs, more)),
{
    let boxes = merged(blobs, more);
    law_merged_separated(blobs, more);
    law_merged_covers(blobs, more);
    assert(separated(boxes, pad)) by {
        assert forall|i: int, j: int|
            0 <= i < boxes.len() && 0 <= j < boxes.len() && i != j implies !touching(
            #[trigger] boxes[i],
            #[trigger] boxes[j],
            pad,
        ) by {
            assert(!touching(boxes[i], boxes[j], more));
        }
    }
    law_merged_least(blobs, pad, boxes);
}

proof fn lemma_gather_separated(clusters: Seq<BlobView>, pad: int)
    requires
        separated(clusters, pad),
    ensures
        gather(clusters, pad) == clusters,
    decreases clusters.len(),
{
    if clusters.len() > 0 {
        let fewer = clusters.drop_last();
        lemma_gather_separated(fewer, pad);
        lemma_first_touching(fewer, clusters.last(), pad, 0);
        let at = first_touching(fewer, clusters.last(), pad, 0);
        if at < fewer.len() {
            assert(!touching(clusters[at], clusters[clusters.len() - 1], pad));
        }
        assert(fewer.push(clusters.last()) =~= clusters);
    } else {
        assert(gather(clusters, pad) =~= clusters);
    }
}

proof fn lemma_sweep_row_separated(clusters: Seq<BlobView>, i: int, j: int, pad: int)
    requires
        separated(clusters, pad),
    ensures
        sweep_row(clusters, i, j, pad) == clusters,
    decreases clusters.len() - j,
{
    if 0 <= i < j < clusters.len() {
        assert(!touching(clusters[i], clusters[j], pad));
        lemma_sweep_row_separated(clusters, i, j + 1, pad);
    }
}

proof fn lemma_sweep_separated(clusters: Seq<BlobView>, i: int, pad: int)
    requires
        separated(clusters, pad),
    ensures
        sweep(clusters, i, pad) == clusters,
    decreases clusters.len() - i,
{
    if 0 <= i < clusters.len() {
        lemma_sweep_row_separated(clusters, i, i + 1, pad);
        lemma_sweep_separated(clusters, i + 1, pad);
    }
}

/// Boxes that keep their distance are left as they are; so merging a second time changes nothing.
pub proof fn law_merged_again(blobs: Seq<BlobView>, clusters: Seq<BlobView>, pad: int)
    requires
        separated(clusters, pad),
    ensures
        merged(clusters, pad) == clusters,
        merged(merged(blobs, pad), pad) == merged(blobs, pad),
{
    lemma_gather_separated(clusters, pad);
    lemma_sweep_separated(clusters, 0, pad);
    law_merged_separated(blobs, pad);
    let once = merged(blobs, pad);
    lemma_gather_separated(once, pad);
    lemma_sweep_separated(once, 0, pad);
}

} // verus!
