//! What holds of the clusters that are kept: the large ones, ranked by area.
use crate::blobs::BlobView;
use crate::cluster::{clustered, insert_ranked, large_enough, merged, ranked, touching};
use crate::cluster_laws::{each, law_merged_again, law_merged_separated, separated};
use vstd::prelude::*;
use vstd::seq_lib::*;

verus! {

/// The areas never grow along the list.
pub open spec fn descending(clusters: Seq<BlobView>) -> bool {
    forall|i: int, j: int|
        0 <= i < j < clusters.len() ==> (#[trigger] clusters[i]).area >= (
        #[trigger] clusters[j]).area
}

/// The clusters of one area, in their order.
pub open spec fn of_area(clusters: Seq<BlobView>, area: int) -> Seq<BlobView> {
    clusters.filter(|c: BlobView| c.area == area)
}

/// Everything in `some` occurs in `all`.
spec fn drawn_from(some: Seq<BlobView>, all: Seq<BlobView>) -> bool {
    forall|i: int| 0 <= i < some.len() ==> all.contains(#[trigger] some[i])
}

proof fn lemma_insert_drawn(order: Seq<BlobView>, cluster: BlobView)
    ensures
        insert_ranked(order, cluster).len() == order.len() + 1,
        drawn_from(insert_ranked(order, cluster), order.push(cluster)),
    decreases order.len(),
{
    let more = order.push(cluster);
    let next = insert_ranked(order, cluster);
    if order.len() > 0 && order.last().area < cluster.area {
        let fewer = order.drop_last();
        lemma_insert_drawn(fewer, cluster);
        let inner = insert_ranked(fewer, cluster);
        assert forall|i: int| 0 <= i < next.len() implies more.contains(#[trigger] next[i]) by {
            if i < inner.len() {
                assert(fewer.push(cluster).contains(inner[i]));
                let m = choose|m: int|
                    0 <= m < fewer.push(cluster).len() && fewer.push(cluster)[m] == inner[i];
                if m < fewer.len() {
                    assert(more[m] == next[i]);
                } else {
                    assert(more[order.len() as int] == next[i]);
                }
            } else {
                assert(more[order.len() - 1] == next[i]);
            }
        }
    } else {
        assert forall|i: int| 0 <= i < next.len() implies more.contains(#[trigger] next[i]) by {
            assert(more[i] == next[i]);
        }
    }
}

proof fn lemma_insert_descending(order: Seq<BlobView>, cluster: BlobView)
    requires
        descending(order),
    ensures
        descending(insert_ranked(order, cluster)),
    decreases order.len(),
{
    if order.len() > 0 && order.last().area < cluster.area {
        let fewer = order.drop_last();
        lemma_insert_descending(fewer, cluster);
        lemma_insert_drawn(fewer, cluster);
        let inner = insert_ranked(fewer, cluster);
        let next = insert_ranked(order, cluster);
        assert forall|i: int, j: int| 0 <= i < j < next.len() implies (#[trigger] next[i]).area >= (
        #[trigger] next[j]).area by {
            if j < inner.len() {
                assert(inner[i].area >= inner[j].area);
            } else {
                assert(fewer.push(cluster).contains(inner[i]));
                let m = choose|m: int|
                    0 <= m < fewer.push(cluster).len() && fewer.push(cluster)[m] == inner[i];
                if m < fewer.len() {
                    assert(order[m].area >= order[order.len() - 1].area);
                }
            }
        }
    }
}

proof fn lemma_of_area_push(clusters: Seq<BlobView>, cluster: BlobView, area: int)
    ensures
        of_area(clusters.push(cluster), area) == (if cluster.area == area {
            of_area(clusters, area).push(cluster)
        } else {
            of_area(clusters, area)
        }),
{
    reveal(Seq::filter);
    assert(clusters.push(cluster).drop_last() =~= clusters);
}

proof fn lemma_insert_of_area(order: Seq<BlobView>, cluster: BlobView, area: int)
    ensures
        of_area(insert_ranked(order, cluster), area) == of_area(order.push(cluster), area),
    decreases order.len(),
{
    if order.len() > 0 && order.last().area < cluster.area {
        let fewer = order.drop_last();
        lemma_insert_of_area(fewer, cluster, area);
        lemma_of_area_push(insert_ranked(fewer, cluster), order.last(), area);
        lemma_of_area_push(fewer, cluster, area);
        lemma_of_area_push(fewer, order.last(), area);
        lemma_of_area_push(order, cluster, area);
        assert(fewer.push(order.last()) =~= order);
    }
}

proof fn lemma_insert_multiset(order: Seq<BlobView>, cluster: BlobView)
    ensures
        insert_ranked(order, cluster).to_multiset() == order.to_multiset().insert(cluster),
    decreases order.len(),
{
    broadcast use group_to_multiset_ensures;

    if order.len() > 0 && order.last().area < cluster.area {
        let fewer = order.drop_last();
        lemma_insert_multiset(fewer, cluster);
        assert(fewer.push(order.last()) =~= order);
        assert(insert_ranked(order, cluster).to_multiset() =~= order.to_multiset().insert(cluster));
    }
}

/// Ranking reorders the clusters from the largest area to the smallest, drops and adds none,
/// and keeps the order of clusters of equal area.
pub proof fn law_ranked(clusters: Seq<BlobView>, area: int)
    ensures
        descending(ranked(clusters)),
        ranked(clusters).to_multiset() == clusters.to_multiset(),
        of_area(ranked(clusters), area) == of_area(clusters, area),
    decreases clusters.len(),
{
    broadcast use group_to_multiset_ensures;

    if clusters.len() > 0 {
        let fewer = clusters.drop_last();
        law_ranked(fewer, area);
        lemma_insert_descending(ranked(fewer), clusters.last());
        lemma_insert_multiset(ranked(fewer), clusters.last());
        lemma_insert_of_area(ranked(fewer), clusters.last(), area);
        lemma_of_area_push(ranked(fewer), clusters.last(), area);
        lemma_of_area_push(fewer, clusters.last(), area);
        assert(fewer.push(clusters.last()) =~= clusters);
    } else {
        assert(ranked(clusters) =~= clusters);
    }
}

proof fn lemma_large_len(clusters: Seq<BlobView>, min_area: int)
    ensures
        large_enough(clusters, min_area).len() <= clusters.len(),
    decreases clusters.len(),
{
    reveal(Seq::filter);
    if clusters.len() > 0 {
        lemma_large_len(clusters.drop_last(), min_area);
    }
}

proof fn lemma_large_members(clusters: Seq<BlobView>, min_area: int, c: BlobView)
    ensures
        large_enough(clusters, min_area).contains(c) <==> clusters.contains(c) && c.area >= min_area,
    decreases clusters.len(),
{
    reveal(Seq::filter);
    if clusters.len() > 0 {
        let fewer = clusters.drop_last();
        lemma_large_members(fewer, min_area, c);
        let kept = large_enough(fewer, min_area);
        let all = large_enough(clusters, min_area);
        assert(fewer.push(clusters.last()) =~= clusters);
        if clusters.contains(c) {
            let m = choose|m: int| 0 <= m < clusters.len() && clusters[m] == c;
            if m < fewer.len() {
                assert(fewer[m] == c);
            }
        }
        if fewer.contains(c) {
            let m = choose|m: int| 0 <= m < fewer.len() && fewer[m] == c;
            assert(clusters[m] == c);
        }
        if all.contains(c) {
            let m = choose|m: int| 0 <= m < all.len() && all[m] == c;
            if m < kept.len() {
                assert(kept[m] == c);
            } else {
                assert(clusters[clusters.len() - 1] == c);
            }
        }
        if kept.contains(c) {
            let m = choose|m: int| 0 <= m < kept.len() && kept[m] == c;
            assert(all[m] == c);
        }
        if clusters.last().area >= min_area {
            assert(all[kept.len() as int] == clusters.last());
        }
    }
}

/// Clustering keeps exactly the merged clusters of at least `min_area` pixels, each as often as
/// it occurs, from the largest to the smallest.
pub proof fn law_clustered(blobs: Seq<BlobView>, pad: int, min_area: int)
    ensures
        descending(clustered(blobs, pad, min_area)),
        clustered(blobs, pad, min_area).to_multiset() == large_enough(
            merged(blobs, pad),
            min_area,
        ).to_multiset(),
        forall|c: BlobView| #[trigger]
            clustered(blobs, pad, min_area).contains(c) <==> merged(blobs, pad).contains(c)
                && c.area >= min_area,
        clustered(blobs, pad, min_area).len() <= merged(blobs, pad).len(),
{
    broadcast use group_to_multiset_ensures;

    let all = merged(blobs, pad);
    let kept = large_enough(all, min_area);
    let order = ranked(kept);
    law_ranked(kept, 0);
    assert forall|c: BlobView| #[trigger] order.contains(c) <==> all.contains(c) && c.area
        >= min_area by {
        assert(order.to_multiset().count(c) == kept.to_multiset().count(c));
        lemma_large_members(all, min_area, c);
    }
    lemma_large_len(all, min_area);
    assert(order.len() == order.to_multiset().len());
    assert(kept.len() == kept.to_multiset().len());
}

/// What holds of every merged cluster holds of every cluster that is kept.
pub proof fn lemma_clustered_keeps(
    blobs: Seq<BlobView>,
    pad: int,
    min_area: int,
    keeps: spec_fn(BlobView) -> bool,
)
    requires
        each(merged(blobs, pad), keeps),
    ensures
        each(clustered(blobs, pad, min_area), keeps),
{
    let all = merged(blobs, pad);
    let order = clustered(blobs, pad, min_area);
    law_clustered(blobs, pad, min_area);
    assert forall|i: int| 0 <= i < order.len() implies keeps(#[trigger] order[i]) by {
        assert(order.contains(order[i]));
        let m = choose|m: int| 0 <= m < all.len() && all[m] == order[i];
        assert(keeps(all[m]));
    }
}

proof fn lemma_separated_push(clusters: Seq<BlobView>, cluster: BlobView, pad: int)
    requires
        separated(clusters, pad),
        forall|i: int| 0 <= i < clusters.len() ==> !touching(#[trigger] clusters[i], cluster, pad),
    ensures
        separated(clusters.push(cluster), pad),
{
}

proof fn lemma_insert_separated(order: Seq<BlobView>, cluster: BlobView, pad: int)
    requires
        separated(order.push(cluster), pad),
    ensures
        separated(insert_ranked(order, cluster), pad),
    decreases order.len(),
{
    let more = order.push(cluster);
    if order.len() > 0 && order.last().area < cluster.area {
        let fewer = order.drop_last();
        let with = fewer.push(cluster);
        assert(separated(with, pad)) by {
            assert forall|i: int, j: int|
                0 <= i < with.len() && 0 <= j < with.len() && i != j implies !touching(
                #[trigger] with[i],
                #[trigger] with[j],
                pad,
            ) by {
                let a = if i < fewer.len() { i } else { i + 1 };
                let b = if j < fewer.len() { j } else { j + 1 };
                assert(with[i] == more[a] && with[j] == more[b]);
            }
        }
        lemma_insert_separated(fewer, cluster, pad);
        lemma_insert_drawn(fewer, cluster);
        let inner = insert_ranked(fewer, cluster);
        assert forall|i: int| 0 <= i < inner.len() implies !touching(
            #[trigger] inner[i],
            order.last(),
            pad,
        ) by {
            assert(with.contains(inner[i]));
            let m = choose|m: int| 0 <= m < with.len() && with[m] == inner[i];
            let a = if m < fewer.len() { m } else { m + 1 };
            assert(more[a] == inner[i]);
            assert(more[order.len() - 1] == order.last());
        }
        lemma_separated_push(inner, order.last(), pad);
    }
}

proof fn lemma_ranked_drawn(clusters: Seq<BlobView>)
    ensures
        drawn_from(ranked(clusters), clusters),
{
    broadcast use group_to_multiset_ensures;

    law_ranked(clusters, 0);
    let order = ranked(clusters);
    assert forall|i: int| 0 <= i < order.len() implies clusters.contains(#[trigger] order[i]) by {
        assert(order.contains(order[i]));
        assert(order.to_multiset().count(order[i]) > 0);
    }
}

proof fn lemma_apart_from_last(some: Seq<BlobView>, clusters: Seq<BlobView>, pad: int)
    requires
        clusters.len() > 0,
        separated(clusters, pad),
        drawn_from(some, clusters.drop_last()),
    ensures
        forall|i: int|
            0 <= i < some.len() ==> !touching(#[trigger] some[i], clusters.last(), pad),
{
    let fewer = clusters.drop_last();
    assert forall|i: int| 0 <= i < some.len() implies !touching(
        #[trigger] some[i],
        clusters.last(),
        pad,
    ) by {
        let m = choose|m: int| 0 <= m < fewer.len() && fewer[m] == some[i];
        assert(clusters[m] == some[i]);
        assert(clusters[clusters.len() - 1] == clusters.last());
    }
}

proof fn lemma_ranked_separated(clusters: Seq<BlobView>, pad: int)
    requires
        separated(clusters, pad),
    ensures
        separated(ranked(clusters), pad),
    decreases clusters.len(),
{
    if clusters.len() > 0 {
        let fewer = clusters.drop_last();
        lemma_ranked_separated(fewer, pad);
        lemma_ranked_drawn(fewer);
        lemma_apart_from_last(ranked(fewer), clusters, pad);
        lemma_separated_push(ranked(fewer), clusters.last(), pad);
        lemma_insert_separated(ranked(fewer), clusters.last(), pad);
    }
}

proof fn lemma_large_separated(clusters: Seq<BlobView>, min_area: int, pad: int)
    requires
        separated(clusters, pad),
    ensures
        separated(large_enough(clusters, min_area), pad),
    decreases clusters.len(),
{
    reveal(Seq::filter);
    if clusters.len() > 0 {
        let fewer = clusters.drop_last();
        let kept = large_enough(fewer, min_area);
        lemma_large_separated(fewer, min_area, pad);
        assert(drawn_from(kept, fewer)) by {
            assert forall|i: int| 0 <= i < kept.len() implies fewer.contains(
                #[trigger] kept[i],
            ) by {
                assert(kept.contains(kept[i]));
                lemma_large_members(fewer, min_area, kept[i]);
            }
        }
        lemma_apart_from_last(kept, clusters, pad);
        lemma_separated_push(kept, clusters.last(), pad);
    }
}

/// No two of the clusters that are kept come within `pad` pixels of each other.
pub proof fn law_clustered_separated(blobs: Seq<BlobView>, pad: int, min_area: int)
    ensures
        separated(clustered(blobs, pad, min_area), pad),
{
    law_merged_separated(blobs, pad);
    lemma_large_separated(merged(blobs, pad), min_area, pad);
    lemma_ranked_separated(large_enough(merged(blobs, pad), min_area), pad);
}

proof fn lemma_large_push(clusters: Seq<BlobView>, cluster: BlobView, min_area: int)
    ensures
        large_enough(clusters.push(cluster), min_area) == (if cluster.area >= min_area {
            large_enough(clusters, min_area).push(cluster)
        } else {
            large_enough(clusters, min_area)
        }),
{
    reveal(Seq::filter);
    assert(clusters.push(cluster).drop_last() =~= clusters);
}

proof fn lemma_insert_large(order: Seq<BlobView>, cluster: BlobView, min_area: int)
    ensures
        large_enough(insert_ranked(order, cluster), min_area) == (if cluster.area >= min_area {
            insert_ranked(large_enough(order, min_area), cluster)
        } else {
            large_enough(order, min_area)
        }),
    decreases order.len(),
{
    if order.len() > 0 {
        let fewer = order.drop_last();
        let last = order.last();
        assert(fewer.push(last) =~= order);
        lemma_large_push(fewer, last, min_area);
        if last.area < cluster.area {
            lemma_insert_large(fewer, cluster, min_area);
            lemma_large_push(insert_ranked(fewer, cluster), last, min_area);
            if last.area >= min_area {
                let kept = large_enough(fewer, min_area);
                assert(kept.push(last).drop_last() =~= kept);
            }
        } else {
            lemma_large_push(order, cluster, min_area);
        }
    } else {
        reveal(Seq::filter);
        assert(large_enough(order, min_area) =~= order);
        lemma_large_push(order, cluster, min_area);
    }
}

/// Ranking and dropping small clusters can be done in either order.
proof fn lemma_ranked_large(clusters: Seq<BlobView>, min_area: int)
    ensures
        large_enough(ranked(clusters), min_area) == ranked(large_enough(clusters, min_area)),
    decreases clusters.len(),
{
    if clusters.len() > 0 {
        let fewer = clusters.drop_last();
        let last = clusters.last();
        assert(fewer.push(last) =~= clusters);
        lemma_ranked_large(fewer, min_area);
        lemma_insert_large(ranked(fewer), last, min_area);
        lemma_large_push(fewer, last, min_area);
        if last.area >= min_area {
            let kept = large_enough(fewer, min_area);
            assert(kept.push(last).drop_last() =~= kept);
        }
    } else {
        reveal(Seq::filter);
        assert(large_enough(clusters, min_area) =~= clusters);
        assert(large_enough(ranked(clusters), min_area) =~= ranked(clusters));
    }
}

proof fn lemma_large_twice(clusters: Seq<BlobView>, low: int, high: int)
    requires
        low <= high,
    ensures
        large_enough(large_enough(clusters, low), high) == large_enough(clusters, high),
    decreases clusters.len(),
{
    if clusters.len() > 0 {
        let fewer = clusters.drop_last();
        let last = clusters.last();
        assert(fewer.push(last) =~= clusters);
        lemma_large_twice(fewer, low, high);
        lemma_large_push(fewer, last, low);
        lemma_large_push(fewer, last, high);
        lemma_large_push(large_enough(fewer, low), last, high);
    } else {
        reveal(Seq::filter);
        assert(large_enough(clusters, low) =~= clusters);
    }
}

/// A higher limit on the area drops clusters and changes nothing else.
pub proof fn law_clustered_limit(blobs: Seq<BlobView>, pad: int, low: int, high: int)
    requires
        low <= high,
    ensures
        clustered(blobs, pad, high) == large_enough(clustered(blobs, pad, low), high),
{
    let all = merged(blobs, pad);
    lemma_ranked_large(large_enough(all, low), high);
    lemma_large_twice(all, low, high);
}

proof fn lemma_large_all(clusters: Seq<BlobView>, min_area: int)
    requires
        forall|i: int| 0 <= i < clusters.len() ==> (#[trigger] clusters[i]).area >= min_area,
    ensures
        large_enough(clusters, min_area) == clusters,
    decreases clusters.len(),
{
    if clusters.len() > 0 {
        let fewer = clusters.drop_last();
        assert forall|i: int| 0 <= i < fewer.len() implies (#[trigger] fewer[i]).area
            >= min_area by {
            assert(clusters[i].area >= min_area);
        }
        lemma_large_all(fewer, min_area);
        lemma_large_push(fewer, clusters.last(), min_area);
        assert(clusters[clusters.len() - 1].area >= min_area);
        assert(fewer.push(clusters.last()) =~= clusters);
    } else {
        reveal(Seq::filter);
        assert(large_enough(clusters, min_area) =~= clusters);
    }
}

proof fn lemma_ranked_descending(clusters: Seq<BlobView>)
    requires
        descending(clusters),
    ensures
        ranked(clusters) == clusters,
    decreases clusters.len(),
{
    if clusters.len() > 0 {
        let fewer = clusters.drop_last();
        lemma_ranked_descending(fewer);
        if fewer.len() > 0 {
            assert(clusters[fewer.len() - 1].area >= clusters[clusters.len() - 1].area);
        }
        assert(fewer.push(clusters.last()) =~= clusters);
    } else {
        assert(ranked(clusters) =~= clusters);
    }
}

/// Clustering the clusters a second time changes nothing.
pub proof fn law_clustered_again(blobs: Seq<BlobView>, pad: int, min_area: int)
    ensures
        clustered(clustered(blobs, pad, min_area), pad, min_area) == clustered(
            blobs,
            pad,
            min_area,
        ),
{
    let once = clustered(blobs, pad, min_area);
    law_clustered_separated(blobs, pad, min_area);
    law_merged_again(blobs, once, pad);
    law_clustered(blobs, pad, min_area);
    assert forall|i: int| 0 <= i < once.len() implies (#[trigger] once[i]).area >= min_area by {
        assert(once.contains(once[i]));
    }
    lemma_large_all(once, min_area);
    lemma_ranked_descending(once);
}

} // verus!
