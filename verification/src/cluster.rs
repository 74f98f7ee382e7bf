//! Merging nearby blobs into clusters.
use crate::blobs::{blob_views, Blob, BlobView};
use vstd::prelude::*;

verus! {

/// The boxes come within `pad` pixels of each other, in both directions.
pub open spec fn touching(a: BlobView, b: BlobView, pad: int) -> bool {
    &&& a.min_x <= b.max_x + pad
    &&& b.min_x <= a.max_x + pad
    &&& a.min_y <= b.max_y + pad
    &&& b.min_y <= a.max_y + pad
}

/// The smallest box around both, with the areas added up.
pub open spec fn hull(a: BlobView, b: BlobView) -> BlobView {
    BlobView {
        min_x: if a.min_x <= b.min_x { a.min_x } else { b.min_x },
        min_y: if a.min_y <= b.min_y { a.min_y } else { b.min_y },
        max_x: if a.max_x >= b.max_x { a.max_x } else { b.max_x },
        max_y: if a.max_y >= b.max_y { a.max_y } else { b.max_y },
        area: a.area + b.area,
    }
}

/// Whether the boxes come within `pad` pixels of each other.
pub fn boxes_touch_padded(a: &Blob, b: &Blob, pad: u32) -> (touch: bool)
    ensures
        touch == touching(a@, b@, pad as int),
{
    a.min_x <= b.max_x.saturating_add(pad) && b.min_x <= a.max_x.saturating_add(pad) && a.min_y
        <= b.max_y.saturating_add(pad) && b.min_y <= a.max_y.saturating_add(pad)
}

/// Grows `target` to the smallest box around both and adds the areas up.
pub fn merge_into(target: &mut Blob, other: &Blob)
    requires
        old(target).area + other.area <= u32::MAX,
    ensures
        final(target)@ == hull(old(target)@, other@),
{
    target.min_x = target.min_x.min(other.min_x);
    target.min_y = target.min_y.min(other.min_y);
    target.max_x = target.max_x.max(other.max_x);
    target.max_y = target.max_y.max(other.max_y);
    target.area += other.area;
}

/// Index of the first box, from `from` on, that touches `blob`; the length where none does.
pub open spec fn first_touching(clusters: Seq<BlobView>, blob: BlobView, pad: int, from: int) -> int
    decreases clusters.len() - from,
{
    if from >= clusters.len() {
        clusters.len() as int
    } else if touching(clusters[from], blob, pad) {
        from
    } else {
        first_touching(clusters, blob, pad, from + 1)
    }
}

/// `blob` joins the first cluster that it touches, or becomes a cluster of its own.
pub open spec fn absorb(clusters: Seq<BlobView>, blob: BlobView, pad: int) -> Seq<BlobView> {
    let i = first_touching(clusters, blob, pad, 0);
    if i < clusters.len() {
        clusters.update(i, hull(clusters[i], blob))
    } else {
        clusters.push(blob)
    }
}

/// The blobs, absorbed one after the other.
pub open spec fn gather(blobs: Seq<BlobView>, pad: int) -> Seq<BlobView>
    decreases blobs.len(),
{
    if blobs.len() == 0 {
        Seq::empty()
    } else {
        absorb(gather(blobs.drop_last(), pad), blobs.last(), pad)
    }
}

/// The `j`-th cluster merged into the `i`-th; the last cluster takes its place.
pub open spec fn join(clusters: Seq<BlobView>, i: int, j: int) -> Seq<BlobView> {
    clusters.update(j, clusters.last()).drop_last().update(i, hull(clusters[i], clusters[j]))
}

/// Merges into the `i`-th cluster what it touches from `j` on.
pub open spec fn sweep_row(clusters: Seq<BlobView>, i: int, j: int, pad: int) -> Seq<BlobView>
    decreases clusters.len() - j,
{
    if 0 <= i < j < clusters.len() {
        if touching(clusters[i], clusters[j], pad) {
            sweep_row(join(clusters, i, j), i, j, pad)
        } else {
            sweep_row(clusters, i, j + 1, pad)
        }
    } else {
        clusters
    }
}

/// Merging into the `i`-th cluster never adds clusters and keeps the first ones.
pub proof fn lemma_sweep_row_len(clusters: Seq<BlobView>, i: int, j: int, pad: int)
    ensures
        sweep_row(clusters, i, j, pad).len() <= clusters.len(),
        0 <= i < clusters.len() ==> i < sweep_row(clusters, i, j, pad).len(),
    decreases clusters.len() - j,
{
    if 0 <= i < j < clusters.len() {
        if touching(clusters[i], clusters[j], pad) {
            lemma_sweep_row_len(join(clusters, i, j), i, j, pad);
        } else {
            lemma_sweep_row_len(clusters, i, j + 1, pad);
        }
    }
}

/// One pass over all clusters from the `i`-th on.
pub open spec fn sweep(clusters: Seq<BlobView>, i: int, pad: int) -> Seq<BlobView>
    decreases clusters.len() - i,
{
    if 0 <= i < clusters.len() {
        proof {
            lemma_sweep_row_len(clusters, i, i + 1, pad);
        }
        sweep(sweep_row(clusters, i, i + 1, pad), i + 1, pad)
    } else {
        clusters
    }
}

/// Passes repeated until one merges nothing.
pub open spec fn settle(clusters: Seq<BlobView>, pad: int) -> Seq<BlobView>
    decreases clusters.len(),
{
    let next = sweep(clusters, 0, pad);
    if next.len() < clusters.len() {
        settle(next, pad)
    } else {
        next
    }
}

/// The clusters of `blobs`, before small ones are dropped.
pub open spec fn merged(blobs: Seq<BlobView>, pad: int) -> Seq<BlobView> {
    settle(gather(blobs, pad), pad)
}

/// The clusters of at least `min_area` pixels.
pub open spec fn large_enough(clusters: Seq<BlobView>, min_area: int) -> Seq<BlobView> {
    clusters.filter(|c: BlobView| c.area >= min_area)
}

/// `cluster` put behind every cluster that is at least as large.
pub open spec fn insert_ranked(ranked: Seq<BlobView>, cluster: BlobView) -> Seq<BlobView>
    decreases ranked.len(),
{
    if ranked.len() > 0 && ranked.last().area < cluster.area {
        insert_ranked(ranked.drop_last(), cluster).push(ranked.last())
    } else {
        ranked.push(cluster)
    }
}

/// The clusters from the largest area to the smallest; equal areas keep their order.
pub open spec fn ranked(clusters: Seq<BlobView>) -> Seq<BlobView>
    decreases clusters.len(),
{
    if clusters.len() == 0 {
        Seq::empty()
    } else {
        insert_ranked(ranked(clusters.drop_last()), clusters.last())
    }
}

/// What clustering gives: the merged clusters of at least `min_area` pixels, largest first.
pub open spec fn clustered(blobs: Seq<BlobView>, pad: int, min_area: int) -> Seq<BlobView> {
    ranked(large_enough(merged(blobs, pad), min_area))
}

/// No area is negative, and none exceeds `limit`.
pub open spec fn areas_within(clusters: Seq<BlobView>, limit: int) -> bool {
    forall|i: int| 0 <= i < clusters.len() ==> 0 <= (#[trigger] clusters[i]).area <= limit
}

/// No area is negative.
pub open spec fn areas_counted(clusters: Seq<BlobView>) -> bool {
    forall|i: int| 0 <= i < clusters.len() ==> 0 <= (#[trigger] clusters[i]).area
}

pub proof fn lemma_join(clusters: Seq<BlobView>, i: int, j: int)
    requires
        0 <= i < j < clusters.len(),
    ensures
        join(clusters, i, j).len() == clusters.len() - 1,
        join(clusters, i, j)[i] == hull(clusters[i], clusters[j]),
        forall|k: int|
            0 <= k < clusters.len() - 1 && k != i && k != j ==> #[trigger] join(clusters, i, j)[k]
                == clusters[k],
        j < clusters.len() - 1 ==> join(clusters, i, j)[j] == clusters.last(),
{
}

/// A merged area bounds what was merged: nothing was larger before a join than after it.
proof fn lemma_join_areas(clusters: Seq<BlobView>, i: int, j: int, limit: int)
    requires
        0 <= i < j < clusters.len(),
        areas_counted(clusters),
    ensures
        areas_counted(join(clusters, i, j)),
        areas_within(join(clusters, i, j), limit) ==> areas_within(clusters, limit),
{
    lemma_join(clusters, i, j);
    let next = join(clusters, i, j);
    if areas_within(next, limit) {
        assert forall|k: int| 0 <= k < clusters.len() implies 0 <= (#[trigger] clusters[k]).area
            <= limit by {
            assert(0 <= next[i].area <= limit);
            if k != i && k != j {
                if k == clusters.len() - 1 {
                    assert(next[j] == clusters[k]);
                } else {
                    assert(next[k] == clusters[k]);
                }
            }
        }
    }
}

proof fn lemma_sweep_row_areas(clusters: Seq<BlobView>, i: int, j: int, pad: int, limit: int)
    requires
        0 <= i < j,
        i < clusters.len(),
        areas_counted(clusters),
    ensures
        areas_counted(sweep_row(clusters, i, j, pad)),
        areas_within(sweep_row(clusters, i, j, pad), limit) ==> areas_within(clusters, limit),
        i < sweep_row(clusters, i, j, pad).len(),
    decreases clusters.len() - j,
{
    if j < clusters.len() {
        if touching(clusters[i], clusters[j], pad) {
            lemma_join_areas(clusters, i, j, limit);
            lemma_sweep_row_areas(join(clusters, i, j), i, j, pad, limit);
        } else {
            lemma_sweep_row_areas(clusters, i, j + 1, pad, limit);
        }
    }
}

proof fn lemma_sweep_areas(clusters: Seq<BlobView>, i: int, pad: int, limit: int)
    requires
        0 <= i,
        areas_counted(clusters),
    ensures
        areas_counted(sweep(clusters, i, pad)),
        areas_within(sweep(clusters, i, pad), limit) ==> areas_within(clusters, limit),
        sweep(clusters, i, pad).len() <= clusters.len(),
    decreases clusters.len() - i,
{
    if i < clusters.len() {
        lemma_sweep_row_len(clusters, i, i + 1, pad);
        lemma_sweep_row_areas(clusters, i, i + 1, pad, limit);
        lemma_sweep_areas(sweep_row(clusters, i, i + 1, pad), i + 1, pad, limit);
    }
}

proof fn lemma_settle_areas(clusters: Seq<BlobView>, pad: int, limit: int)
    requires
        areas_counted(clusters),
    ensures
        areas_counted(settle(clusters, pad)),
        areas_within(settle(clusters, pad), limit) ==> areas_within(clusters, limit),
    decreases clusters.len(),
{
    lemma_sweep_areas(clusters, 0, pad, limit);
    let next = sweep(clusters, 0, pad);
    if next.len() < clusters.len() {
        lemma_settle_areas(next, pad, limit);
    }
}

pub proof fn lemma_first_touching(clusters: Seq<BlobView>, blob: BlobView, pad: int, from: int)
    requires
        0 <= from <= clusters.len(),
    ensures
        from <= first_touching(clusters, blob, pad, from) <= clusters.len(),
        first_touching(clusters, blob, pad, from) < clusters.len() ==> touching(
            clusters[first_touching(clusters, blob, pad, from)],
            blob,
            pad,
        ),
        forall|k: int|
            from <= k < first_touching(clusters, blob, pad, from) ==> !touching(
                #[trigger] clusters[k],
                blob,
                pad,
            ),
    decreases clusters.len() - from,
{
    if from < clusters.len() && !touching(clusters[from], blob, pad) {
        lemma_first_touching(clusters, blob, pad, from + 1);
    }
}

proof fn lemma_absorb_areas(clusters: Seq<BlobView>, blob: BlobView, pad: int, limit: int)
    requires
        areas_counted(clusters),
        0 <= blob.area,
    ensures
        areas_counted(absorb(clusters, blob, pad)),
        areas_within(absorb(clusters, blob, pad), limit) ==> areas_within(clusters, limit)
            && blob.area <= limit,
{
    lemma_first_touching(clusters, blob, pad, 0);
    let next = absorb(clusters, blob, pad);
    let i = first_touching(clusters, blob, pad, 0);
    if areas_within(next, limit) {
        assert forall|k: int| 0 <= k < clusters.len() implies 0 <= (#[trigger] clusters[k]).area
            <= limit by {
            assert(0 <= next[k].area <= limit);
        }
        assert(next[i].area <= limit);
    }
}

proof fn lemma_gather_areas(blobs: Seq<BlobView>, pad: int, k: int, limit: int)
    requires
        areas_counted(blobs),
        0 <= k <= blobs.len(),
    ensures
        areas_counted(gather(blobs, pad)),
        areas_within(gather(blobs, pad), limit) ==> areas_within(gather(blobs.take(k), pad), limit),
    decreases blobs.len(),
{
    if k == blobs.len() {
        assert(blobs.take(k) =~= blobs);
        if blobs.len() > 0 {
            lemma_gather_areas(blobs.drop_last(), pad, k - 1, limit);
            lemma_absorb_areas(gather(blobs.drop_last(), pad), blobs.last(), pad, limit);
        }
    } else {
        lemma_gather_areas(blobs.drop_last(), pad, k, limit);
        lemma_absorb_areas(gather(blobs.drop_last(), pad), blobs.last(), pad, limit);
        assert(blobs.drop_last().take(k) =~= blobs.take(k));
    }
}

proof fn lemma_views_update(blobs: Seq<Blob>, i: int, blob: Blob)
    requires
        0 <= i < blobs.len(),
    ensures
        blob_views(blobs.update(i, blob)) == blob_views(blobs).update(i, blob@),
{
    assert(blob_views(blobs.update(i, blob)) =~= blob_views(blobs).update(i, blob@));
}

/// `blob` joins the first cluster that it touches, or becomes a cluster of its own.
fn absorb_blob(clusters: &mut Vec<Blob>, blob: Blob, pad: u32)
    requires
        areas_within(
            absorb(blob_views(old(clusters)@), blob@, pad as int),
            u32::MAX as int,
        ),
    ensures
        blob_views(final(clusters)@) == absorb(blob_views(old(clusters)@), blob@, pad as int),
{
    let ghost views = blob_views(clusters@);
    let len: usize = clusters.len();
    let mut i: usize = 0;
    while i < len
        invariant
            i <= len,
            len == clusters@.len(),
            clusters@ == old(clusters)@,
            views == blob_views(clusters@),
            first_touching(views, blob@, pad as int, 0) == first_touching(
                views,
                blob@,
                pad as int,
                i as int,
            ),
            areas_within(absorb(views, blob@, pad as int), u32::MAX as int),
        decreases len - i,
    {
        assert(views[i as int] == clusters@[i as int]@);
        if boxes_touch_padded(&clusters[i], &blob, pad) {
            let mut cluster: Blob = clusters[i];
            proof {
                assert(absorb(views, blob@, pad as int)[i as int].area <= u32::MAX);
            }
            merge_into(&mut cluster, &blob);
            clusters[i] = cluster;
            proof {
                lemma_views_update(old(clusters)@, i as int, cluster);
            }
            return;
        }
        i += 1;
    }
    clusters.push(blob);
    proof {
        assert(blob_views(clusters@) =~= views.push(blob@));
    }
}

/// Merges the `j`-th cluster into the `i`-th; the last cluster takes its place.
fn join_pair(clusters: &mut Vec<Blob>, i: usize, j: usize)
    requires
        i < j < old(clusters)@.len(),
        old(clusters)@[i as int].area + old(clusters)@[j as int].area <= u32::MAX,
    ensures
        blob_views(final(clusters)@) == join(blob_views(old(clusters)@), i as int, j as int),
        final(clusters)@.len() == old(clusters)@.len() - 1,
{
    let other: Blob = clusters.swap_remove(j);
    let mut cluster: Blob = clusters[i];
    merge_into(&mut cluster, &other);
    clusters[i] = cluster;
    proof {
        assert(blob_views(clusters@) =~= join(
            blob_views(old(clusters)@),
            i as int,
            j as int,
        ));
    }
}

/// One pass over all pairs; tells whether anything was merged.
fn sweep_pairs(clusters: &mut Vec<Blob>, pad: u32) -> (merged_any: bool)
    requires
        areas_within(sweep(blob_views(old(clusters)@), 0, pad as int), u32::MAX as int),
    ensures
        blob_views(final(clusters)@) == sweep(blob_views(old(clusters)@), 0, pad as int),
        merged_any == (final(clusters)@.len() < old(clusters)@.len()),
        final(clusters)@.len() <= old(clusters)@.len(),
{
    let ghost goal = sweep(blob_views(clusters@), 0, pad as int);
    let mut merged_any: bool = false;
    let mut i: usize = 0;
    while i < clusters.len()
        invariant
            goal == sweep(blob_views(clusters@), i as int, pad as int),
            areas_within(goal, u32::MAX as int),
            merged_any == (clusters@.len() < old(clusters)@.len()),
            clusters@.len() <= old(clusters)@.len(),
        decreases clusters@.len() - i,
    {
        let mut j: usize = i + 1;
        let ghost held = clusters@.len();
        let ghost row = sweep_row(blob_views(clusters@), i as int, i + 1, pad as int);
        proof {
            lemma_views_counted(clusters@);
            lemma_sweep_row_areas(
                blob_views(clusters@),
                i as int,
                i + 1,
                pad as int,
                u32::MAX as int,
            );
            lemma_sweep_areas(row, i + 1, pad as int, u32::MAX as int);
        }
        while j < clusters.len()
            invariant
                i < j,
                i < clusters@.len() <= held,
                row == sweep_row(blob_views(clusters@), i as int, j as int, pad as int),
                areas_within(row, u32::MAX as int),
                merged_any == (clusters@.len() < old(clusters)@.len()),
                clusters@.len() <= old(clusters)@.len(),
            decreases clusters@.len() - j,
        {
            let ghost views = blob_views(clusters@);
            assert(views[i as int] == clusters@[i as int]@);
            assert(views[j as int] == clusters@[j as int]@);
            if boxes_touch_padded(&clusters[i], &clusters[j], pad) {
                proof {
                    lemma_views_counted(clusters@);
                    let next = join(views, i as int, j as int);
                    lemma_join_areas(views, i as int, j as int, u32::MAX as int);
                    lemma_join(views, i as int, j as int);
                    lemma_sweep_row_areas(next, i as int, j as int, pad as int, u32::MAX as int);
                    assert(next[i as int].area <= u32::MAX);
                }
                join_pair(clusters, i, j);
                merged_any = true;
            } else {
                j += 1;
            }
        }
        i += 1;
    }
    merged_any
}

proof fn lemma_views_counted(blobs: Seq<Blob>)
    ensures
        areas_counted(blob_views(blobs)),
{
    assert forall|i: int| 0 <= i < blob_views(blobs).len() implies 0 <= (#[trigger] blob_views(
        blobs,
    )[i]).area by {
        assert(blob_views(blobs)[i] == blobs[i]@);
    }
}

/// The clusters of at least `min_area` pixels, in their order.
fn keep_large(clusters: &Vec<Blob>, min_area: u32) -> (kept: Vec<Blob>)
    ensures
        blob_views(kept@) == large_enough(blob_views(clusters@), min_area as int),
{
    let ghost views = blob_views(clusters@);
    let mut kept: Vec<Blob> = Vec::new();
    let mut i: usize = 0;
    proof {
        assert(views.take(0) =~= Seq::<BlobView>::empty());
        reveal(Seq::filter);
        assert(blob_views(kept@) =~= large_enough(views.take(0), min_area as int));
    }
    while i < clusters.len()
        invariant
            i <= clusters@.len(),
            views == blob_views(clusters@),
            blob_views(kept@) == large_enough(views.take(i as int), min_area as int),
        decreases clusters@.len() - i,
    {
        proof {
            reveal(Seq::filter);
            assert(views.take(i + 1).drop_last() =~= views.take(i as int));
            assert(views.take(i + 1).last() == clusters@[i as int]@);
        }
        let ghost before = kept@;
        if clusters[i].area >= min_area {
            kept.push(clusters[i]);
            proof {
                assert(blob_views(kept@) =~= blob_views(before).push(clusters@[i as int]@));
            }
        }
        i += 1;
    }
    proof {
        assert(views.take(i as int) =~= views);
    }
    kept
}

/// Where a cluster goes: behind the last one that is at least as large.
proof fn lemma_insert_ranked(ranked: Seq<BlobView>, cluster: BlobView, at: int)
    requires
        0 <= at <= ranked.len(),
        at > 0 ==> ranked[at - 1].area >= cluster.area,
        forall|k: int| at <= k < ranked.len() ==> (#[trigger] ranked[k]).area < cluster.area,
    ensures
        insert_ranked(ranked, cluster) == ranked.insert(at, cluster),
    decreases ranked.len(),
{
    if at < ranked.len() {
        lemma_insert_ranked(ranked.drop_last(), cluster, at);
        assert(ranked.drop_last().insert(at, cluster).push(ranked.last()) =~= ranked.insert(
            at,
            cluster,
        ));
    } else {
        assert(ranked.push(cluster) =~= ranked.insert(at, cluster));
    }
}

/// The clusters from the largest area to the smallest; equal areas keep their order.
fn rank_by_area(clusters: &Vec<Blob>) -> (order: Vec<Blob>)
    ensures
        blob_views(order@) == ranked(blob_views(clusters@)),
{
    let ghost views = blob_views(clusters@);
    let mut order: Vec<Blob> = Vec::new();
    let mut i: usize = 0;
    proof {
        assert(blob_views(order@) =~= ranked(views.take(0)));
    }
    while i < clusters.len()
        invariant
            i <= clusters@.len(),
            views == blob_views(clusters@),
            blob_views(order@) == ranked(views.take(i as int)),
        decreases clusters@.len() - i,
    {
        let cluster: Blob = clusters[i];
        let mut at: usize = order.len();
        while at > 0 && order[at - 1].area < cluster.area
            invariant
                at <= order@.len(),
                forall|k: int| at <= k < order@.len() ==> (#[trigger] order@[k]).area < cluster.area,
            decreases at,
        {
            at -= 1;
        }
        proof {
            let so_far = blob_views(order@);
            assert forall|k: int| at <= k < so_far.len() implies (#[trigger] so_far[k]).area
                < cluster@.area by {
                assert(so_far[k] == order@[k]@);
            }
            lemma_insert_ranked(so_far, cluster@, at as int);
            assert(views.take(i + 1).drop_last() =~= views.take(i as int));
            assert(views.take(i + 1).last() == cluster@);
            assert(blob_views(order@.insert(at as int, cluster)) =~= so_far.insert(
                at as int,
                cluster@,
            ));
        }
        order.insert(at, cluster);
        i += 1;
    }
    proof {
        assert(views.take(i as int) =~= views);
    }
    order
}

/// Merges blobs whose boxes come within `pad` pixels of each other until none do, drops the
/// clusters of fewer than `min_area` pixels and gives the rest, largest first.
pub fn cluster_blobs(blobs: Vec<Blob>, pad: u32, min_area: u32) -> (clusters: Vec<Blob>)
    requires
        areas_within(merged(blob_views(blobs@), pad as int), u32::MAX as int),
    ensures
        blob_views(clusters@) == clustered(blob_views(blobs@), pad as int, min_area as int),
{
    let ghost views = blob_views(blobs@);
    let ghost goal = merged(views, pad as int);
    let mut clusters: Vec<Blob> = Vec::new();
    proof {
        lemma_views_counted(blobs@);
        lemma_gather_areas(views, pad as int, 0, u32::MAX as int);
        lemma_settle_areas(gather(views, pad as int), pad as int, u32::MAX as int);
        assert(blob_views(clusters@) =~= gather(views.take(0), pad as int));
    }
    let mut k: usize = 0;
    while k < blobs.len()
        invariant
            k <= blobs@.len(),
            views == blob_views(blobs@),
            areas_within(gather(views, pad as int), u32::MAX as int),
            blob_views(clusters@) == gather(views.take(k as int), pad as int),
        decreases blobs@.len() - k,
    {
        proof {
            lemma_views_counted(blobs@);
            lemma_gather_areas(views, pad as int, k + 1, u32::MAX as int);
            assert(views.take(k + 1).drop_last() =~= views.take(k as int));
            assert(views.take(k + 1).last() == blobs@[k as int]@);
        }
        absorb_blob(&mut clusters, blobs[k], pad);
        k += 1;
    }
    proof {
        assert(views.take(k as int) =~= views);
    }

    // merging can bring previously separate clusters into range of each other
    let mut merged_any: bool = true;
    while merged_any
        invariant
            areas_within(goal, u32::MAX as int),
            merged_any ==> goal == settle(blob_views(clusters@), pad as int),
            !merged_any ==> goal == blob_views(clusters@),
        decreases clusters@.len(), (if merged_any { 1int } else { 0int }),
    {
        proof {
            lemma_views_counted(clusters@);
            lemma_sweep_areas(blob_views(clusters@), 0, pad as int, u32::MAX as int);
            let next = sweep(blob_views(clusters@), 0, pad as int);
            lemma_settle_areas(next, pad as int, u32::MAX as int);
        }
        let ghost before = clusters@;
        merged_any = sweep_pairs(&mut clusters, pad);
        proof {
            assert(blob_views(before).len() == before.len());
            assert(blob_views(clusters@).len() == clusters@.len());
        }
    }
    let kept: Vec<Blob> = keep_large(&clusters, min_area);
    rank_by_area(&kept)
}

} // verus!
