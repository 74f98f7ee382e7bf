//! The order in which blobs are merged does not matter.
use crate::blobs::BlobView;
use crate::cluster::{
    absorb, clustered, first_touching, gather, hull, join, large_enough, lemma_first_touching,
    lemma_sweep_row_len, merged, settle, sweep, sweep_row, touching,
};
use crate::cluster_laws::{law_merged_separated, separated};
use crate::ranking::law_ranked;
use vstd::multiset::Multiset;
use vstd::prelude::*;
use vstd::seq_lib::*;

verus! {

/// `after` is `before` with the touching boxes `a` and `b` merged; `rest` are the others.
spec fn merges_pair(
    before: Multiset<BlobView>,
    after: Multiset<BlobView>,
    pad: int,
    rest: Multiset<BlobView>,
    a: BlobView,
    b: BlobView,
) -> bool {
    &&& touching(a, b, pad)
    &&& before == rest.insert(a).insert(b)
    &&& after == rest.insert(hull(a, b))
}

/// `after` is `before` with two touching boxes merged.
spec fn merges(before: Multiset<BlobView>, after: Multiset<BlobView>, pad: int) -> bool {
    exists|rest: Multiset<BlobView>, a: BlobView, b: BlobView| #[trigger]
        merges_pair(before, after, pad, rest, a, b)
}

/// `after` comes from `before` by merging two touching boxes `steps` times.
spec fn reduces(
    before: Multiset<BlobView>,
    after: Multiset<BlobView>,
    pad: int,
    steps: nat,
) -> bool
    decreases steps,
{
    if steps == 0 {
        before == after
    } else {
        exists|mid: Multiset<BlobView>| #[trigger]
            merges(before, mid, pad) && reduces(mid, after, pad, (steps - 1) as nat)
    }
}

/// No two of the boxes touch.
spec fn settled(bag: Multiset<BlobView>, pad: int) -> bool {
    forall|after: Multiset<BlobView>| !#[trigger] merges(bag, after, pad)
}

/// Both are the same, or lead to the same by one more merge.
spec fn joinable(x: Multiset<BlobView>, y: Multiset<BlobView>, pad: int) -> bool {
    x == y || exists|z: Multiset<BlobView>| #[trigger] merges(x, z, pad) && merges(y, z, pad)
}

/// Two merges that share the box `a`.
proof fn lemma_shared(
    bag: Multiset<BlobView>,
    r: Multiset<BlobView>,
    s: Multiset<BlobView>,
    a: BlobView,
    b: BlobView,
    d: BlobView,
    pad: int,
)
    requires
        bag == r.insert(a).insert(b),
        bag == s.insert(a).insert(d),
        touching(a, b, pad),
        touching(a, d, pad),
    ensures
        joinable(r.insert(hull(a, b)), s.insert(hull(a, d)), pad),
{
    let x = r.insert(hull(a, b));
    let y = s.insert(hull(a, d));
    assert forall|v: BlobView| r.insert(b).count(v) == s.insert(d).count(v) by {
        assert(bag.count(v) == r.insert(a).insert(b).count(v));
        assert(bag.count(v) == s.insert(a).insert(d).count(v));
    }
    if b == d {
        assert forall|v: BlobView| r.count(v) == s.count(v) by {
            assert(r.insert(b).count(v) == s.insert(d).count(v));
        }
        assert(r =~= s);
    } else {
        let q = r.remove(d);
        assert(r.count(d) > 0) by {
            assert(r.insert(b).count(d) == s.insert(d).count(d));
        }
        assert(r =~= q.insert(d));
        assert forall|v: BlobView| s.count(v) == q.insert(b).count(v) by {
            assert(r.insert(b).count(v) == s.insert(d).count(v));
        }
        assert(s =~= q.insert(b));
        let z = q.insert(hull(hull(a, b), d));
        assert(hull(hull(a, b), d) == hull(hull(a, d), b));
        assert(x =~= q.insert(hull(a, b)).insert(d));
        assert(y =~= q.insert(hull(a, d)).insert(b));
        assert(merges_pair(x, z, pad, q, hull(a, b), d));
        assert(merges_pair(y, z, pad, q, hull(a, d), b));
        assert(merges(x, z, pad) && merges(y, z, pad));
    }
}

/// Two merges of different boxes.
proof fn lemma_apart(
    bag: Multiset<BlobView>,
    r: Multiset<BlobView>,
    s: Multiset<BlobView>,
    a: BlobView,
    b: BlobView,
    c: BlobView,
    d: BlobView,
    pad: int,
)
    requires
        bag == r.insert(a).insert(b),
        bag == s.insert(c).insert(d),
        touching(a, b, pad),
        touching(c, d, pad),
        r.count(c) > 0,
        r.remove(c).count(d) > 0,
    ensures
        joinable(r.insert(hull(a, b)), s.insert(hull(c, d)), pad),
{
    let x = r.insert(hull(a, b));
    let y = s.insert(hull(c, d));
    let q = r.remove(c).remove(d);
    assert(r =~= q.insert(c).insert(d));
    assert forall|v: BlobView| s.count(v) == q.insert(a).insert(b).count(v) by {
        assert(bag.count(v) == r.insert(a).insert(b).count(v));
        assert(bag.count(v) == s.insert(c).insert(d).count(v));
    }
    assert(s =~= q.insert(a).insert(b));
    let z = q.insert(hull(a, b)).insert(hull(c, d));
    assert(x =~= q.insert(hull(a, b)).insert(c).insert(d));
    assert(y =~= q.insert(hull(c, d)).insert(a).insert(b));
    assert(z =~= q.insert(hull(c, d)).insert(hull(a, b)));
    assert(merges_pair(x, z, pad, q.insert(hull(a, b)), c, d));
    assert(merges_pair(y, z, pad, q.insert(hull(c, d)), a, b));
    assert(merges(x, z, pad) && merges(y, z, pad));
}

/// Whichever two merges are made, one more brings them together again.
proof fn lemma_diamond(
    bag: Multiset<BlobView>,
    x: Multiset<BlobView>,
    y: Multiset<BlobView>,
    pad: int,
)
    requires
        merges(bag, x, pad),
        merges(bag, y, pad),
    ensures
        joinable(x, y, pad),
{
    let (r, a, b) = choose|r: Multiset<BlobView>, a: BlobView, b: BlobView| #[trigger]
        merges_pair(bag, x, pad, r, a, b);
    let (s, c, d) = choose|s: Multiset<BlobView>, c: BlobView, d: BlobView| #[trigger]
        merges_pair(bag, y, pad, s, c, d);
    assert(hull(a, b) == hull(b, a) && hull(c, d) == hull(d, c));
    assert(r.insert(a).insert(b) =~= r.insert(b).insert(a));
    assert(s.insert(c).insert(d) =~= s.insert(d).insert(c));
    if r.count(c) > 0 && r.remove(c).count(d) > 0 {
        lemma_apart(bag, r, s, a, b, c, d, pad);
    } else if c == a {
        lemma_shared(bag, r, s, a, b, d, pad);
    } else if c == b {
        lemma_shared(bag, r, s, b, a, d, pad);
    } else if d == a {
        lemma_shared(bag, r, s, a, b, c, pad);
    } else if d == b {
        lemma_shared(bag, r, s, b, a, c, pad);
    } else {
        assert(r.insert(a).insert(b).count(c) == s.insert(c).insert(d).count(c));
        assert(r.insert(a).insert(b).count(d) == s.insert(c).insert(d).count(d));
        assert(false);
    }
}

/// A first merge of any kind is part of some way to the end.
proof fn lemma_strip(
    bag: Multiset<BlobView>,
    end: Multiset<BlobView>,
    y: Multiset<BlobView>,
    pad: int,
    steps: nat,
)
    requires
        reduces(bag, end, pad, steps),
        settled(end, pad),
        merges(bag, y, pad),
    ensures
        steps > 0,
        reduces(y, end, pad, (steps - 1) as nat),
    decreases steps,
{
    if steps > 0 {
        let x = choose|x: Multiset<BlobView>| #[trigger]
            merges(bag, x, pad) && reduces(x, end, pad, (steps - 1) as nat);
        lemma_diamond(bag, x, y, pad);
        if x != y {
            let z = choose|z: Multiset<BlobView>| #[trigger] merges(x, z, pad) && merges(y, z, pad);
            lemma_strip(x, end, z, pad, (steps - 1) as nat);
        }
    }
}

/// Merging until no two boxes touch leads to one result only.
proof fn lemma_one_end(
    bag: Multiset<BlobView>,
    end: Multiset<BlobView>,
    other: Multiset<BlobView>,
    pad: int,
    steps: nat,
    other_steps: nat,
)
    requires
        reduces(bag, end, pad, steps),
        settled(end, pad),
        reduces(bag, other, pad, other_steps),
        settled(other, pad),
    ensures
        end == other,
    decreases other_steps,
{
    if other_steps > 0 {
        let y = choose|y: Multiset<BlobView>| #[trigger]
            merges(bag, y, pad) && reduces(y, other, pad, (other_steps - 1) as nat);
        lemma_strip(bag, end, y, pad, steps);
        lemma_one_end(y, end, other, pad, (steps - 1) as nat, (other_steps - 1) as nat);
    } else if steps > 0 {
        let x = choose|x: Multiset<BlobView>| #[trigger]
            merges(bag, x, pad) && reduces(x, end, pad, (steps - 1) as nat);
        assert(merges(other, x, pad));
    }
}

proof fn lemma_reduces_on(
    x: Multiset<BlobView>,
    y: Multiset<BlobView>,
    z: Multiset<BlobView>,
    pad: int,
    k: nat,
    m: nat,
)
    requires
        reduces(x, y, pad, k),
        reduces(y, z, pad, m),
    ensures
        reduces(x, z, pad, k + m),
    decreases k,
{
    if k > 0 {
        let mid = choose|mid: Multiset<BlobView>| #[trigger]
            merges(x, mid, pad) && reduces(mid, y, pad, (k - 1) as nat);
        lemma_reduces_on(mid, y, z, pad, (k - 1) as nat, m);
        assert(merges(x, mid, pad) && reduces(mid, z, pad, (k + m - 1) as nat));
    }
}

/// What can be merged can be merged beside one more box.
proof fn lemma_reduces_beside(
    x: Multiset<BlobView>,
    y: Multiset<BlobView>,
    pad: int,
    k: nat,
    other: BlobView,
)
    requires
        reduces(x, y, pad, k),
    ensures
        reduces(x.insert(other), y.insert(other), pad, k),
    decreases k,
{
    if k > 0 {
        let mid = choose|mid: Multiset<BlobView>| #[trigger]
            merges(x, mid, pad) && reduces(mid, y, pad, (k - 1) as nat);
        lemma_reduces_beside(mid, y, pad, (k - 1) as nat, other);
        let (rest, a, b) = choose|rest: Multiset<BlobView>, a: BlobView, b: BlobView| #[trigger]
            merges_pair(x, mid, pad, rest, a, b);
        let more = rest.insert(other);
        assert(x.insert(other) =~= more.insert(a).insert(b));
        assert(mid.insert(other) =~= more.insert(hull(a, b)));
        assert(merges_pair(x.insert(other), mid.insert(other), pad, more, a, b));
        assert(merges(x.insert(other), mid.insert(other), pad));
    }
}

proof fn lemma_one_merge(x: Multiset<BlobView>, y: Multiset<BlobView>, pad: int)
    requires
        merges(x, y, pad),
    ensures
        reduces(x, y, pad, 1),
{
    assert(reduces(y, y, pad, 0));
}

/// Two boxes of a list, and the others.
proof fn lemma_two_of(clusters: Seq<BlobView>, i: int, j: int)
    requires
        0 <= i < j < clusters.len(),
    ensures
        ({
            let rest = clusters.remove(j).remove(i).to_multiset();
            clusters.to_multiset() == rest.insert(clusters[i]).insert(clusters[j])
        }),
{
    broadcast use group_to_multiset_ensures;

    let one = clusters.remove(j);
    assert(one[i] == clusters[i]);
    to_multiset_remove(clusters, j);
    to_multiset_remove(one, i);
    assert(clusters.contains(clusters[j]));
    assert(one.contains(one[i]));
    assert(clusters.to_multiset() =~= one.to_multiset().insert(clusters[j]));
    assert(one.to_multiset() =~= one.remove(i).to_multiset().insert(clusters[i]));
}

proof fn lemma_join_merges(clusters: Seq<BlobView>, i: int, j: int, pad: int)
    requires
        0 <= i < j < clusters.len(),
        touching(clusters[i], clusters[j], pad),
    ensures
        merges(clusters.to_multiset(), join(clusters, i, j).to_multiset(), pad),
{
    broadcast use group_to_multiset_ensures;

    let bag = clusters.to_multiset();
    let rest = clusters.remove(j).remove(i).to_multiset();
    let h = hull(clusters[i], clusters[j]);
    lemma_two_of(clusters, i, j);
    let moved = clusters.update(j, clusters.last());
    let fewer = moved.drop_last();
    to_multiset_update(clusters, j, clusters.last());
    to_multiset_build(fewer, moved.last());
    assert(fewer.push(moved.last()) =~= moved);
    assert(moved.last() == clusters.last());
    to_multiset_update(fewer, i, h);
    assert(fewer[i] == clusters[i]);
    let after = join(clusters, i, j).to_multiset();
    assert forall|v: BlobView| after.count(v) == rest.insert(h).count(v) by {
        assert(bag.count(v) == rest.insert(clusters[i]).insert(clusters[j]).count(v));
        assert(fewer.to_multiset().insert(clusters.last()).count(v) == bag.insert(
            clusters.last(),
        ).remove(clusters[j]).count(v));
        assert(after.count(v) == fewer.to_multiset().insert(h).remove(clusters[i]).count(v));
    }
    assert(after =~= rest.insert(h));
    assert(merges_pair(bag, after, pad, rest, clusters[i], clusters[j]));
}

proof fn lemma_sweep_row_reduces(clusters: Seq<BlobView>, i: int, j: int, pad: int) -> (steps: nat)
    ensures
        reduces(
            clusters.to_multiset(),
            sweep_row(clusters, i, j, pad).to_multiset(),
            pad,
            steps,
        ),
    decreases clusters.len() - j,
{
    if 0 <= i < j < clusters.len() {
        if touching(clusters[i], clusters[j], pad) {
            let next = join(clusters, i, j);
            let more = lemma_sweep_row_reduces(next, i, j, pad);
            lemma_join_merges(clusters, i, j, pad);
            lemma_one_merge(clusters.to_multiset(), next.to_multiset(), pad);
            lemma_reduces_on(
                clusters.to_multiset(),
                next.to_multiset(),
                sweep_row(clusters, i, j, pad).to_multiset(),
                pad,
                1,
                more,
            );
            1 + more
        } else {
            lemma_sweep_row_reduces(clusters, i, j + 1, pad)
        }
    } else {
        0
    }
}

proof fn lemma_sweep_reduces(clusters: Seq<BlobView>, i: int, pad: int) -> (steps: nat)
    ensures
        reduces(clusters.to_multiset(), sweep(clusters, i, pad).to_multiset(), pad, steps),
    decreases clusters.len() - i,
{
    if 0 <= i < clusters.len() {
        lemma_sweep_row_len(clusters, i, i + 1, pad);
        let next = sweep_row(clusters, i, i + 1, pad);
        let k = lemma_sweep_row_reduces(clusters, i, i + 1, pad);
        let m = lemma_sweep_reduces(next, i + 1, pad);
        lemma_reduces_on(
            clusters.to_multiset(),
            next.to_multiset(),
            sweep(clusters, i, pad).to_multiset(),
            pad,
            k,
            m,
        );
        k + m
    } else {
        0
    }
}

proof fn lemma_settle_reduces(clusters: Seq<BlobView>, pad: int) -> (steps: nat)
    ensures
        reduces(clusters.to_multiset(), settle(clusters, pad).to_multiset(), pad, steps),
    decreases clusters.len(),
{
    let next = sweep(clusters, 0, pad);
    let k = lemma_sweep_reduces(clusters, 0, pad);
    if next.len() < clusters.len() {
        let m = lemma_settle_reduces(next, pad);
        lemma_reduces_on(
            clusters.to_multiset(),
            next.to_multiset(),
            settle(clusters, pad).to_multiset(),
            pad,
            k,
            m,
        );
        k + m
    } else {
        k
    }
}

proof fn lemma_absorb_reduces(clusters: Seq<BlobView>, blob: BlobView, pad: int) -> (steps: nat)
    ensures
        reduces(
            clusters.to_multiset().insert(blob),
            absorb(clusters, blob, pad).to_multiset(),
            pad,
            steps,
        ),
{
    broadcast use group_to_multiset_ensures;

    lemma_first_touching(clusters, blob, pad, 0);
    let i = first_touching(clusters, blob, pad, 0);
    if i < clusters.len() {
        let bag = clusters.to_multiset().insert(blob);
        let after = absorb(clusters, blob, pad).to_multiset();
        let h = hull(clusters[i], blob);
        let rest = clusters.to_multiset().remove(clusters[i]);
        to_multiset_update(clusters, i, h);
        assert(clusters.contains(clusters[i]));
        assert(clusters.to_multiset().count(clusters[i]) > 0);
        assert(bag =~= rest.insert(clusters[i]).insert(blob));
        assert(after =~= rest.insert(h));
        assert(merges_pair(bag, after, pad, rest, clusters[i], blob));
        lemma_one_merge(bag, after, pad);
        1
    } else {
        to_multiset_build(clusters, blob);
        0
    }
}

proof fn lemma_gather_reduces(blobs: Seq<BlobView>, pad: int) -> (steps: nat)
    ensures
        reduces(blobs.to_multiset(), gather(blobs, pad).to_multiset(), pad, steps),
    decreases blobs.len(),
{
    if blobs.len() == 0 {
        assert(gather(blobs, pad) =~= blobs);
        0
    } else {
        let fewer = blobs.drop_last();
        let k = lemma_gather_reduces(fewer, pad);
        lemma_reduces_beside(
            fewer.to_multiset(),
            gather(fewer, pad).to_multiset(),
            pad,
            k,
            blobs.last(),
        );
        let m = lemma_absorb_reduces(gather(fewer, pad), blobs.last(), pad);
        to_multiset_build(fewer, blobs.last());
        assert(fewer.push(blobs.last()) =~= blobs);
        assert(fewer.to_multiset().insert(blobs.last()) =~= blobs.to_multiset());
        lemma_reduces_on(
            blobs.to_multiset(),
            gather(fewer, pad).to_multiset().insert(blobs.last()),
            gather(blobs, pad).to_multiset(),
            pad,
            k,
            m,
        );
        k + m
    }
}

proof fn lemma_separated_settled(clusters: Seq<BlobView>, pad: int)
    requires
        separated(clusters, pad),
    ensures
        settled(clusters.to_multiset(), pad),
{
    broadcast use group_to_multiset_ensures;

    let bag = clusters.to_multiset();
    assert forall|after: Multiset<BlobView>| !#[trigger] merges(bag, after, pad) by {
        if merges(bag, after, pad) {
            let (rest, a, b) = choose|rest: Multiset<BlobView>, a: BlobView, b: BlobView| #[trigger]
                merges_pair(bag, after, pad, rest, a, b);
            assert(rest.insert(a).insert(b).count(a) > 0);
            assert(clusters.contains(a));
            let i = choose|i: int| 0 <= i < clusters.len() && clusters[i] == a;
            let others = clusters.remove(i);
            to_multiset_remove(clusters, i);
            assert(others.to_multiset().count(b) > 0) by {
                assert(rest.insert(a).insert(b).remove(a).count(b) > 0);
            }
            assert(others.contains(b));
            let j = choose|j: int| 0 <= j < others.len() && others[j] == b;
            let k = if j < i { j } else { j + 1 };
            assert(clusters[k] == b);
            assert(!touching(clusters[i], clusters[k], pad));
        }
    }
}

/// The order in which blobs are listed does not matter: the same blobs in another order give the
/// same clusters.
pub proof fn law_merged_any_order(blobs: Seq<BlobView>, others: Seq<BlobView>, pad: int)
    requires
        blobs.to_multiset() == others.to_multiset(),
    ensures
        merged(blobs, pad).to_multiset() == merged(others, pad).to_multiset(),
{
    let ours = merged(blobs, pad).to_multiset();
    let theirs = merged(others, pad).to_multiset();
    let k = lemma_gather_reduces(blobs, pad);
    let m = lemma_settle_reduces(gather(blobs, pad), pad);
    lemma_reduces_on(blobs.to_multiset(), gather(blobs, pad).to_multiset(), ours, pad, k, m);
    let kk = lemma_gather_reduces(others, pad);
    let mm = lemma_settle_reduces(gather(others, pad), pad);
    lemma_reduces_on(others.to_multiset(), gather(others, pad).to_multiset(), theirs, pad, kk, mm);
    law_merged_separated(blobs, pad);
    law_merged_separated(others, pad);
    lemma_separated_settled(merged(blobs, pad), pad);
    lemma_separated_settled(merged(others, pad), pad);
    lemma_one_end(blobs.to_multiset(), ours, theirs, pad, k + m, kk + mm);
}

/// How often a cluster is among the large ones.
proof fn lemma_large_count(clusters: Seq<BlobView>, min_area: int, c: BlobView)
    ensures
        large_enough(clusters, min_area).to_multiset().count(c) == (if c.area >= min_area {
            clusters.to_multiset().count(c)
        } else {
            0
        }),
    decreases clusters.len(),
{
    broadcast use group_to_multiset_ensures;

    reveal(Seq::filter);
    if clusters.len() > 0 {
        let fewer = clusters.drop_last();
        lemma_large_count(fewer, min_area, c);
        assert(fewer.push(clusters.last()) =~= clusters);
        to_multiset_build(fewer, clusters.last());
        to_multiset_build(large_enough(fewer, min_area), clusters.last());
    }
}

/// The same blobs in another order give the same clusters of at least `min_area` pixels. Only
/// clusters of equal area can come in another order.
pub proof fn law_clustered_any_order(
    blobs: Seq<BlobView>,
    others: Seq<BlobView>,
    pad: int,
    min_area: int,
)
    requires
        blobs.to_multiset() == others.to_multiset(),
    ensures
        clustered(blobs, pad, min_area).to_multiset() == clustered(
            others,
            pad,
            min_area,
        ).to_multiset(),
{
    law_merged_any_order(blobs, others, pad);
    let ours = large_enough(merged(blobs, pad), min_area);
    let theirs = large_enough(merged(others, pad), min_area);
    law_ranked(ours, 0);
    law_ranked(theirs, 0);
    assert forall|c: BlobView| ours.to_multiset().count(c) == theirs.to_multiset().count(c) by {
        lemma_large_count(merged(blobs, pad), min_area, c);
        lemma_large_count(merged(others, pad), min_area, c);
    }
    assert(ours.to_multiset() =~= theirs.to_multiset());
}

} // verus!
