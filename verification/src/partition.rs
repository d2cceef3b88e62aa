//! Partitions of a profile: the maximal ranges over which the set of active
//! labels is constant and not empty. A profile has exactly one.

use vstd::prelude::*;

verus! {

/// A range of positions with the labels that are active all over it.
pub struct Span {
    pub start: int,
    pub end: int,
    pub ids: Seq<u32>,
}

/// Which labels are active where: `f(at, id)` says that `id` is active at `at`.
pub type Profile = spec_fn(int, u32) -> bool;

/// `id` is active at `at` in the profile `f`.
pub open spec fn on(f: Profile, at: int, id: u32) -> bool {
    f(at, id)
}

/// The `i`-th span reaches over `at`.
pub open spec fn within(p: Seq<Span>, i: int, at: int) -> bool {
    0 <= i < p.len() && p[i].start <= at < p[i].end
}

/// The spans are what the profile `f` looks like below `bound`: each is a
/// non-empty range with a non-empty ascending list of labels, which are
/// exactly the active ones at each of its positions; they follow each other
/// without overlap; two that touch differ in their labels; and every position
/// below `bound` at which a label is active lies in one of them.
pub open spec fn partitions_upto(p: Seq<Span>, f: Profile, bound: int) -> bool {
    &&& forall|i: int|
        0 <= i < p.len() ==> (#[trigger] p[i]).start < p[i].end <= bound && p[i].ids.len() > 0
    &&& forall|i: int, a: int, b: int|
        0 <= i < p.len() && 0 <= a < b < p[i].ids.len() ==> (#[trigger] p[i].ids[a]) < (
        #[trigger] p[i].ids[b])
    &&& forall|i: int, at: int, id: u32| #[trigger]
        within(p, i, at) ==> (p[i].ids.contains(id) <==> #[trigger] on(f, at, id))
    &&& forall|i: int, j: int|
        0 <= i < j < p.len() ==> (#[trigger] p[i]).end <= (#[trigger] p[j]).start
    &&& forall|i: int|
        0 <= i && i + 1 < p.len() && (#[trigger] p[i]).end == p[i + 1].start ==> p[i].ids != p[i
            + 1].ids
    &&& forall|at: int, id: u32|
        at < bound && #[trigger] on(f, at, id) ==> exists|i: int| within(p, i, at)
}

/// The spans are the partition of the profile `f`: the maximal ranges over
/// which the set of active labels is constant and not empty.
pub open spec fn partitions(p: Seq<Span>, f: Profile) -> bool {
    &&& forall|i: int| 0 <= i < p.len() ==> (#[trigger] p[i]).start < p[i].end && p[i].ids.len() > 0
    &&& forall|i: int, a: int, b: int|
        0 <= i < p.len() && 0 <= a < b < p[i].ids.len() ==> (#[trigger] p[i].ids[a]) < (
        #[trigger] p[i].ids[b])
    &&& forall|i: int, at: int, id: u32| #[trigger]
        within(p, i, at) ==> (p[i].ids.contains(id) <==> #[trigger] on(f, at, id))
    &&& forall|i: int, j: int|
        0 <= i < j < p.len() ==> (#[trigger] p[i]).end <= (#[trigger] p[j]).start
    &&& forall|i: int|
        0 <= i && i + 1 < p.len() && (#[trigger] p[i]).end == p[i + 1].start ==> p[i].ids != p[i
            + 1].ids
    &&& forall|at: int, id: u32| #[trigger] on(f, at, id) ==> exists|i: int| within(p, i, at)
}

/// Two ascending lists with the same members are the same list.
pub proof fn lemma_ascending_equal(x: Seq<u32>, y: Seq<u32>)
    requires
        forall|a: int, b: int| 0 <= a < b < x.len() ==> x[a] < x[b],
        forall|a: int, b: int| 0 <= a < b < y.len() ==> y[a] < y[b],
        forall|id: u32| x.contains(id) <==> y.contains(id),
    ensures
        x == y,
    decreases x.len(),
{
    if x.len() == 0 {
        if y.len() > 0 {
            assert(y.contains(y[0]));
        }
        assert(x =~= y);
    } else {
        assert(x.contains(x.last()));
        assert(y.contains(x.last()));
        assert(y.contains(y.last()));
        assert(x.contains(y.last()));
        assert(x.last() == y.last());
        let x0 = x.drop_last();
        let y0 = y.drop_last();
        assert forall|id: u32| x0.contains(id) <==> y0.contains(id) by {
            if x0.contains(id) {
                let a = choose|a: int| 0 <= a < x0.len() && x0[a] == id;
                assert(x[a] == id);
                assert(x.contains(id));
                let b = choose|b: int| 0 <= b < y.len() && y[b] == id;
                assert(b < y.len() - 1);
                assert(y0[b] == id);
            }
            if y0.contains(id) {
                let b = choose|b: int| 0 <= b < y0.len() && y0[b] == id;
                assert(y[b] == id);
                assert(y.contains(id));
                let a = choose|a: int| 0 <= a < x.len() && x[a] == id;
                assert(a < x.len() - 1);
                assert(x0[a] == id);
            }
        }
        lemma_ascending_equal(x0, y0);
        assert(x =~= x0.push(x.last()));
        assert(y =~= y0.push(y.last()));
    }
}

/// A partition of one profile is a partition of every profile that agrees
/// with it everywhere.
pub proof fn lemma_same_profile(p: Seq<Span>, f: Profile, g: Profile)
    requires
        partitions(p, f),
        forall|at: int, id: u32| on(f, at, id) == on(g, at, id),
    ensures
        partitions(p, g),
{
    assert forall|i: int, at: int, id: u32| #[trigger] within(p, i, at) implies (p[i].ids.contains(
        id,
    ) <==> #[trigger] on(g, at, id)) by {
        assert(on(f, at, id) == on(g, at, id));
    }
    assert forall|at: int, id: u32| #[trigger] on(g, at, id) implies exists|i: int|
        within(p, i, at) by {
        assert(on(f, at, id));
    }
}

/// Two spans of partitions of one profile that share a position have the
/// same labels.
proof fn lemma_shared_position(p: Seq<Span>, q: Seq<Span>, f: Profile, i: int, j: int, at: int)
    requires
        partitions(p, f),
        partitions(q, f),
        within(p, i, at),
        within(q, j, at),
    ensures
        p[i].ids == q[j].ids,
{
    assert forall|id: u32| p[i].ids.contains(id) <==> q[j].ids.contains(id) by {
        assert(p[i].ids.contains(id) <==> on(f, at, id));
        assert(q[j].ids.contains(id) <==> on(f, at, id));
    }
    assert forall|a: int, b: int| 0 <= a < b < p[i].ids.len() implies p[i].ids[a] < p[i].ids[b] by {
        assert(p[i].ids[a] < p[i].ids[b]);
    }
    assert forall|a: int, b: int| 0 <= a < b < q[j].ids.len() implies q[j].ids[a] < q[j].ids[b] by {
        assert(q[j].ids[a] < q[j].ids[b]);
    }
    lemma_ascending_equal(p[i].ids, q[j].ids);
}

/// Every position of a span of a partition is covered in any other partition
/// of the same profile.
proof fn lemma_covered_too(p: Seq<Span>, q: Seq<Span>, f: Profile, i: int, at: int) -> (j: int)
    requires
        partitions(p, f),
        partitions(q, f),
        within(p, i, at),
    ensures
        within(q, j, at),
{
    let id = p[i].ids[0];
    assert(p[i].ids.contains(id));
    assert(on(f, at, id));
    choose|j: int| within(q, j, at)
}

/// Where two partitions of one profile agree on their first `k` spans, the
/// next span of the one does not start before that of the other.
proof fn lemma_start_not_before(p: Seq<Span>, q: Seq<Span>, f: Profile, k: int)
    requires
        partitions(p, f),
        partitions(q, f),
        0 <= k < p.len(),
        0 <= k < q.len(),
        forall|i: int| 0 <= i < k ==> p[i] == q[i],
    ensures
        p[k].start >= q[k].start,
{
    if p[k].start < q[k].start {
        let at = p[k].start;
        assert(within(p, k, at));
        let j = lemma_covered_too(p, q, f, k, at);
        if j < k {
            assert(p[j] == q[j]);
            assert(p[j].end <= p[k].start);
        } else if j > k {
            assert(q[k].end <= q[j].start);
        }
    }
}

/// Where two partitions of one profile agree on their first `k` spans and on
/// the start of the next, that next span of the one does not end before that
/// of the other.
proof fn lemma_end_not_before(p: Seq<Span>, q: Seq<Span>, f: Profile, k: int)
    requires
        partitions(p, f),
        partitions(q, f),
        0 <= k < p.len(),
        0 <= k < q.len(),
        forall|i: int| 0 <= i < k ==> p[i] == q[i],
        p[k].start == q[k].start,
    ensures
        p[k].end >= q[k].end,
{
    if p[k].end < q[k].end {
        let at = p[k].end;
        assert(within(q, k, at));
        assert(within(q, k, at - 1));
        assert(within(p, k, at - 1));
        let j = lemma_covered_too(q, p, f, k, at);
        if j < k {
            assert(p[j].end <= p[k].start);
        } else if j > k {
            assert(p[k].end <= p[j].start);
            if k + 1 < j {
                assert(p[k].end <= p[k + 1].start);
                assert(p[k + 1].end <= p[j].start);
            }
            assert(j == k + 1);
            lemma_shared_position(p, q, f, k, k, at - 1);
            lemma_shared_position(p, q, f, k + 1, k, at);
            assert(p[k].ids == p[k + 1].ids);
        }
    }
}

/// Two partitions of one profile agree on their first `k` spans.
proof fn lemma_unique_upto(p: Seq<Span>, q: Seq<Span>, f: Profile, k: int)
    requires
        partitions(p, f),
        partitions(q, f),
        0 <= k <= p.len(),
        0 <= k <= q.len(),
    ensures
        forall|i: int| 0 <= i < k ==> p[i] == q[i],
    decreases k,
{
    if k > 0 {
        lemma_unique_upto(p, q, f, k - 1);
        let n = k - 1;
        lemma_start_not_before(p, q, f, n);
        lemma_start_not_before(q, p, f, n);
        lemma_end_not_before(p, q, f, n);
        lemma_end_not_before(q, p, f, n);
        assert(within(p, n, p[n].start));
        assert(within(q, n, p[n].start));
        lemma_shared_position(p, q, f, n, n, p[n].start);
    }
}

/// A profile has one partition only: whatever finds it, and however often,
/// finds the same spans.
pub proof fn lemma_unique(p: Seq<Span>, q: Seq<Span>, f: Profile)
    requires
        partitions(p, f),
        partitions(q, f),
    ensures
        p == q,
{
    let k = if p.len() <= q.len() {
        p.len() as int
    } else {
        q.len() as int
    };
    lemma_unique_upto(p, q, f, k);
    if p.len() > k {
        let at = p[k].start;
        assert(within(p, k, at));
        let j = lemma_covered_too(p, q, f, k, at);
        assert(p[j] == q[j]);
        assert(p[j].end <= p[k].start);
    }
    if q.len() > k {
        let at = q[k].start;
        assert(within(q, k, at));
        let j = lemma_covered_too(q, p, f, k, at);
        assert(p[j] == q[j]);
        assert(q[j].end <= q[k].start);
    }
    assert(p =~= q);
}

/// No span of a partition is without labels.
pub proof fn lemma_non_empty(p: Seq<Span>, f: Profile, i: int)
    requires
        partitions(p, f),
        0 <= i < p.len(),
    ensures
        p[i].ids.len() > 0,
        p[i].start < p[i].end,
{
}

/// A partition is maximal: two of its spans that touch differ in their
/// labels, so that no two of them could be one.
pub proof fn lemma_maximal(p: Seq<Span>, f: Profile, i: int)
    requires
        partitions(p, f),
        0 <= i,
        i + 1 < p.len(),
    ensures
        p[i].end <= p[i + 1].start,
        p[i].end == p[i + 1].start ==> p[i].ids != p[i + 1].ids,
{
}

/// The partition of the profile `f`, where it has one.
pub open spec fn partition_of(f: Profile) -> Seq<Span> {
    choose|p: Seq<Span>| partitions(p, f)
}

/// Whatever partitions a profile is its partition.
pub proof fn lemma_partition_of(p: Seq<Span>, f: Profile)
    requires
        partitions(p, f),
    ensures
        p == partition_of(f),
{
    lemma_unique(p, partition_of(f), f);
}

} // verus!
