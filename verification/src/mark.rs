//! Marks, what a set of them looks like position by position, and what
//! follows for the partition that a sweep finds.

use crate::citation::rangemap::{
    balanced, depth, lemma_balanced_sound, lemma_points_unique, normalized, profile, spans, tally,
    Point, RangeMap,
};
use crate::marker::{rows_depth, rows_profile, rows_sound, rows_valid};
use crate::partition::{lemma_same_profile, lemma_unique, on, partitions, within, Profile, Span};
use crate::schema::FileId;
use core::ops::Range;
use vstd::prelude::*;

verus! {

/// A mark: the label `id` over the bytes from `start` up to, and without, `end`.
/// One whose `end` is not above its `start` marks nothing.
#[derive(Clone, Copy, Debug, PartialEq, Eq, Structural)]
pub struct Mark {
    pub start: u32,
    pub end: u32,
    pub id: u32,
}

impl Mark {
    /// The mark reaches over the position `at`.
    pub open spec fn covers(self, at: int) -> bool {
        self.start <= at < self.end
    }

    /// The mark as a span of its own.
    pub open spec fn span(self) -> Span {
        Span { start: self.start as int, end: self.end as int, ids: seq![self.id] }
    }
}

/// How many of the marks carry `id` and reach over `at`.
pub open spec fn cover(marks: Seq<Mark>, id: u32, at: int) -> int
    decreases marks.len(),
{
    if marks.len() == 0 {
        0
    } else {
        cover(marks.drop_last(), id, at) + if marks.last().id == id && marks.last().covers(at) {
            1int
        } else {
            0int
        }
    }
}

/// The profile of a list of marks: a label is active where a mark that
/// carries it reaches.
pub open spec fn marked(marks: Seq<Mark>) -> Profile {
    |at: int, id: u32| exists|i: int| 0 <= i < marks.len() && marks[i].id == id && marks[i].covers(at)
}

/// The points are the boundaries of the marks: everywhere, the reference
/// count of a label is the number of marks with that label that reach there.
pub open spec fn represents(s: Seq<Point>, marks: Seq<Mark>) -> bool {
    forall|id: u32, at: int| #[trigger] depth(s, id, at) == cover(marks, id, at)
}

/// A label is counted at a position exactly when a mark with it reaches there.
pub proof fn lemma_cover(marks: Seq<Mark>, id: u32, at: int)
    ensures
        cover(marks, id, at) >= 0,
        cover(marks, id, at) > 0 <==> on(marked(marks), at, id),
        at >= u32::MAX ==> cover(marks, id, at) == 0,
    decreases marks.len(),
{
    if marks.len() > 0 {
        let rest = marks.drop_last();
        lemma_cover(rest, id, at);
        if on(marked(rest), at, id) {
            let i = choose|i: int| 0 <= i < rest.len() && rest[i].id == id && rest[i].covers(at);
            assert(marks[i].id == id && marks[i].covers(at));
        }
        if on(marked(marks), at, id) {
            let i = choose|i: int| 0 <= i < marks.len() && marks[i].id == id && marks[i].covers(at);
            if i < rest.len() {
                assert(rest[i].id == id && rest[i].covers(at));
            }
        }
    }
}

/// Where points that are the boundaries of some marks take the boundaries of
/// one more, they are the boundaries of those marks and that one.
pub proof fn lemma_represents_push(s: Seq<Point>, next: Seq<Point>, marks: Seq<Mark>, m: Mark)
    requires
        represents(s, marks),
        m.start >= m.end ==> next == s,
        m.start < m.end ==> forall|l: u32, at: int|
            #[trigger] depth(next, l, at) == depth(s, l, at) + if l == m.id && m.start <= at < m.end {
                1int
            } else {
                0int
            },
    ensures
        represents(next, marks.push(m)),
{
    assert(marks.push(m).drop_last() =~= marks);
}

/// The boundaries of a set of marks are balanced: a sweep over them does not
/// fail.
pub proof fn lemma_represents_balanced(s: Seq<Point>, marks: Seq<Mark>)
    requires
        normalized(s),
        represents(s, marks),
    ensures
        balanced(s),
{
    assert forall|id: u32, at: int| #[trigger] depth(s, id, at) >= 0 by {
        lemma_cover(marks, id, at);
        assert(depth(s, id, at) == cover(marks, id, at));
    }
    assert forall|id: u32| tally(s, id) == 0 by {
        lemma_cover(marks, id, u32::MAX as int);
        assert(depth(s, id, u32::MAX as int) == cover(marks, id, u32::MAX as int));
    }
    lemma_balanced_sound(s);
}

/// The boundaries of a set of marks have the profile of those marks.
pub proof fn lemma_represents_profile(s: Seq<Point>, marks: Seq<Mark>)
    requires
        represents(s, marks),
    ensures
        forall|at: int, id: u32| on(profile(s), at, id) == on(marked(marks), at, id),
{
    assert forall|at: int, id: u32| on(profile(s), at, id) == on(marked(marks), at, id) by {
        lemma_cover(marks, id, at);
        assert(depth(s, id, at) == cover(marks, id, at));
    }
}

/// Some span reaches over the position `at`.
pub open spec fn spanned(p: Seq<Span>, at: int) -> bool {
    exists|j: int| within(p, j, at)
}

/// Some mark reaches over the position `at`.
pub open spec fn touched(marks: Seq<Mark>, at: int) -> bool {
    exists|i: int| 0 <= i < marks.len() && marks[i].covers(at)
}

/// The ranges of a partition reach over exactly the positions that the marks
/// reach over.
pub proof fn lemma_coverage(p: Seq<Span>, marks: Seq<Mark>)
    requires
        partitions(p, marked(marks)),
    ensures
        forall|at: int| #[trigger] spanned(p, at) <==> touched(marks, at),
{
    let f = marked(marks);
    assert forall|at: int| #[trigger] spanned(p, at) <==> touched(marks, at) by {
        if spanned(p, at) {
            let j = choose|j: int| within(p, j, at);
            let id = p[j].ids[0];
            assert(p[j].ids.contains(id));
            assert(on(f, at, id));
        }
        if touched(marks, at) {
            let i = choose|i: int| 0 <= i < marks.len() && marks[i].covers(at);
            assert(on(f, at, marks[i].id));
        }
    }
}

/// Lists that hold the same marks, each as often, have the same profile.
pub proof fn lemma_permuted_profile(a: Seq<Mark>, b: Seq<Mark>)
    requires
        a.to_multiset() == b.to_multiset(),
    ensures
        forall|at: int, id: u32| on(marked(a), at, id) == on(marked(b), at, id),
{
    a.to_multiset_ensures();
    b.to_multiset_ensures();
    assert forall|at: int, id: u32| on(marked(a), at, id) == on(marked(b), at, id) by {
        if on(marked(a), at, id) {
            let i = choose|i: int| 0 <= i < a.len() && a[i].id == id && a[i].covers(at);
            assert(a.contains(a[i]));
            assert(a.to_multiset().count(a[i]) > 0);
            assert(b.to_multiset().count(a[i]) > 0);
            assert(b.contains(a[i]));
            let j = choose|j: int| 0 <= j < b.len() && b[j] == a[i];
            assert(b[j].id == id && b[j].covers(at));
        }
        if on(marked(b), at, id) {
            let i = choose|i: int| 0 <= i < b.len() && b[i].id == id && b[i].covers(at);
            assert(b.contains(b[i]));
            assert(b.to_multiset().count(b[i]) > 0);
            assert(a.to_multiset().count(b[i]) > 0);
            assert(a.contains(b[i]));
            let j = choose|j: int| 0 <= j < a.len() && a[j] == b[i];
            assert(a[j].id == id && a[j].covers(at));
        }
    }
}

/// The partition does not depend on the order in which the marks came:
/// lists that hold the same marks, each as often, have the same partition.
pub proof fn lemma_order_independent(p: Seq<Span>, q: Seq<Span>, a: Seq<Mark>, b: Seq<Mark>)
    requires
        a.to_multiset() == b.to_multiset(),
        partitions(p, marked(a)),
        partitions(q, marked(b)),
    ensures
        p == q,
{
    lemma_permuted_profile(a, b);
    lemma_same_profile(p, marked(a), marked(b));
    lemma_unique(p, q, marked(b));
}

/// Marks that lie apart come out as they went in: where the marks, put in
/// ascending order, neither overlap nor touch, the partition has one span for
/// each of them, with its range and its label alone.
pub proof fn lemma_disjoint_preserved(p: Seq<Span>, marks: Seq<Mark>, sorted: Seq<Mark>)
    requires
        marks.to_multiset() == sorted.to_multiset(),
        forall|i: int| 0 <= i < sorted.len() ==> sorted[i].start < sorted[i].end,
        forall|i: int, j: int| 0 <= i < j < sorted.len() ==> sorted[i].end < sorted[j].start,
        partitions(p, marked(marks)),
    ensures
        p == Seq::new(sorted.len(), |i: int| sorted[i].span()),
{
    let q = Seq::new(sorted.len(), |i: int| sorted[i].span());
    let f = marked(sorted);
    assert forall|i: int, at: int, id: u32| #[trigger] within(q, i, at) implies (q[i].ids.contains(
        id,
    ) <==> #[trigger] on(f, at, id)) by {
        assert(sorted[i].covers(at));
        if q[i].ids.contains(id) {
            assert(id == sorted[i].id);
        }
        if on(f, at, id) {
            let k = choose|k: int| 0 <= k < sorted.len() && sorted[k].id == id && sorted[k].covers(at);
            if k < i {
                assert(sorted[k].end < sorted[i].start);
            } else if i < k {
                assert(sorted[i].end < sorted[k].start);
            }
            assert(q[i].ids[0] == id);
        }
    }
    assert forall|at: int, id: u32| #[trigger] on(f, at, id) implies exists|i: int|
        within(q, i, at) by {
        let k = choose|k: int| 0 <= k < sorted.len() && sorted[k].id == id && sorted[k].covers(at);
        assert(within(q, k, at));
    }
    assert(partitions(q, f));
    lemma_order_independent(p, q, marks, sorted);
}

/// A mark taken out of a list takes what it counted from every count.
proof fn lemma_cover_remove(marks: Seq<Mark>, k: int, id: u32, at: int)
    requires
        0 <= k < marks.len(),
    ensures
        cover(marks.remove(k), id, at) == cover(marks, id, at) - if marks[k].id == id
            && marks[k].covers(at) {
            1int
        } else {
            0int
        },
    decreases marks.len(),
{
    let rest = marks.remove(k);
    if k == marks.len() - 1 {
        assert(rest =~= marks.drop_last());
    } else {
        assert(rest.drop_last() =~= marks.drop_last().remove(k));
        assert(rest.last() == marks.last());
        lemma_cover_remove(marks.drop_last(), k, id, at);
    }
}

/// Lists that hold the same marks, each as often, count the same everywhere.
pub proof fn lemma_permuted_cover(a: Seq<Mark>, b: Seq<Mark>, id: u32, at: int)
    requires
        a.to_multiset() == b.to_multiset(),
    ensures
        cover(a, id, at) == cover(b, id, at),
    decreases a.len(),
{
    a.to_multiset_ensures();
    b.to_multiset_ensures();
    if a.len() == 0 {
        assert(b.len() == 0);
    } else {
        let x = a.last();
        let a0 = a.drop_last();
        assert(a =~= a0.push(x));
        a0.to_multiset_ensures();
        assert(a.to_multiset() =~= a0.to_multiset().insert(x));
        assert(a.contains(x));
        assert(a.to_multiset().count(x) > 0);
        assert(b.to_multiset().count(x) > 0);
        assert(b.contains(x));
        let k = choose|k: int| 0 <= k < b.len() && b[k] == x;
        let b0 = b.remove(k);
        assert(b0.to_multiset() =~= b.to_multiset().remove(x));
        assert(a0.to_multiset() =~= a.to_multiset().remove(x));
        lemma_permuted_cover(a0, b0, id, at);
        lemma_cover_remove(b, k, id, at);
    }
}

/// What is kept of a set of marks does not depend on the order in which
/// they came: the boundaries of lists that hold the same marks, each as
/// often, are the same.
pub proof fn lemma_kept_order_independent(s: Seq<Point>, t: Seq<Point>, a: Seq<Mark>, b: Seq<Mark>)
    requires
        a.to_multiset() == b.to_multiset(),
        normalized(s),
        normalized(t),
        represents(s, a),
        represents(t, b),
    ensures
        s == t,
{
    assert forall|id: u32, at: int| depth(s, id, at) == depth(t, id, at) by {
        lemma_permuted_cover(a, b, id, at);
        assert(depth(s, id, at) == cover(a, id, at));
        assert(depth(t, id, at) == cover(b, id, at));
    }
    lemma_points_unique(s, t);
}

/// Rows of a file that count as a list of marks counts are the records of
/// a set of marks, so that their sweep does not fail, and have the profile
/// of those marks. A store that started empty and took the writes of the
/// marks, in whatever order, holds such rows: each mark adds one to the
/// counts where it reaches (`lemma_marked`).
pub proof fn lemma_rows_of_marks(file: FileId, rows: Seq<(Seq<u8>, Seq<u8>)>, marks: Seq<Mark>)
    requires
        rows_valid(file, rows),
        forall|id: u32, at: int| #[trigger] rows_depth(file, rows, id, at) == cover(marks, id, at),
    ensures
        rows_sound(file, rows),
        forall|at: int, id: u32|
            on(rows_profile(file, rows), at, id) == on(marked(marks), at, id),
{
    assert forall|id: u32, at: int| #[trigger] rows_depth(file, rows, id, at) >= 0 by {
        lemma_cover(marks, id, at);
    }
    assert forall|id: u32| rows_depth(file, rows, id, u32::MAX as int) == 0 by {
        lemma_cover(marks, id, u32::MAX as int);
        assert(rows_depth(file, rows, id, u32::MAX as int) == cover(marks, id, u32::MAX as int));
    }
    assert forall|at: int, id: u32|
        on(rows_profile(file, rows), at, id) == on(marked(marks), at, id) by {
        lemma_cover(marks, id, at);
        assert(rows_depth(file, rows, id, at) == cover(marks, id, at));
    }
}

/// The partition of a list of marks: the maximal ranges over which the set of
/// labels marked there is constant and not empty, in ascending order, each
/// with its labels in ascending order.
pub fn consolidate(marks: &Vec<Mark>) -> (out: Vec<(Range<u32>, Vec<u32>)>)
    ensures
        partitions(spans(out@), marked(marks@)),
{
    let mut map = RangeMap::new();
    let mut i: usize = 0;
    proof {
        assert(marks@.take(0) =~= Seq::<Mark>::empty());
    }
    while i < marks.len()
        invariant
            i <= marks@.len(),
            map.wf(),
            represents(map@, marks@.take(i as int)),
        decreases marks@.len() - i,
    {
        let m = marks[i];
        let ghost before = map@;
        map.insert(m.start..m.end, m.id);
        proof {
            lemma_represents_push(before, map@, marks@.take(i as int), m);
            assert(marks@.take(i + 1) =~= marks@.take(i as int).push(m));
        }
        i += 1;
    }
    proof {
        assert(marks@.take(i as int) =~= marks@);
        lemma_represents_balanced(map@, marks@);
        lemma_represents_profile(map@, marks@);
    }
    match map.iter().collect() {
        Ok(out) => {
            proof {
                lemma_same_profile(spans(out@), profile(map@), marked(marks@));
            }
            out
        },
        Err(_) => Vec::new(),
    }
}

} // verus!
