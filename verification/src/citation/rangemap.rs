//! An in-memory map from byte ranges to the labels marked over them, and the
//! sweep that turns it into maximal ranges of constant label set.

use crate::error::Error;
use crate::partition::{on, partitions, partitions_upto, within, Profile, Span};
use core::ops::Range;
use vstd::prelude::*;

verus! {

/// A boundary of a mark: at `offset` the label `id` opens when `enabled`, and
/// closes otherwise.
#[derive(Clone, Copy, Debug, PartialEq, Eq, Structural)]
pub struct Point {
    pub offset: u32,
    pub id: u32,
    pub enabled: bool,
}

/// `a` and `b` stand at the same offset for the same label.
pub open spec fn same_key(a: Point, b: Point) -> bool {
    a.offset == b.offset && a.id == b.id
}

/// `a` comes before `b` in `(offset, label)` order.
pub open spec fn key_lt(a: Point, b: Point) -> bool {
    a.offset < b.offset || (a.offset == b.offset && a.id < b.id)
}

/// `a` does not come after `b` in `(offset, label)` order.
pub open spec fn key_le(a: Point, b: Point) -> bool {
    a.offset < b.offset || (a.offset == b.offset && a.id <= b.id)
}

/// The points ascend in `(offset, label)` order, and those that share an
/// offset and a label share their polarity: an opening and a closing of one
/// label at one offset have cancelled.
pub open spec fn normalized(s: Seq<Point>) -> bool {
    &&& forall|i: int, j: int| 0 <= i < j < s.len() ==> key_le(#[trigger] s[i], #[trigger] s[j])
    &&& forall|i: int, j: int|
        0 <= i < j < s.len() && same_key(#[trigger] s[i], #[trigger] s[j]) ==> s[i].enabled
            == s[j].enabled
}

/// What the point `e` adds to the reference count of `id` at position `at`.
pub open spec fn weight(e: Point, id: u32, at: int) -> int {
    if e.id == id && e.offset <= at {
        if e.enabled {
            1
        } else {
            -1
        }
    } else {
        0
    }
}

/// The reference count of `id` at position `at`: openings at or before `at`
/// less closings at or before `at`.
pub open spec fn depth(s: Seq<Point>, id: u32, at: int) -> int
    decreases s.len(),
{
    if s.len() == 0 {
        0
    } else {
        depth(s.drop_last(), id, at) + weight(s.last(), id, at)
    }
}

/// A point put in anywhere adds its weight to every count.
pub proof fn lemma_depth_insert(s: Seq<Point>, k: int, e: Point, id: u32, at: int)
    requires
        0 <= k <= s.len(),
    ensures
        depth(s.insert(k, e), id, at) == depth(s, id, at) + weight(e, id, at),
    decreases s.len(),
{
    let t = s.insert(k, e);
    if k == s.len() {
        assert(t.drop_last() =~= s);
    } else {
        assert(t.drop_last() =~= s.drop_last().insert(k, e));
        assert(t.last() == s.last());
        lemma_depth_insert(s.drop_last(), k, e, id, at);
    }
}

/// A point taken out takes its weight from every count.
pub proof fn lemma_depth_remove(s: Seq<Point>, k: int, id: u32, at: int)
    requires
        0 <= k < s.len(),
    ensures
        depth(s.remove(k), id, at) == depth(s, id, at) - weight(s[k], id, at),
    decreases s.len(),
{
    let t = s.remove(k);
    if k == s.len() - 1 {
        assert(t =~= s.drop_last());
    } else {
        assert(t.drop_last() =~= s.drop_last().remove(k));
        assert(t.last() == s.last());
        lemma_depth_remove(s.drop_last(), k, id, at);
    }
}

/// The number of openings of `id` among the points, less its closings.
pub open spec fn tally(s: Seq<Point>, id: u32) -> int {
    depth(s, id, u32::MAX as int)
}

/// No label closes before it has opened, and every label that opens closes
/// again: the points are the boundaries of a set of marks.
pub open spec fn balanced(s: Seq<Point>) -> bool {
    &&& forall|n: int, id: u32| 0 <= n <= s.len() ==> #[trigger] tally(s.take(n), id) >= 0
    &&& forall|id: u32| tally(s, id) == 0
}

/// One more point in the prefix adds its weight to the tally.
pub proof fn lemma_tally_step(s: Seq<Point>, n: int, id: u32)
    requires
        0 <= n < s.len(),
    ensures
        tally(s.take(n + 1), id) == tally(s.take(n), id) + if s[n].id == id {
            if s[n].enabled {
                1int
            } else {
                -1int
            }
        } else {
            0int
        },
{
    assert(s.take(n + 1).drop_last() =~= s.take(n));
}

/// A prefix of `n` points tallies to at most `n`.
pub proof fn lemma_tally_bound(s: Seq<Point>, n: int, id: u32)
    requires
        0 <= n <= s.len(),
    ensures
        tally(s.take(n), id) <= n,
    decreases n,
{
    if n > 0 {
        lemma_tally_bound(s, n - 1, id);
        lemma_tally_step(s, n - 1, id);
    }
}

/// Where every point lies at or before `at`, the count at `at` is the tally.
pub proof fn lemma_depth_all(s: Seq<Point>, id: u32, at: int)
    requires
        forall|i: int| 0 <= i < s.len() ==> s[i].offset <= at,
    ensures
        depth(s, id, at) == tally(s, id),
    decreases s.len(),
{
    if s.len() > 0 {
        lemma_depth_all(s.drop_last(), id, at);
    }
}

/// Where the first `n` points lie at or before `at` and the others after it,
/// the count at `at` is the tally of those first `n`.
pub proof fn lemma_depth_prefix(s: Seq<Point>, n: int, id: u32, at: int)
    requires
        0 <= n <= s.len(),
        forall|i: int| 0 <= i < n ==> s[i].offset <= at,
        forall|i: int| n <= i < s.len() ==> s[i].offset > at,
    ensures
        depth(s, id, at) == tally(s.take(n), id),
    decreases s.len(),
{
    if s.len() == n {
        assert(s.take(n) =~= s);
        lemma_depth_all(s, id, at);
    } else {
        assert(s.drop_last().take(n) =~= s.take(n));
        lemma_depth_prefix(s.drop_last(), n, id, at);
    }
}

/// Among ascending points, the number of those at or before `at`, when it is
/// known to lie between `lo` and `hi`.
pub proof fn lemma_rank(s: Seq<Point>, lo: int, hi: int, at: int) -> (n: int)
    requires
        normalized(s),
        0 <= lo <= hi <= s.len(),
        forall|i: int| 0 <= i < lo ==> s[i].offset <= at,
        forall|i: int| hi <= i < s.len() ==> s[i].offset > at,
    ensures
        lo <= n <= hi,
        forall|i: int| 0 <= i < n ==> s[i].offset <= at,
        forall|i: int| n <= i < s.len() ==> s[i].offset > at,
    decreases hi - lo,
{
    if lo == hi {
        lo
    } else if s[lo].offset <= at {
        lemma_rank(s, lo + 1, hi, at)
    } else {
        assert forall|i: int| lo <= i < s.len() implies s[i].offset > at by {
            if lo < i {
                assert(key_le(s[lo], s[i]));
            }
        }
        lo
    }
}

/// Over a stretch of points in which `id` occurs with one polarity only, its
/// tally moves one way only, and by at least one if the stretch starts with `id`.
pub proof fn lemma_tally_run(s: Seq<Point>, lo: int, hi: int, id: u32, enabled: bool)
    requires
        0 <= lo < hi <= s.len(),
        s[lo].id == id,
        forall|i: int| lo <= i < hi && s[i].id == id ==> s[i].enabled == enabled,
    ensures
        enabled ==> tally(s.take(hi), id) >= tally(s.take(lo), id) + 1,
        !enabled ==> tally(s.take(hi), id) <= tally(s.take(lo), id) - 1,
    decreases hi - lo,
{
    lemma_tally_step(s, hi - 1, id);
    if lo < hi - 1 {
        lemma_tally_run(s, lo, hi - 1, id, enabled);
    }
}

/// No reference count is ever negative, and every label that opens closes
/// again.
pub open spec fn sound(s: Seq<Point>) -> bool {
    &&& forall|id: u32, at: int| #[trigger] depth(s, id, at) >= 0
    &&& forall|id: u32| tally(s, id) == 0
}

/// Over a stretch of points in which `id` occurs with one polarity only, its
/// tally moves one way only.
proof fn lemma_tally_mono(s: Seq<Point>, lo: int, hi: int, id: u32, enabled: bool)
    requires
        0 <= lo <= hi <= s.len(),
        forall|i: int| lo <= i < hi && s[i].id == id ==> s[i].enabled == enabled,
    ensures
        enabled ==> tally(s.take(hi), id) >= tally(s.take(lo), id),
        !enabled ==> tally(s.take(hi), id) <= tally(s.take(lo), id),
    decreases hi - lo,
{
    if lo < hi {
        lemma_tally_step(s, hi - 1, id);
        lemma_tally_mono(s, lo, hi - 1, id, enabled);
    }
}

/// Where no reference count is ever negative, no prefix of the points closes
/// a label more often than it opened it.
proof fn lemma_sound_prefix(s: Seq<Point>, n: int, id: u32)
    requires
        normalized(s),
        sound(s),
        0 <= n <= s.len(),
    ensures
        tally(s.take(n), id) >= 0,
{
    if n == 0 {
        assert(s.take(0) =~= Seq::<Point>::empty());
    } else {
        let o = s[n - 1].offset as int;
        assert forall|i: int| n - 1 <= i < s.len() implies s[i].offset > o - 1 by {
            if n - 1 < i {
                assert(key_le(s[n - 1], s[i]));
            }
        }
        let a = lemma_rank(s, 0, n - 1, o - 1);
        assert forall|i: int| 0 <= i < n implies s[i].offset <= o by {
            if i < n - 1 {
                assert(key_le(s[i], s[n - 1]));
            }
        }
        let b = lemma_rank(s, n, s.len() as int, o);
        lemma_depth_prefix(s, a, id, o - 1);
        lemma_depth_prefix(s, b, id, o);
        assert(depth(s, id, o - 1) >= 0);
        assert(depth(s, id, o) >= 0);
        // between `a` and `b` every point lies at `o`
        let enabled = if exists|i: int| a <= i < b && s[i].id == id {
            s[choose|i: int| a <= i < b && s[i].id == id].enabled
        } else {
            true
        };
        assert forall|i: int| a <= i < b && s[i].id == id implies s[i].enabled == enabled by {
            let w = choose|i: int| a <= i < b && s[i].id == id;
            assert(s[w].offset == o && s[i].offset == o);
            if w < i {
                assert(same_key(s[w], s[i]));
            } else if i < w {
                assert(same_key(s[i], s[w]));
            }
        }
        lemma_tally_mono(s, a, n, id, enabled);
        lemma_tally_mono(s, n, b, id, enabled);
    }
}

/// Ordered points are balanced exactly when they are sound: a sweep over
/// them fails if and only if some reference count is negative somewhere, or a
/// label is left open.
pub proof fn lemma_balanced_sound(s: Seq<Point>)
    requires
        normalized(s),
    ensures
        balanced(s) <==> sound(s),
{
    if sound(s) {
        assert forall|n: int, id: u32| 0 <= n <= s.len() implies #[trigger] tally(s.take(n), id)
            >= 0 by {
            lemma_sound_prefix(s, n, id);
        }
    }
    if balanced(s) {
        assert forall|id: u32, at: int| #[trigger] depth(s, id, at) >= 0 by {
            let n = lemma_rank(s, 0, s.len() as int, at);
            lemma_depth_prefix(s, n, id, at);
        }
    }
}

/// What the points at `offset` add to the reference count of `id`.
pub open spec fn jump(s: Seq<Point>, id: u32, offset: int) -> int
    decreases s.len(),
{
    if s.len() == 0 {
        0
    } else {
        jump(s.drop_last(), id, offset) + if s.last().id == id && s.last().offset == offset {
            if s.last().enabled {
                1int
            } else {
                -1int
            }
        } else {
            0int
        }
    }
}

/// The reference count of a label changes at an offset by what the points
/// there add to it.
proof fn lemma_jump(s: Seq<Point>, id: u32, offset: int)
    ensures
        jump(s, id, offset) == depth(s, id, offset) - depth(s, id, offset - 1),
    decreases s.len(),
{
    if s.len() > 0 {
        lemma_jump(s.drop_last(), id, offset);
    }
}

/// Where no point stands at `offset` for `id`, nothing is added there.
proof fn lemma_jump_none(s: Seq<Point>, id: u32, offset: int)
    requires
        forall|i: int| 0 <= i < s.len() ==> !(s[i].id == id && s[i].offset == offset),
    ensures
        jump(s, id, offset) == 0,
    decreases s.len(),
{
    if s.len() > 0 {
        lemma_jump_none(s.drop_last(), id, offset);
    }
}

/// Where the points that stand at `offset` for `id` share their polarity, and
/// the first of all points is one of them, they add to the count or take
/// from it as that polarity says.
proof fn lemma_jump_some(s: Seq<Point>)
    requires
        s.len() > 0,
        forall|i: int| 0 <= i < s.len() && same_key(s[0], s[i]) ==> s[i].enabled == s[0].enabled,
    ensures
        s[0].enabled ==> jump(s, s[0].id, s[0].offset as int) > 0,
        !s[0].enabled ==> jump(s, s[0].id, s[0].offset as int) < 0,
    decreases s.len(),
{
    let id = s[0].id;
    let offset = s[0].offset as int;
    if s.len() > 1 {
        let rest = s.drop_last();
        assert(rest[0] == s[0]);
        assert forall|i: int| 0 <= i < rest.len() && same_key(rest[0], rest[i]) implies rest[i].enabled
            == rest[0].enabled by {
            assert(rest[i] == s[i]);
        }
        lemma_jump_some(rest);
        if s.last().id == id && s.last().offset == offset {
            assert(same_key(s[0], s[s.len() - 1]));
        }
    } else {
        assert(s.drop_last().len() == 0);
        assert(jump(s.drop_last(), id, offset) == 0);
        assert(s.last() == s[0]);
    }
}

/// Ordered points are known by the reference counts that they give: lists
/// that give the same counts everywhere are the same list.
pub proof fn lemma_points_unique(s: Seq<Point>, t: Seq<Point>)
    requires
        normalized(s),
        normalized(t),
        forall|id: u32, at: int| depth(s, id, at) == depth(t, id, at),
    ensures
        s == t,
    decreases s.len() + t.len(),
{
    if s.len() == 0 && t.len() == 0 {
        assert(s =~= t);
    } else if s.len() == 0 || (t.len() > 0 && key_lt(t[0], s[0])) {
        // `t` starts with a point where `s` has none
        let b = t[0];
        assert forall|i: int| 0 <= i < t.len() && same_key(t[0], t[i]) implies t[i].enabled
            == t[0].enabled by {
            if 0 < i {
                assert(same_key(t[0], t[i]));
            }
        }
        lemma_jump_some(t);
        assert forall|i: int| 0 <= i < s.len() implies !(s[i].id == b.id && s[i].offset
            == b.offset) by {
            if 0 < i {
                assert(key_le(s[0], s[i]));
            }
        }
        lemma_jump_none(s, b.id, b.offset as int);
        lemma_jump(s, b.id, b.offset as int);
        lemma_jump(t, b.id, b.offset as int);
        assert(false);
    } else if t.len() == 0 || key_lt(s[0], t[0]) {
        let a = s[0];
        assert forall|i: int| 0 <= i < s.len() && same_key(s[0], s[i]) implies s[i].enabled
            == s[0].enabled by {
            if 0 < i {
                assert(same_key(s[0], s[i]));
            }
        }
        lemma_jump_some(s);
        assert forall|i: int| 0 <= i < t.len() implies !(t[i].id == a.id && t[i].offset
            == a.offset) by {
            if 0 < i {
                assert(key_le(t[0], t[i]));
            }
        }
        lemma_jump_none(t, a.id, a.offset as int);
        lemma_jump(s, a.id, a.offset as int);
        lemma_jump(t, a.id, a.offset as int);
        assert(false);
    } else {
        // both start at one offset with one label, and so with one polarity
        let a = s[0];
        let b = t[0];
        assert(same_key(a, b));
        assert forall|i: int| 0 <= i < s.len() && same_key(s[0], s[i]) implies s[i].enabled
            == s[0].enabled by {
            if 0 < i {
                assert(same_key(s[0], s[i]));
            }
        }
        assert forall|i: int| 0 <= i < t.len() && same_key(t[0], t[i]) implies t[i].enabled
            == t[0].enabled by {
            if 0 < i {
                assert(same_key(t[0], t[i]));
            }
        }
        lemma_jump_some(s);
        lemma_jump_some(t);
        lemma_jump(s, a.id, a.offset as int);
        lemma_jump(t, a.id, a.offset as int);
        assert(a.enabled == b.enabled);
        assert(a == b);
        let s1 = s.remove(0);
        let t1 = t.remove(0);
        assert forall|id: u32, at: int| depth(s1, id, at) == depth(t1, id, at) by {
            lemma_depth_remove(s, 0, id, at);
            lemma_depth_remove(t, 0, id, at);
        }
        assert(normalized(s1)) by {
            assert forall|i: int, j: int| 0 <= i < j < s1.len() implies key_le(
                #[trigger] s1[i],
                #[trigger] s1[j],
            ) by {
                assert(key_le(s[i + 1], s[j + 1]));
            }
            assert forall|i: int, j: int|
                0 <= i < j < s1.len() && same_key(#[trigger] s1[i], #[trigger] s1[j]) implies s1[i].enabled
                == s1[j].enabled by {
                assert(same_key(s[i + 1], s[j + 1]));
            }
        }
        assert(normalized(t1)) by {
            assert forall|i: int, j: int| 0 <= i < j < t1.len() implies key_le(
                #[trigger] t1[i],
                #[trigger] t1[j],
            ) by {
                assert(key_le(t[i + 1], t[j + 1]));
            }
            assert forall|i: int, j: int|
                0 <= i < j < t1.len() && same_key(#[trigger] t1[i], #[trigger] t1[j]) implies t1[i].enabled
                == t1[j].enabled by {
                assert(same_key(t[i + 1], t[j + 1]));
            }
        }
        lemma_points_unique(s1, t1);
        assert(s =~= seq![a] + s1);
        assert(t =~= seq![b] + t1);
    }
}

/// One label of the active set together with its reference count.
#[derive(Clone, Copy, Debug)]
pub struct Slot {
    pub id: u32,
    pub count: usize,
}

/// Labels with a positive number each, kept in ascending label order: the
/// active set of a sweep, every label with its reference count.
#[derive(Clone, Debug)]
pub struct Stack {
    pub slots: Vec<Slot>,
}

impl Stack {
    /// Labels ascend strictly and every stored count is positive.
    pub open spec fn wf(&self) -> bool {
        &&& forall|i: int, j: int|
            0 <= i < j < self.slots@.len() ==> self.slots@[i].id < self.slots@[j].id
        &&& forall|i: int| 0 <= i < self.slots@.len() ==> self.slots@[i].count > 0
    }

    /// Whether `id` has a slot.
    pub open spec fn has(&self, id: u32) -> bool {
        exists|i: int| 0 <= i < self.slots@.len() && self.slots@[i].id == id
    }

    /// The reference count of `id`; zero when it is not active.
    pub open spec fn count(&self, id: u32) -> nat {
        if self.has(id) {
            self.slots@[choose|i: int| 0 <= i < self.slots@.len() && self.slots@[i].id == id].count as nat
        } else {
            0
        }
    }

    /// The active labels in ascending order.
    pub open spec fn keys(&self) -> Seq<u32> {
        Seq::new(self.slots@.len(), |i: int| self.slots@[i].id)
    }

    /// What the slot at `k` says about its label.
    pub proof fn lemma_slot(&self, k: int)
        requires
            self.wf(),
            0 <= k < self.slots@.len(),
        ensures
            self.has(self.slots@[k].id),
            self.count(self.slots@[k].id) == self.slots@[k].count,
            self.count(self.slots@[k].id) > 0,
    {
        let id = self.slots@[k].id;
        let c = choose|i: int| 0 <= i < self.slots@.len() && self.slots@[i].id == id;
        assert(c == k) by {
            if c < k {
                assert(self.slots@[c].id < self.slots@[k].id);
            } else if k < c {
                assert(self.slots@[k].id < self.slots@[c].id);
            }
        }
    }

    pub fn new() -> (s: Self)
        ensures
            s.wf(),
            s.slots@.len() == 0,
            forall|id: u32| s.count(id) == 0,
    {
        Stack { slots: Vec::new() }
    }

    /// The first position whose label is not below `id`.
    fn position(&self, id: u32) -> (k: usize)
        requires
            self.wf(),
        ensures
            k <= self.slots@.len(),
            forall|i: int| 0 <= i < k ==> self.slots@[i].id < id,
            forall|i: int| k <= i < self.slots@.len() ==> self.slots@[i].id >= id,
            self.has(id) <==> (k < self.slots@.len() && self.slots@[k as int].id == id),
    {
        let mut k: usize = 0;
        while k < self.slots.len() && self.slots[k].id < id
            invariant
                self.wf(),
                k <= self.slots@.len(),
                forall|i: int| 0 <= i < k ==> self.slots@[i].id < id,
            decreases self.slots@.len() - k,
        {
            k += 1;
        }
        k
    }

    /// How the counts of `next` differ from those of `self` when the slot list
    /// gained a slot for `id` at `k`.
    proof fn lemma_gained(&self, next: &Stack, k: int, slot: Slot)
        requires
            self.wf(),
            0 <= k <= self.slots@.len(),
            slot.count > 0,
            forall|i: int| 0 <= i < k ==> self.slots@[i].id < slot.id,
            forall|i: int| k <= i < self.slots@.len() ==> self.slots@[i].id > slot.id,
            next.slots@ == self.slots@.insert(k, slot),
        ensures
            next.wf(),
            self.count(slot.id) == 0,
            next.count(slot.id) == slot.count,
            forall|other: u32| other != slot.id ==> next.count(other) == self.count(other),
    {
        assert(next.wf());
        next.lemma_slot(k);
        assert forall|other: u32| other != slot.id implies next.count(other) == self.count(
            other,
        ) by {
            if self.has(other) {
                let j = choose|i: int| 0 <= i < self.slots@.len() && self.slots@[i].id == other;
                let j2 = if j < k {
                    j
                } else {
                    j + 1
                };
                assert(next.slots@[j2] == self.slots@[j]);
                next.lemma_slot(j2);
                self.lemma_slot(j);
            } else if next.has(other) {
                let j2 = choose|i: int| 0 <= i < next.slots@.len() && next.slots@[i].id == other;
                let j = if j2 < k {
                    j2
                } else {
                    j2 - 1
                };
                assert(self.slots@[j] == next.slots@[j2]);
            }
        }
    }

    /// How the counts of `next` differ from those of `self` when the slot at `k`
    /// was dropped.
    proof fn lemma_dropped(&self, next: &Stack, k: int)
        requires
            self.wf(),
            0 <= k < self.slots@.len(),
            next.slots@ == self.slots@.remove(k),
        ensures
            next.wf(),
            next.count(self.slots@[k].id) == 0,
            forall|other: u32|
                other != self.slots@[k].id ==> next.count(other) == self.count(other),
    {
        let id = self.slots@[k].id;
        assert(next.wf());
        if next.has(id) {
            let j2 = choose|i: int| 0 <= i < next.slots@.len() && next.slots@[i].id == id;
            let j = if j2 < k {
                j2
            } else {
                j2 + 1
            };
            assert(self.slots@[j] == next.slots@[j2]);
            assert(false);
        }
        assert forall|other: u32| other != id implies next.count(other) == self.count(other) by {
            if self.has(other) {
                let j = choose|i: int| 0 <= i < self.slots@.len() && self.slots@[i].id == other;
                let j2 = if j < k {
                    j
                } else {
                    j - 1
                };
                assert(next.slots@[j2] == self.slots@[j]);
                next.lemma_slot(j2);
                self.lemma_slot(j);
            } else if next.has(other) {
                let j2 = choose|i: int| 0 <= i < next.slots@.len() && next.slots@[i].id == other;
                let j = if j2 < k {
                    j2
                } else {
                    j2 + 1
                };
                assert(self.slots@[j] == next.slots@[j2]);
            }
        }
    }

    /// How the counts of `next` differ from those of `self` when the slot at `k`
    /// got a new positive count.
    proof fn lemma_recounted(&self, next: &Stack, k: int, count: usize)
        requires
            self.wf(),
            0 <= k < self.slots@.len(),
            count > 0,
            next.slots@ == self.slots@.update(k, Slot { id: self.slots@[k].id, count }),
        ensures
            next.wf(),
            next.count(self.slots@[k].id) == count,
            forall|other: u32|
                other != self.slots@[k].id ==> next.count(other) == self.count(other),
    {
        let id = self.slots@[k].id;
        assert(next.wf());
        next.lemma_slot(k);
        assert forall|other: u32| other != id implies next.count(other) == self.count(other) by {
            if self.has(other) {
                let j = choose|i: int| 0 <= i < self.slots@.len() && self.slots@[i].id == other;
                assert(next.slots@[j] == self.slots@[j]);
                next.lemma_slot(j);
                self.lemma_slot(j);
            } else if next.has(other) {
                let j = choose|i: int| 0 <= i < next.slots@.len() && next.slots@[i].id == other;
                assert(self.slots@[j] == next.slots@[j]);
            }
        }
    }

    /// Counts one more mark of `id` when `enabled`, one less otherwise, and
    /// says whether that made `id` enter or leave the active set.
    pub fn insert(&mut self, id: u32, enabled: bool) -> (changed: bool)
        requires
            old(self).wf(),
            enabled ==> old(self).count(id) < usize::MAX,
            !enabled ==> old(self).count(id) > 0,
        ensures
            final(self).wf(),
            forall|other: u32| other != id ==> final(self).count(other) == old(self).count(other),
            enabled ==> final(self).count(id) == old(self).count(id) + 1,
            !enabled ==> final(self).count(id) == old(self).count(id) - 1,
            changed == ((old(self).count(id) > 0) != (final(self).count(id) > 0)),
    {
        let ghost pre = *self;
        let k = self.position(id);
        let found = k < self.slots.len() && self.slots[k].id == id;
        proof {
            if found {
                pre.lemma_slot(k as int);
            }
        }
        if enabled {
            if found {
                let count = self.slots[k].count + 1;
                self.slots.set(k, Slot { id, count });
                proof {
                    pre.lemma_recounted(self, k as int, count);
                }
                false
            } else {
                let slot = Slot { id, count: 1 };
                self.slots.insert(k, slot);
                proof {
                    pre.lemma_gained(self, k as int, slot);
                }
                true
            }
        } else {
            let count = self.slots[k].count - 1;
            if count == 0 {
                self.slots.remove(k);
                proof {
                    pre.lemma_dropped(self, k as int);
                }
                true
            } else {
                self.slots.set(k, Slot { id, count });
                proof {
                    pre.lemma_recounted(self, k as int, count);
                }
                false
            }
        }
    }

    /// Does what `insert` does unless that would make `id` enter or leave the
    /// active set; says whether it did.
    pub fn maybe_insert(&mut self, id: u32, enabled: bool) -> (applied: bool)
        requires
            old(self).wf(),
            enabled ==> old(self).count(id) < usize::MAX,
            !enabled ==> old(self).count(id) > 0,
        ensures
            final(self).wf(),
            applied == if enabled {
                old(self).count(id) > 0
            } else {
                old(self).count(id) > 1
            },
            !applied ==> *final(self) == *old(self),
            forall|other: u32| other != id ==> final(self).count(other) == old(self).count(other),
            applied && enabled ==> final(self).count(id) == old(self).count(id) + 1,
            applied && !enabled ==> final(self).count(id) == old(self).count(id) - 1,
    {
        let ghost pre = *self;
        let k = self.position(id);
        let found = k < self.slots.len() && self.slots[k].id == id;
        proof {
            if found {
                pre.lemma_slot(k as int);
            }
        }
        if !found {
            return false;
        }
        let current = self.slots[k].count;
        if enabled {
            let count = current + 1;
            self.slots.set(k, Slot { id, count });
            proof {
                pre.lemma_recounted(self, k as int, count);
            }
            true
        } else if current == 1 {
            false
        } else {
            let count = current - 1;
            self.slots.set(k, Slot { id, count });
            proof {
                pre.lemma_recounted(self, k as int, count);
            }
            true
        }
    }

    /// Raises the number kept for `id` to `value`, unless it is that high
    /// already.
    pub fn raise(&mut self, id: u32, value: usize)
        requires
            old(self).wf(),
            value > 0,
        ensures
            final(self).wf(),
            forall|other: u32| other != id ==> final(self).count(other) == old(self).count(other),
            final(self).count(id) == if old(self).count(id) >= value {
                old(self).count(id)
            } else {
                value as nat
            },
    {
        let ghost pre = *self;
        let k = self.position(id);
        let found = k < self.slots.len() && self.slots[k].id == id;
        if found {
            proof {
                pre.lemma_slot(k as int);
            }
            if self.slots[k].count < value {
                self.slots.set(k, Slot { id, count: value });
                proof {
                    pre.lemma_recounted(self, k as int, value);
                }
            }
        } else {
            let slot = Slot { id, count: value };
            self.slots.insert(k, slot);
            proof {
                pre.lemma_gained(self, k as int, slot);
            }
        }
    }

    /// The labels whose number is above `bound`, with their numbers.
    pub fn above(&self, bound: usize) -> (kept: Self)
        requires
            self.wf(),
        ensures
            kept.wf(),
            forall|id: u32|
                kept.count(id) == if self.count(id) > bound {
                    self.count(id)
                } else {
                    0
                },
    {
        let mut kept = Stack::new();
        let mut i: usize = 0;
        while i < self.slots.len()
            invariant
                i <= self.slots@.len(),
                self.wf(),
                kept.wf(),
                forall|j: int|
                    0 <= j < kept.slots@.len() ==> exists|k: int|
                        0 <= k < i && self.slots@[k] == #[trigger] kept.slots@[j],
                forall|k: int|
                    0 <= k < i && self.slots@[k].count > bound ==> kept.count(
                        (#[trigger] self.slots@[k]).id,
                    ) == self.slots@[k].count,
                forall|id: u32| kept.count(id) > 0 ==> kept.count(id) > bound,
            decreases self.slots@.len() - i,
        {
            let slot = self.slots[i];
            if slot.count > bound {
                let ghost before = kept;
                let at = kept.slots.len();
                proof {
                    assert forall|j: int| 0 <= j < before.slots@.len() implies before.slots@[j].id
                        < slot.id by {
                        let k = choose|k: int| 0 <= k < i && self.slots@[k] == before.slots@[j];
                        assert(self.slots@[k].id < self.slots@[i as int].id);
                    }
                }
                kept.slots.push(slot);
                proof {
                    assert(kept.slots@ =~= before.slots@.insert(at as int, slot));
                    before.lemma_gained(&kept, at as int, slot);
                    assert forall|j: int| 0 <= j < kept.slots@.len() implies exists|k: int|
                        0 <= k < i + 1 && self.slots@[k] == #[trigger] kept.slots@[j] by {
                        if j < at {
                            let k = choose|k: int|
                                0 <= k < i && self.slots@[k] == before.slots@[j];
                            assert(self.slots@[k] == kept.slots@[j]);
                        } else {
                            assert(self.slots@[i as int] == kept.slots@[j]);
                        }
                    }
                    assert forall|k: int|
                        0 <= k < i + 1 && self.slots@[k].count > bound implies kept.count(
                        (#[trigger] self.slots@[k]).id,
                    ) == self.slots@[k].count by {
                        if k < i {
                            assert(self.slots@[k].id < self.slots@[i as int].id);
                        }
                    }
                }
            }
            i += 1;
        }
        proof {
            assert forall|id: u32|
                kept.count(id) == if self.count(id) > bound {
                    self.count(id)
                } else {
                    0
                } by {
                if kept.has(id) {
                    let j = choose|j: int| 0 <= j < kept.slots@.len() && kept.slots@[j].id == id;
                    kept.lemma_slot(j);
                    let k = choose|k: int| 0 <= k < i && self.slots@[k] == kept.slots@[j];
                    self.lemma_slot(k);
                } else if self.has(id) {
                    let k = choose|k: int| 0 <= k < self.slots@.len() && self.slots@[k].id == id;
                    self.lemma_slot(k);
                }
            }
        }
        kept
    }

    /// The active labels, ascending.
    pub fn ids(&self) -> (ids: Vec<u32>)
        requires
            self.wf(),
        ensures
            ids@ == self.keys(),
    {
        let mut ids: Vec<u32> = Vec::new();
        let mut i: usize = 0;
        while i < self.slots.len()
            invariant
                i <= self.slots@.len(),
                ids@ == self.keys().take(i as int),
            decreases self.slots@.len() - i,
        {
            ids.push(self.slots[i].id);
            assert(ids@ == self.keys().take(i + 1 as int));
            i += 1;
        }
        ids
    }

    /// A label is among the keys exactly when its count is positive.
    pub proof fn lemma_keys(&self, id: u32)
        requires
            self.wf(),
        ensures
            self.keys().contains(id) <==> self.count(id) > 0,
    {
        if self.keys().contains(id) {
            let i = choose|i: int| 0 <= i < self.keys().len() && self.keys()[i] == id;
            self.lemma_slot(i);
        }
        if self.count(id) > 0 {
            let i = choose|i: int| 0 <= i < self.slots@.len() && self.slots@[i].id == id;
            assert(self.keys()[i] == id);
        }
    }

    /// The keys ascend strictly, and there is one for each slot.
    pub proof fn lemma_keys_ascend(&self)
        requires
            self.wf(),
        ensures
            self.keys().len() == self.slots@.len(),
            forall|i: int, j: int|
                0 <= i < j < self.keys().len() ==> self.keys()[i] < self.keys()[j],
    {
    }

    /// The reference count of `id`; zero when it is not active.
    pub fn get(&self, id: u32) -> (n: usize)
        requires
            self.wf(),
        ensures
            n == self.count(id),
    {
        let k = self.position(id);
        if k < self.slots.len() && self.slots[k].id == id {
            proof {
                self.lemma_slot(k as int);
            }
            self.slots[k].count
        } else {
            0
        }
    }

    /// Whether `id` is active.
    pub fn contains(&self, id: u32) -> (b: bool)
        requires
            self.wf(),
        ensures
            b == (self.count(id) > 0),
    {
        let k = self.position(id);
        let found = k < self.slots.len() && self.slots[k].id == id;
        proof {
            if found {
                self.lemma_slot(k as int);
            }
        }
        found
    }

    pub fn is_empty(&self) -> (b: bool)
        requires
            self.wf(),
        ensures
            b == (self.slots@.len() == 0),
            b == (forall|id: u32| self.count(id) == 0),
    {
        proof {
            if self.slots@.len() > 0 {
                self.lemma_slot(0);
            }
        }
        self.slots.len() == 0
    }
}

/// Marks of byte ranges with labels, held as their boundary points.
#[derive(Clone, Debug)]
pub struct RangeMap {
    pub points: Vec<Point>,
}

impl RangeMap {
    /// The boundary points in `(offset, label)` order.
    pub open spec fn view(&self) -> Seq<Point> {
        self.points@
    }

    pub open spec fn wf(&self) -> bool {
        normalized(self.points@)
    }

    pub fn new() -> (m: Self)
        ensures
            m.wf(),
            m@ == Seq::<Point>::empty(),
    {
        RangeMap { points: Vec::new() }
    }

    /// A sweep over the marks from the lowest offset up.
    pub fn iter(&self) -> (it: Iter<'_>)
        requires
            self.wf(),
        ensures
            it.wf(),
            it.pos == 0,
            it.points@ == self@,
    {
        let it = Iter { points: &self.points, pos: 0, stack: Stack::new() };
        proof {
            assert(it.points@.take(0) =~= Seq::<Point>::empty());
        }
        it
    }

    /// Marks `range` with `id`. An empty range leaves the map as it is.
    pub fn insert(&mut self, range: Range<u32>, id: u32)
        requires
            old(self).wf(),
        ensures
            final(self).wf(),
            range.start >= range.end ==> final(self)@ == old(self)@,
            range.start < range.end ==> forall|l: u32, at: int|
                #[trigger] depth(final(self)@, l, at) == depth(old(self)@, l, at) + if l == id
                    && range.start <= at < range.end {
                    1int
                } else {
                    0int
                },
    {
        // empty ranges don't need entries
        if range.start >= range.end {
            return ;
        }
        self.insert_point(range.start, id, true);
        self.insert_point(range.end, id, false);
    }

    /// The first position whose point does not come before `e`.
    fn position(&self, e: Point) -> (k: usize)
        requires
            self.wf(),
        ensures
            k <= self@.len(),
            forall|i: int| 0 <= i < k ==> key_lt(self@[i], e),
            forall|i: int| k <= i < self@.len() ==> key_le(e, self@[i]),
    {
        let mut lo: usize = 0;
        let mut hi: usize = self.points.len();
        while lo < hi
            invariant
                self.wf(),
                lo <= hi <= self@.len(),
                forall|i: int| 0 <= i < lo ==> key_lt(self@[i], e),
                forall|i: int| hi <= i < self@.len() ==> key_le(e, self@[i]),
            decreases hi - lo,
        {
            let mid = lo + (hi - lo) / 2;
            let p = self.points[mid];
            if p.offset < e.offset || (p.offset == e.offset && p.id < e.id) {
                assert forall|i: int| 0 <= i < mid + 1 implies key_lt(self@[i], e) by {
                    if i < mid {
                        assert(key_le(self@[i], self@[mid as int]));
                    }
                }
                lo = mid + 1;
            } else {
                assert forall|i: int| mid <= i < self@.len() implies key_le(e, self@[i]) by {
                    if mid < i {
                        assert(key_le(self@[mid as int], self@[i]));
                    }
                }
                hi = mid;
            }
        }
        lo
    }

    /// Records one boundary. It cancels against a boundary of the other
    /// polarity at the same offset for the same label; otherwise it is kept,
    /// beside any of its own polarity that are there already.
    pub fn insert_point(&mut self, offset: u32, id: u32, value: bool)
        requires
            old(self).wf(),
        ensures
            final(self).wf(),
            forall|l: u32, at: int|
                #[trigger] depth(final(self)@, l, at) == depth(old(self)@, l, at) + weight(
                    Point { offset, id, enabled: value },
                    l,
                    at,
                ),
    {
        let e = Point { offset, id, enabled: value };
        let ghost pre = self@;
        let k = self.position(e);
        if k < self.points.len() && self.points[k].offset == offset && self.points[k].id == id
            && self.points[k].enabled != value {
            self.points.remove(k);
            proof {
                assert forall|l: u32, at: int| #[trigger]
                    depth(self@, l, at) == depth(pre, l, at) + weight(e, l, at) by {
                    lemma_depth_remove(pre, k as int, l, at);
                }
            }
        } else {
            self.points.insert(k, e);
            proof {
                assert forall|l: u32, at: int| #[trigger]
                    depth(self@, l, at) == depth(pre, l, at) + weight(e, l, at) by {
                    lemma_depth_insert(pre, k as int, e, l, at);
                }
                assert forall|i: int, j: int| 0 <= i < j < self@.len() implies key_le(
                    #[trigger] self@[i],
                    #[trigger] self@[j],
                ) by {
                    if i == k {
                        assert(self@[j] == pre[j - 1]);
                    } else if j == k {
                        assert(self@[i] == pre[i]);
                    } else {
                        let i0 = if i < k { i } else { i - 1 };
                        let j0 = if j < k { j } else { j - 1 };
                        assert(key_le(pre[i0], pre[j0]));
                    }
                }
                assert forall|i: int, j: int|
                    0 <= i < j < self@.len() && same_key(
                        #[trigger] self@[i],
                        #[trigger] self@[j],
                    ) implies self@[i].enabled == self@[j].enabled by {
                    let i0 = if i < k { i } else { i - 1 };
                    let j0 = if j < k { j } else { j - 1 };
                    if i == k {
                        // `e` against a later point of its key: that point shares
                        // its polarity with the one at `k`, which is not opposed.
                        assert(self@[j] == pre[j0]);
                        if j0 > k {
                            assert(key_le(pre[k as int], pre[j0]));
                            assert(same_key(pre[k as int], pre[j0]));
                        }
                    } else if j == k {
                        assert(self@[i] == pre[i]);
                        assert(key_lt(pre[i], e));
                    } else {
                        assert(same_key(pre[i0], pre[j0]));
                    }
                }
            }
        }
    }
}

/// The profile of a list of points: a label is active where its reference
/// count is positive.
pub open spec fn profile(s: Seq<Point>) -> Profile {
    |at: int, id: u32| depth(s, id, at) > 0
}

/// A range with its labels, as a span.
pub open spec fn span_of(r: (Range<u32>, Vec<u32>)) -> Span {
    Span { start: r.0.start as int, end: r.0.end as int, ids: r.1@ }
}

/// Ranges with their labels, as spans.
pub open spec fn spans(out: Seq<(Range<u32>, Vec<u32>)>) -> Seq<Span> {
    Seq::new(out.len(), |i: int| span_of(out[i]))
}

/// The spans found so far stay what the profile looks like when the sweep
/// hands out one more.
pub proof fn lemma_extend(p: Seq<Span>, s: Seq<Point>, bound: int, next: Span)
    requires
        partitions_upto(p, profile(s), bound),
        p.len() > 0 ==> p.last().end == bound && exists|id: u32|
            p.last().ids.contains(id) != (depth(s, id, bound) > 0),
        emitted(s, bound, next.start, next.end, next.ids),
    ensures
        partitions_upto(p.push(next), profile(s), next.end),
{
    let q = p.push(next);
    let f = profile(s);
    let k = p.len() as int;
    assert forall|i: int, at: int, id: u32| #[trigger] within(q, i, at) implies (q[i].ids.contains(
        id,
    ) <==> #[trigger] on(f, at, id)) by {
        if i < k {
            assert(within(p, i, at));
        }
    }
    assert forall|i: int, j: int| 0 <= i < j < q.len() implies (#[trigger] q[i]).end <= (
    #[trigger] q[j]).start by {
        if j < k {
            assert(p[i].end <= p[j].start);
        } else {
            assert(p[i].end <= bound);
        }
    }
    assert forall|i: int|
        0 <= i && i + 1 < q.len() && (#[trigger] q[i]).end == q[i + 1].start implies q[i].ids
        != q[i + 1].ids by {
        if i + 1 < k {
            assert(p[i].end == p[i + 1].start);
        } else {
            let id = choose|id: u32| p.last().ids.contains(id) != (depth(s, id, bound) > 0);
            assert(within(q, k, bound));
            assert(on(f, bound, id) == (depth(s, id, bound) > 0));
            assert(next.ids.contains(id) == on(f, bound, id));
        }
    }
    assert forall|at: int, id: u32| at < next.end && #[trigger] on(f, at, id) implies exists|
        i: int,
    | within(q, i, at) by {
        if at < bound {
            let i = choose|i: int| within(p, i, at);
            assert(within(q, i, at));
        } else {
            assert(depth(s, id, at) > 0);
            assert(within(q, k, at));
        }
    }
    assert forall|i: int| 0 <= i < q.len() implies (#[trigger] q[i]).start < q[i].end
        <= next.end && q[i].ids.len() > 0 by {
        if i < k {
            assert(p[i].end <= bound);
        }
    }
    assert forall|i: int, a: int, b: int|
        0 <= i < q.len() && 0 <= a < b < q[i].ids.len() implies (#[trigger] q[i].ids[a]) < (
    #[trigger] q[i].ids[b]) by {
        if i < k {
            assert(p[i].ids[a] < p[i].ids[b]);
        }
    }
}

/// When the sweep has found that nothing is active from `bound` on, the spans
/// found up to there are the partition.
pub proof fn lemma_complete(p: Seq<Span>, s: Seq<Point>, bound: int)
    requires
        partitions_upto(p, profile(s), bound),
        forall|at: int, id: u32| bound <= at ==> depth(s, id, at) <= 0,
    ensures
        partitions(p, profile(s)),
{
    let f = profile(s);
    assert forall|at: int, id: u32| #[trigger] on(f, at, id) implies exists|i: int|
        within(p, i, at) by {
        assert(depth(s, id, at) > 0);
        assert(at < bound);
    }
}

/// A sweep over the points of a range map, from the lowest offset up.
#[derive(Debug)]
pub struct Iter<'a> {
    pub points: &'a Vec<Point>,
    pub pos: usize,
    pub stack: Stack,
}

/// From the prefix of `lo` points to that of `hi`, no label has entered or
/// left the set of those with a positive tally.
pub open spec fn steady(s: Seq<Point>, lo: int, hi: int) -> bool {
    forall|n: int, id: u32|
        lo <= n <= hi ==> ((#[trigger] tally(s.take(n), id) > 0) == (tally(s.take(hi), id) > 0))
}

/// The offset of the point at `pos`, or the end of all offsets where there is
/// no such point.
pub open spec fn offset_at(s: Seq<Point>, pos: int) -> int {
    if 0 <= pos < s.len() {
        s[pos].offset as int
    } else {
        u32::MAX as int + 1
    }
}

/// Between the offset whose points end at `base` and the offset of the point
/// at `pos`, the active labels are those of the prefix of `pos` points, if the
/// points from `base` to `pos` made no label enter or leave.
pub proof fn lemma_segment(s: Seq<Point>, base: int, pos: int, offset: int, at: int, id: u32)
    requires
        normalized(s),
        0 <= base <= pos <= s.len(),
        forall|i: int| 0 <= i < base ==> s[i].offset <= offset,
        steady(s, base, pos),
        offset <= at < offset_at(s, pos),
    ensures
        (depth(s, id, at) > 0) == (tally(s.take(pos), id) > 0),
{
    assert forall|i: int| pos <= i < s.len() implies s[i].offset > at by {
        if pos < i {
            assert(key_le(s[pos], s[i]));
        }
    }
    let n = lemma_rank(s, base, pos, at);
    lemma_depth_prefix(s, n, id, at);
}

/// Before the first point no label is active.
pub proof fn lemma_before_first(s: Seq<Point>, at: int, id: u32)
    requires
        normalized(s),
        at < offset_at(s, 0),
    ensures
        depth(s, id, at) == 0,
{
    assert forall|i: int| 0 <= i < s.len() implies s[i].offset > at by {
        if 0 < i {
            assert(key_le(s[0], s[i]));
        }
    }
    lemma_depth_prefix(s, 0, id, at);
    assert(s.take(0) =~= Seq::<Point>::empty());
}

/// A point that makes its label enter or leave the prefix before it does so
/// for good at its offset: the points that follow at that offset for that
/// label have its polarity.
pub proof fn lemma_changes(s: Seq<Point>, pos: int)
    requires
        normalized(s),
        0 <= pos < s.len(),
        s[pos].enabled ==> tally(s.take(pos), s[pos].id) == 0,
        !s[pos].enabled ==> tally(s.take(pos), s[pos].id) == 1,
    ensures
        (depth(s, s[pos].id, s[pos].offset as int) > 0) != (tally(s.take(pos), s[pos].id) > 0),
{
    let x = s[pos];
    let end = x.offset as int;
    assert forall|i: int| 0 <= i < pos + 1 implies s[i].offset <= end by {
        if i < pos {
            assert(key_le(s[i], s[pos]));
        }
    }
    let m = lemma_rank(s, pos + 1, s.len() as int, end);
    lemma_depth_prefix(s, m, x.id, end);
    assert forall|i: int| pos <= i < m && s[i].id == x.id implies s[i].enabled == x.enabled by {
        if pos < i {
            assert(key_le(s[pos], s[i]));
            assert(same_key(s[pos], s[i]));
        }
    }
    lemma_tally_run(s, pos, m, x.id, x.enabled);
}

/// What holds of a range that the sweep hands out when it looked for one from
/// `from` on: nothing is active between `from` and its start; over the range
/// the active labels are `ids`, which ascend and are not empty; and at its end
/// the set of active labels changes.
pub open spec fn emitted(s: Seq<Point>, from: int, start: int, end: int, ids: Seq<u32>) -> bool {
    &&& from <= start < end
    &&& ids.len() > 0
    &&& forall|i: int, j: int| 0 <= i < j < ids.len() ==> ids[i] < ids[j]
    &&& forall|at: int, id: u32| from <= at < start ==> depth(s, id, at) <= 0
    &&& forall|at: int, id: u32|
        start <= at < end ==> (ids.contains(id) <==> depth(s, id, at) > 0)
    &&& exists|id: u32| ids.contains(id) != (depth(s, id, end) > 0)
}

impl<'a> Iter<'a> {
    /// The stack holds the tally of the points swept so far, and no label has
    /// closed more often than it opened.
    pub open spec fn wf(&self) -> bool {
        &&& normalized(self.points@)
        &&& self.pos <= self.points@.len()
        &&& self.stack.wf()
        &&& forall|id: u32|
            self.stack.count(id) == #[trigger] tally(self.points@.take(self.pos as int), id)
        &&& forall|n: int, id: u32|
            0 <= n <= self.pos ==> #[trigger] tally(self.points@.take(n), id) >= 0
    }

    /// The position from which the next range will be looked for.
    pub open spec fn frontier(&self) -> int {
        if self.pos == 0 {
            0
        } else {
            offset_at(self.points@, self.pos as int)
        }
    }

    /// Takes the point at the cursor into the stack, and says whether that
    /// made its label enter or leave the active set. A point that closes a
    /// label that is not active is not taken: the points are not balanced.
    pub fn commit_next(&mut self) -> (r: Result<bool, Error>)
        requires
            old(self).wf(),
            old(self).pos < old(self).points@.len(),
        ensures
            final(self).points == old(self).points,
            r is Err <==> !old(self).points@[old(self).pos as int].enabled && old(
                self,
            ).stack.count(old(self).points@[old(self).pos as int].id) == 0,
            match r {
                Ok(changed) => {
                    &&& final(self).wf()
                    &&& final(self).pos == old(self).pos + 1
                    &&& changed == old(self).would_change()
                },
                Err(e) => e == Error::InvariantViolation && !balanced(old(self).points@)
                    && *final(self) == *old(self),
            },
    {
        let len = self.points.len();
        let e = self.points[self.pos];
        proof {
            lemma_tally_bound(self.points@, self.pos as int, e.id);
        }
        if !e.enabled && !self.stack.contains(e.id) {
            proof {
                lemma_tally_step(self.points@, self.pos as int, e.id);
                assert(tally(self.points@.take(self.pos + 1), e.id) < 0);
            }
            return Err(Error::InvariantViolation);
        }
        let changed = self.stack.insert(e.id, e.enabled);
        proof {
            assert forall|id: u32|
                self.stack.count(id) == #[trigger] tally(self.points@.take(self.pos + 1), id) by {
                lemma_tally_step(self.points@, self.pos as int, id);
            }
        }
        self.pos = self.pos + 1;
        Ok(changed)
    }

    /// Takes every point at the offset of the cursor into the stack.
    fn gather(&mut self) -> (r: Result<(), Error>)
        requires
            old(self).wf(),
            old(self).pos < old(self).points@.len(),
        ensures
            final(self).points == old(self).points,
            match r {
                Ok(_) => {
                    &&& final(self).wf()
                    &&& final(self).pos > old(self).pos
                    &&& forall|i: int|
                        0 <= i < final(self).pos ==> (#[trigger] old(self).points@[i]).offset
                            <= old(self).points@[old(self).pos as int].offset
                    &&& offset_at(old(self).points@, final(self).pos as int) > old(
                        self,
                    ).points@[old(self).pos as int].offset
                },
                Err(e) => !balanced(old(self).points@),
            },
    {
        let ghost s = self.points@;
        let ghost first = self.pos;
        let len = self.points.len();
        let offset = self.points[self.pos].offset;
        while self.pos < len && self.points[self.pos].offset == offset
            invariant
                self.wf(),
                self.points == old(self).points,
                s == self.points@,
                len == s.len(),
                first <= self.pos <= len,
                first < len,
                s[first as int].offset == offset,
                forall|i: int| first <= i < self.pos ==> s[i].offset == offset,
            decreases len - self.pos,
        {
            match self.commit_next() {
                Ok(_) => {},
                Err(e) => {
                    return Err(e);
                },
            }
        }
        proof {
            assert(self.pos > first);
            assert forall|i: int| 0 <= i < self.pos implies s[i].offset <= offset by {
                if i < first {
                    assert(key_le(s[i], s[first as int]));
                }
            }
            if self.pos < len {
                assert(key_le(s[self.pos - 1], s[self.pos as int]));
            }
        }
        Ok(())
    }

    /// The point at the cursor would make its label enter or leave the active
    /// set: it opens a label that is not active, or closes one that is active
    /// once.
    pub open spec fn would_change(&self) -> bool {
        let e = self.points@[self.pos as int];
        if e.enabled {
            self.stack.count(e.id) == 0
        } else {
            self.stack.count(e.id) == 1
        }
    }

    /// Looks at the point at the cursor without taking it: its offset, and
    /// whether taking it would make its label enter or leave the active set.
    /// `None` when the points are used up.
    pub fn peek_next(&self) -> (r: Option<(u32, bool)>)
        requires
            self.wf(),
        ensures
            r is None <==> self.pos >= self.points@.len(),
            r matches Some(next) ==> next.0 == self.points@[self.pos as int].offset && next.1
                == self.would_change(),
    {
        if self.pos >= self.points.len() {
            return None;
        }
        let e = self.points[self.pos];
        let count = self.stack.get(e.id);
        let would_change = if e.enabled {
            count == 0
        } else {
            count == 1
        };
        Some((e.offset, would_change))
    }

    /// Takes points into the stack for as long as none of them makes a label
    /// enter or leave the active set; says whether such a point stopped it.
    fn look_ahead(&mut self) -> (r: Result<bool, Error>)
        requires
            old(self).wf(),
        ensures
            final(self).points == old(self).points,
            match r {
                Ok(stopped) => {
                    &&& final(self).wf()
                    &&& final(self).pos >= old(self).pos
                    &&& steady(old(self).points@, old(self).pos as int, final(self).pos as int)
                    &&& stopped == (final(self).pos < old(self).points@.len())
                    &&& stopped ==> if old(self).points@[final(self).pos as int].enabled {
                        final(self).stack.count(old(self).points@[final(self).pos as int].id) == 0
                    } else {
                        final(self).stack.count(old(self).points@[final(self).pos as int].id) == 1
                    }
                },
                Err(e) => !balanced(old(self).points@),
            },
    {
        let ghost s = self.points@;
        let ghost base = self.pos;
        let len = self.points.len();
        let mut stop = false;
        while !stop && self.pos < len
            invariant
                self.wf(),
                self.points == old(self).points,
                s == self.points@,
                len == s.len(),
                base <= self.pos <= len,
                steady(s, base as int, self.pos as int),
                stop ==> self.pos < len && if s[self.pos as int].enabled {
                    self.stack.count(s[self.pos as int].id) == 0
                } else {
                    self.stack.count(s[self.pos as int].id) == 1
                },
            decreases
                    len - self.pos + if stop {
                        0int
                    } else {
                        1int
                    },
        {
            let e = self.points[self.pos];
            proof {
                lemma_tally_bound(s, self.pos as int, e.id);
            }
            // only keep going if no label enters or leaves
            let would_change = match self.peek_next() {
                Some((_, would_change)) => would_change,
                None => true,
            };
            if !would_change && !e.enabled && !self.stack.contains(e.id) {
                proof {
                    lemma_tally_step(s, self.pos as int, e.id);
                    assert(tally(s.take(self.pos + 1), e.id) < 0);
                }
                return Err(Error::InvariantViolation);
            }
            if !would_change && self.stack.maybe_insert(e.id, e.enabled) {
                proof {
                    assert forall|id: u32|
                        self.stack.count(id) == #[trigger] tally(s.take(self.pos + 1), id) by {
                        lemma_tally_step(s, self.pos as int, id);
                    }
                    assert forall|n: int, id: u32| base <= n <= self.pos + 1 implies ((
                    #[trigger] tally(s.take(n), id) > 0) == (tally(s.take(self.pos + 1), id)
                        > 0)) by {
                        lemma_tally_step(s, self.pos as int, id);
                    }
                }
                self.pos = self.pos + 1;
            } else {
                stop = true;
            }
        }
        Ok(stop)
    }

    /// The next maximal range over which the set of active labels is constant
    /// and not empty, with those labels in ascending order; `None` when the
    /// points are used up.
    pub fn next(&mut self) -> (r: Result<Option<(Range<u32>, Vec<u32>)>, Error>)
        requires
            old(self).wf(),
        ensures
            final(self).points == old(self).points,
            match r {
                Ok(Some((range, ids))) => {
                    &&& final(self).wf()
                    &&& final(self).pos > old(self).pos
                    &&& range.end == final(self).frontier()
                    &&& emitted(
                        old(self).points@,
                        old(self).frontier(),
                        range.start as int,
                        range.end as int,
                        ids@,
                    )
                },
                Ok(None) => {
                    &&& final(self).wf()
                    &&& final(self).pos == old(self).points@.len()
                    &&& balanced(old(self).points@)
                    &&& forall|at: int, id: u32|
                        old(self).frontier() <= at ==> depth(old(self).points@, id, at) <= 0
                },
                Err(e) => !balanced(old(self).points@),
            },
    {
        let ghost s = self.points@;
        let ghost origin = self.frontier();
        let len = self.points.len();
        loop
            invariant
                self.wf(),
                self.points == old(self).points,
                s == self.points@,
                len == s.len(),
                self.pos >= old(self).pos,
                origin == old(self).frontier(),
                origin <= self.frontier(),
                forall|at: int, id: u32| origin <= at < self.frontier() ==> depth(s, id, at) <= 0,
            decreases len - self.pos,
        {
            if self.pos >= len {
                if !self.stack.is_empty() {
                    proof {
                        assert(s.take(len as int) =~= s);
                        let id = choose|id: u32| self.stack.count(id) != 0;
                        assert(tally(s, id) != 0);
                    }
                    return Err(Error::InvariantViolation);
                }
                proof {
                    assert(s.take(len as int) =~= s);
                    assert forall|at: int, id: u32| origin <= at implies depth(s, id, at) <= 0 by {
                        if at > u32::MAX {
                            lemma_depth_all(s, id, at);
                            assert(tally(s.take(self.pos as int), id) == self.stack.count(id));
                        } else if self.pos == 0 {
                            lemma_before_first(s, at, id);
                        } else {
                            assert(at < self.frontier());
                        }
                    }
                }
                return Ok(None);
            }
            let ghost first = self.pos;
            let ghost before = self.frontier();
            let offset = self.points[self.pos].offset;
            // collect all of the points at the current offset
            match self.gather() {
                Ok(_) => {},
                Err(e) => {
                    return Err(e);
                },
            }
            let ghost base = self.pos;
            // look ahead while the set of active labels stays as it is
            let stopped = match self.look_ahead() {
                Ok(stopped) => stopped,
                Err(e) => {
                    return Err(e);
                },
            };
            proof {
                assert(offset_at(s, self.pos as int) > offset) by {
                    if base < self.pos && self.pos < len {
                        assert(key_le(s[base as int], s[self.pos as int]));
                    }
                }
                assert forall|at: int, id: u32|
                    offset <= at < offset_at(s, self.pos as int) implies ((depth(s, id, at) > 0)
                    == (self.stack.count(id) > 0)) by {
                    lemma_segment(s, base as int, self.pos as int, offset as int, at, id);
                }
                assert forall|at: int, id: u32| before <= at < offset implies depth(s, id, at)
                    <= 0 by {
                    lemma_before_first(s, at, id);
                }
            }
            // don't return empty lists
            if self.stack.is_empty() {
                continue ;
            }
            if !stopped {
                proof {
                    assert(s.take(len as int) =~= s);
                    let id = choose|id: u32| self.stack.count(id) != 0;
                    assert(tally(s, id) != 0);
                }
                return Err(Error::InvariantViolation);
            }
            // the range reaches up to the point that stopped the look-ahead
            let end = self.points[self.pos].offset;
            let ids = self.stack.ids();
            proof {
                assert forall|at: int, id: u32| offset <= at < end implies (ids@.contains(id)
                    <==> depth(s, id, at) > 0) by {
                    self.stack.lemma_keys(id);
                }
                self.stack.lemma_keys_ascend();
                let x = s[self.pos as int];
                lemma_changes(s, self.pos as int);
                self.stack.lemma_keys(x.id);
                assert(ids@.contains(x.id) != (depth(s, x.id, end as int) > 0));
            }
            assert(emitted(s, origin, offset as int, end as int, ids@));
            return Ok(Some((offset..end, ids)));
        }
    }

    /// Every range that the sweep finds from the first point on, in order.
    /// They are the partition of the profile of the points; the sweep fails
    /// exactly when the points are not balanced.
    pub fn collect(self) -> (r: Result<Vec<(Range<u32>, Vec<u32>)>, Error>)
        requires
            self.wf(),
            self.pos == 0,
        ensures
            match r {
                Ok(out) => balanced(self.points@) && partitions(
                    spans(out@),
                    profile(self.points@),
                ),
                Err(e) => !balanced(self.points@),
            },
    {
        let ghost s = self.points@;
        let mut it = self;
        let mut out: Vec<(Range<u32>, Vec<u32>)> = Vec::new();
        proof {
            assert forall|at: int, id: u32| at < 0 implies !#[trigger] on(profile(s), at, id) by {
                lemma_before_first(s, at, id);
            }
        }
        loop
            invariant
                it.wf(),
                it.points@ == s,
                s == self.points@,
                partitions_upto(spans(out@), profile(s), it.frontier()),
                out@.len() > 0 ==> spans(out@).last().end == it.frontier() && exists|id: u32|
                    spans(out@).last().ids.contains(id) != (depth(s, id, it.frontier()) > 0),
            decreases s.len() - it.pos,
        {
            let ghost bound = it.frontier();
            match it.next() {
                Ok(Some(found)) => {
                    proof {
                        lemma_extend(spans(out@), s, bound, span_of(found));
                        assert(spans(out@.push(found)) =~= spans(out@).push(span_of(found)));
                    }
                    out.push(found);
                },
                Ok(None) => {
                    proof {
                        lemma_complete(spans(out@), s, bound);
                    }
                    return Ok(out);
                },
                Err(e) => {
                    return Err(e);
                },
            }
        }
    }
}

} // verus!
