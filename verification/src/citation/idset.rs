//! A set of small identifiers, one bit for each.

use vstd::prelude::*;

verus! {

/// A set of identifiers below 64.
#[derive(Clone, Copy, Debug)]
pub struct IdSet(pub u64);

/// The bit that stands for `index`.
pub open spec fn flag(index: u8) -> u64 {
    1u64 << (index as u64)
}

/// Setting the bit of `i` makes `i` a member and leaves the others as they are.
proof fn lemma_flag_set(x: u64, i: u64, j: u64)
    requires
        i < 64,
        j < 64,
    ensures
        ((x | (1u64 << i)) & (1u64 << j) != 0) == (i == j || (x & (1u64 << j) != 0)),
{
    assert(((x | (1u64 << i)) & (1u64 << j) != 0) == (i == j || (x & (1u64 << j) != 0)))
        by (bit_vector)
        requires
            i < 64,
            j < 64,
    ;
}

/// Clearing the bit of `i` takes `i` out and leaves the others as they are.
proof fn lemma_flag_clear(x: u64, i: u64, j: u64)
    requires
        i < 64,
        j < 64,
    ensures
        ((x & !(1u64 << i)) & (1u64 << j) != 0) == (i != j && (x & (1u64 << j) != 0)),
{
    assert(((x & !(1u64 << i)) & (1u64 << j) != 0) == (i != j && (x & (1u64 << j) != 0)))
        by (bit_vector)
        requires
            i < 64,
            j < 64,
    ;
}

impl IdSet {
    /// The identifiers in the set.
    pub open spec fn view(&self) -> Set<u8> {
        Set::new(|index: u8| index < 64 && self.0 & flag(index) != 0)
    }

    /// Puts `index` into the set.
    pub fn enable(&mut self, index: u8)
        requires
            index < 64,
        ensures
            final(self)@ == old(self)@.insert(index),
    {
        self.set(index, true);
    }

    /// Takes `index` out of the set.
    pub fn disable(&mut self, index: u8)
        requires
            index < 64,
        ensures
            final(self)@ == old(self)@.remove(index),
    {
        self.set(index, false);
    }

    /// Puts `index` into the set if `enabled`, and takes it out otherwise.
    pub fn set(&mut self, index: u8, enabled: bool)
        requires
            index < 64,
        ensures
            final(self)@ == if enabled {
                old(self)@.insert(index)
            } else {
                old(self)@.remove(index)
            },
    {
        let flag = 1u64 << (index as u64);
        let ghost before = *self;
        if enabled {
            self.0 |= flag;
            proof {
                assert forall|j: u8| self@.contains(j) == before@.insert(index).contains(j) by {
                    if j < 64 {
                        lemma_flag_set(before.0, index as u64, j as u64);
                    }
                }
                assert(self@ =~= before@.insert(index));
            }
        } else {
            self.0 &= !flag;
            proof {
                assert forall|j: u8| self@.contains(j) == before@.remove(index).contains(j) by {
                    if j < 64 {
                        lemma_flag_clear(before.0, index as u64, j as u64);
                    }
                }
                assert(self@ =~= before@.remove(index));
            }
        }
    }

    /// Whether `index` is in the set.
    pub fn get(&self, index: u8) -> (b: bool)
        requires
            index < 64,
        ensures
            b == self@.contains(index),
    {
        let flag = 1u64 << (index as u64);
        self.0 & flag != 0
    }

    /// The set of the identifiers listed.
    pub fn from_iter(ids: &[u8]) -> (set: Self)
        requires
            forall|i: int| 0 <= i < ids@.len() ==> ids@[i] < 64,
        ensures
            forall|index: u8| set@.contains(index) <==> ids@.contains(index),
    {
        let mut set = IdSet::default();
        let mut i: usize = 0;
        while i < ids.len()
            invariant
                i <= ids@.len(),
                forall|k: int| 0 <= k < ids@.len() ==> ids@[k] < 64,
                forall|index: u8| set@.contains(index) <==> ids@.take(i as int).contains(index),
            decreases ids@.len() - i,
        {
            let ghost before = set@;
            set.enable(ids[i]);
            proof {
                let cur = ids@.take(i as int);
                let nxt = ids@.take(i + 1);
                assert(nxt =~= cur.push(ids@[i as int]));
                assert forall|index: u8| set@.contains(index) <==> nxt.contains(index) by {
                    if cur.contains(index) {
                        let k = choose|k: int| 0 <= k < cur.len() && cur[k] == index;
                        assert(nxt[k] == index);
                    }
                    if nxt.contains(index) {
                        let k = choose|k: int| 0 <= k < nxt.len() && nxt[k] == index;
                        if k < i {
                            assert(cur[k] == index);
                        }
                    }
                    if index == ids@[i as int] {
                        assert(nxt[i as int] == index);
                    }
                }
            }
            i += 1;
        }
        proof {
            assert(ids@.take(i as int) =~= ids@);
        }
        set
    }
}

impl Default for IdSet {
    fn default() -> (set: Self)
        ensures
            set@ == Set::<u8>::empty(),
    {
        let set = IdSet(0);
        proof {
            assert forall|j: u8| !set@.contains(j) by {
                if j < 64 {
                    let k = j as u64;
                    assert(0u64 & (1u64 << k) == 0) by (bit_vector);
                }
            }
            assert(set@ =~= Set::<u8>::empty());
        }
        set
    }
}

} // verus!
