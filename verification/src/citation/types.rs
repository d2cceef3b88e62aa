//! The types of citations, as a set.

use crate::citation::idset::IdSet;
use crate::text::same_text;
use vstd::prelude::*;
use vstd::string::*;

verus! {

/// A type of citation, by its number among the types that are known.
#[derive(Clone, Copy, Debug, PartialEq, Eq, Hash, Structural)]
pub struct Type(pub u8);

/// A level of requirement, by its number among the levels that are known.
#[derive(Clone, Copy, Debug, PartialEq, Eq, Hash, Structural)]
pub struct Level(pub u8);

/// A set of types of citation.
#[derive(Clone, Copy, Debug)]
pub struct TypeSet(pub IdSet);

impl TypeSet {
    /// The numbers of the types in the set.
    pub open spec fn view(&self) -> Set<u8> {
        self.0@
    }

    /// Puts `ty` into the set.
    pub fn enable(&mut self, ty: Type)
        requires
            ty.0 < 64,
        ensures
            final(self)@ == old(self)@.insert(ty.0),
    {
        self.set(ty, true);
    }

    /// Takes `ty` out of the set.
    pub fn disable(&mut self, ty: Type)
        requires
            ty.0 < 64,
        ensures
            final(self)@ == old(self)@.remove(ty.0),
    {
        self.set(ty, false);
    }

    /// Puts `ty` into the set if `enabled`, and takes it out otherwise.
    pub fn set(&mut self, ty: Type, enabled: bool)
        requires
            ty.0 < 64,
        ensures
            final(self)@ == if enabled {
                old(self)@.insert(ty.0)
            } else {
                old(self)@.remove(ty.0)
            },
    {
        self.0.set(ty.0, enabled)
    }

    /// Whether `ty` is in the set.
    pub fn get(&self, ty: Type) -> (b: bool)
        requires
            ty.0 < 64,
        ensures
            b == self@.contains(ty.0),
    {
        self.0.get(ty.0)
    }
}

/// The names of the types that are known, each once. A type is known by the
/// place of its name among them.
#[derive(Clone, Debug)]
pub struct Types {
    pub strings: Vec<String>,
}

impl Types {
    /// No name occurs twice, and every place among the names is a type.
    pub open spec fn wf(&self) -> bool {
        &&& self.strings@.len() <= 256
        &&& forall|i: int, j: int|
            0 <= i < j < self.strings@.len() ==> (#[trigger] self.strings@[i])@ != (
            #[trigger] self.strings@[j])@
    }

    /// `name` is the name at the place `i`.
    pub open spec fn names(&self, i: int, name: Seq<char>) -> bool {
        0 <= i < self.strings@.len() && self.strings@[i]@ == name
    }

    pub fn new() -> (types: Self)
        ensures
            types.wf(),
            types.strings@.len() == 0,
    {
        Types { strings: Vec::new() }
    }

    /// The type of the name `value`, if it is known.
    pub fn resolve(&self, value: &str) -> (r: Option<Type>)
        requires
            self.wf(),
        ensures
            match r {
                Some(ty) => self.names(ty.0 as int, value@),
                None => forall|i: int| !self.names(i, value@),
            },
    {
        let mut i: usize = 0;
        while i < self.strings.len()
            invariant
                i <= self.strings@.len() <= 256,
                forall|k: int| 0 <= k < i ==> !self.names(k, value@),
            decreases self.strings@.len() - i,
        {
            if same_text(self.strings[i].as_str(), value) {
                return Some(Type(i as u8));
            }
            i += 1;
        }
        None
    }

    /// The name of the type `id`, if there is such a type.
    pub fn get(&self, id: Type) -> (r: Option<&String>)
        ensures
            match r {
                Some(name) => id.0 < self.strings@.len() && *name == self.strings@[id.0 as int],
                None => id.0 >= self.strings@.len(),
            },
    {
        if (id.0 as usize) < self.strings.len() {
            Some(&self.strings[id.0 as usize])
        } else {
            None
        }
    }

    /// Makes the name `value` known, unless it is known already or there is
    /// no place left for it; gives its type where it is known then.
    pub fn intern(&mut self, value: &str) -> (r: Option<Type>)
        requires
            old(self).wf(),
        ensures
            final(self).wf(),
            old(self).strings@.len() <= final(self).strings@.len(),
            forall|i: int|
                0 <= i < old(self).strings@.len() ==> final(self).strings@[i] == old(
                    self,
                ).strings@[i],
            match r {
                Some(ty) => final(self).names(ty.0 as int, value@),
                None => final(self).strings@.len() == 256 && forall|i: int|
                    !final(self).names(i, value@),
            },
    {
        match self.resolve(value) {
            Some(ty) => Some(ty),
            None => {
                if self.strings.len() >= 256 {
                    return None;
                }
                let at = self.strings.len();
                let ghost before = self.strings@;
                self.strings.push(value.to_owned());
                proof {
                    assert forall|i: int, j: int|
                        0 <= i < j < self.strings@.len() implies (#[trigger] self.strings@[i])@ != (
                    #[trigger] self.strings@[j])@ by {
                        if j == at {
                            assert(!old(self).names(i, value@));
                            assert(self.strings@[i] == before[i]);
                        } else {
                            assert(self.strings@[i] == before[i]);
                            assert(self.strings@[j] == before[j]);
                        }
                    }
                }
                Some(Type(at as u8))
            },
        }
    }
}

} // verus!
