//! Attributes of entities: each is known by a path, and stored under the
//! digest of that path.

use core::marker::PhantomData;
use vstd::prelude::*;
use vstd::string::*;

verus! {

/// The SHA-1 digest of `data`: twenty bytes.
pub uninterp spec fn sha1_digest(data: Seq<u8>) -> Seq<u8>;

/// The SHA-1 digest of `data`. The calls are `const_sha1::sha1` and
/// `Digest::as_bytes`, which give the twenty bytes of the digest of the bytes
/// handed in.
#[verifier::external_body]
fn sha1(data: &[u8]) -> (digest: [u8; 20])
    ensures
        digest@ == sha1_digest(data@),
{
    const_sha1::sha1(data).as_bytes()
}

/// An attribute with values of the type `T`.
#[derive(PartialEq, PartialOrd, Eq, Ord)]
pub struct Attribute<T> {
    pub key: [u8; 20],
    pub path: &'static str,
    pub value: PhantomData<T>,
}

impl<T> Clone for Attribute<T> {
    fn clone(&self) -> (a: Self)
        ensures
            a == *self,
    {
        Self { key: self.key, path: self.path, value: PhantomData }
    }
}

impl<T> Copy for Attribute<T> {

}

/// An attribute as something else depends on it, whatever the type of its
/// values.
pub struct Dependency {
    pub key: [u8; 20],
    pub path: &'static str,
}

impl<T> Attribute<T> {
    /// The attribute that is known by `path`.
    pub fn new(path: &'static str) -> (a: Self)
        ensures
            a.path == path,
            a.key@ == sha1_digest(path.spec_bytes()),
    {
        Self { key: sha1(path.as_bytes()), path, value: PhantomData }
    }

    /// The attribute as a dependency.
    pub fn dependency(&self) -> (d: Dependency)
        ensures
            d.key == self.key,
            d.path == self.path,
    {
        Dependency { key: self.key, path: self.path }
    }

    /// The key under which the value of this attribute is stored for the
    /// entity `id`: the entity, then the attribute.
    pub fn prefix_with(&self, id: u32) -> (out: Vec<u8>)
        ensures
            out@ == crate::schema::be_bytes(id) + self.key@,
    {
        let mut out: Vec<u8> = Vec::new();
        crate::schema::push_be(&mut out, id);
        crate::schema::extend(&mut out, self.key.as_slice());
        out
    }

    /// The key under which the entity `id` is listed for this attribute: the
    /// attribute, then the entity.
    pub fn suffix_with(&self, id: u32) -> (out: Vec<u8>)
        ensures
            out@ == self.key@ + crate::schema::be_bytes(id),
    {
        let mut out: Vec<u8> = Vec::new();
        crate::schema::extend(&mut out, self.key.as_slice());
        crate::schema::push_be(&mut out, id);
        out
    }

    /// The path by which the attribute is known.
    pub fn to_string(&self) -> (s: String)
        ensures
            s@ == self.path@,
    {
        self.path.to_owned()
    }
}

} // verus!
