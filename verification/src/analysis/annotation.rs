//! Citations as they are found in annotated sources.

use vstd::prelude::*;

verus! {

/// A citation: the document that is cited, and the type of the citation.
#[derive(Debug, PartialEq, Eq, Hash)]
pub struct Citation {
    pub document: String,
    pub ty: u32,
}

/// The citations of one source, in the order in which they stand in it.
#[derive(Debug, PartialEq, Eq)]
pub struct Citations(pub Vec<Citation>);

impl Citations {
    /// The number of citations.
    pub fn len(&self) -> (n: usize)
        ensures
            n == self.0@.len(),
    {
        self.0.len()
    }
}

/// Which files are read for citations, and the type of a citation that names
/// none.
#[derive(Debug, PartialEq, Eq, Hash)]
pub struct Analysis {
    pub patterns: Vec<String>,
    pub default_type: u32,
}

} // verus!
