//! The first form.

use vstd::prelude::*;

verus! {

/// How annotations stand in the comments of a source: what a line of meta
/// data starts with, and what a line of content starts with.
#[derive(Debug)]
pub struct CommentStyle {
    pub meta: String,
    pub content: String,
}

/// A document of the IETF that is cited.
#[derive(Debug)]
pub struct Ietf {
    pub id: String,
    pub title: Option<String>,
    pub url: String,
    pub aliases: Vec<String>,
}

} // verus!
