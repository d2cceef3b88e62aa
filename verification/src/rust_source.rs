//! Annotating the sources of Rust programs.

use vstd::prelude::*;

verus! {

/// The annotator of Rust sources.
#[derive(Default)]
pub struct RustSrc {
    pub config: Config,
}

/// What the annotator of Rust sources can be told; nothing yet.
#[derive(Default)]
pub struct Config {}

/// A place in a source: its line, counted from 1, and its column, counted
/// from 0.
#[derive(Clone, Copy, Debug, PartialEq, Eq, Structural)]
pub struct LineColumn {
    pub line: usize,
    pub column: usize,
}

/// A piece of a source, from one place up to another.
#[derive(Clone, Copy, Debug, PartialEq, Eq, Structural)]
pub struct Span {
    pub start: LineColumn,
    pub end: LineColumn,
}

impl Span {
    /// The places of the span are within what lines and columns can be
    /// looked up.
    pub open spec fn wf(self) -> bool {
        &&& 1 <= self.start.line <= u32::MAX
        &&& 1 <= self.end.line <= u32::MAX
        &&& self.start.column < u32::MAX
        &&& self.end.column <= u32::MAX
    }
}

/// A line, counted from 0, and a column.
pub type Place = (u32, u32);

/// What is looked up to mark a span: the places of its start and of its end.
/// An empty span is not marked.
pub fn on_span(span: Span) -> (r: Option<(Place, Place)>)
    requires
        span.wf(),
    ensures
        r == if span.start == span.end {
            None
        } else {
            Some(
                (
                    ((span.start.line - 1) as u32, span.start.column as u32),
                    ((span.end.line - 1) as u32, span.end.column as u32),
                ),
            )
        },
{
    let start = span.start;
    let end = span.end;
    // if it's empty don't record anything
    if start.line == end.line && start.column == end.column {
        return None;
    }
    Some((((start.line - 1) as u32, start.column as u32), ((end.line - 1) as u32, end.column as u32)))
}

/// What is looked up to mark a span that is opened and closed by one
/// character each, such as a pair of brackets: the places of the character
/// that opens it, and those of the one that closes it. An empty span is not
/// marked.
pub fn on_grouped_span(span: Span) -> (r: Option<((Place, Place), (Place, Place))>)
    requires
        span.wf(),
        span.end.column >= 1,
    ensures
        r == if span.start == span.end {
            None
        } else {
            Some(
                (
                    (
                        ((span.start.line - 1) as u32, span.start.column as u32),
                        ((span.start.line - 1) as u32, (span.start.column + 1) as u32),
                    ),
                    (
                        ((span.end.line - 1) as u32, (span.end.column - 1) as u32),
                        ((span.end.line - 1) as u32, span.end.column as u32),
                    ),
                ),
            )
        },
{
    let start = span.start;
    let end = span.end;
    // if it's empty don't record anything
    if start.line == end.line && start.column == end.column {
        return None;
    }
    let open = (
        ((start.line - 1) as u32, start.column as u32),
        ((start.line - 1) as u32, (start.column + 1) as u32),
    );
    let close = (
        ((end.line - 1) as u32, (end.column - 1) as u32),
        ((end.line - 1) as u32, end.column as u32),
    );
    Some((open, close))
}

} // verus!
