//! The tokens of the citations in a text, one after the other.

use crate::analysis::tokenizer::{self, line_item, Item};
use crate::text::{lemma_lines_bounds, lines, lines_of};
use vstd::prelude::*;
use vstd::string::*;

verus! {

/// The place of a token: its line, counted from 1, and how far the line is
/// indented.
#[derive(Clone, Copy, Debug, PartialEq, Eq, Structural)]
pub struct Location {
    pub line: u32,
    pub indent: u32,
}

impl Location {
    pub fn new(line: usize, indent: usize) -> (l: Self)
        requires
            line < u32::MAX,
            indent < u32::MAX,
        ensures
            l.line == line,
            l.indent == indent,
    {
        Self { line: line as u32, indent: indent as u32 }
    }
}

/// A line of a citation.
#[derive(Clone, Debug, PartialEq, Eq)]
pub enum Token {
    /// Meta data with a key: `key=value`.
    Meta { location: Location, key: String, value: String },
    /// Meta data without a key.
    UnnamedMeta { location: Location, value: String },
    /// Content.
    Content { location: Location, value: String },
}

impl Token {
    /// What the token says.
    pub open spec fn view(&self) -> Item {
        match self {
            Token::Meta { location, key, value } => Item::Meta {
                line: location.line as int,
                indent: location.indent as int,
                key: key@,
                value: value@,
            },
            Token::UnnamedMeta { location, value } => Item::UnnamedMeta {
                line: location.line as int,
                indent: location.indent as int,
                value: value@,
            },
            Token::Content { location, value } => Item::Content {
                line: location.line as int,
                indent: location.indent as int,
                value: value@,
            },
        }
    }
}

/// What the lines of citations start with: `meta_prefix` before a line of
/// meta data, `content_prefix` before a line of content.
#[derive(Clone, Copy, Debug)]
pub struct Tokenizer<'a> {
    pub meta_prefix: &'a str,
    pub content_prefix: &'a str,
}

/// The tokens of a text, one after the other.
pub struct Iter<'a> {
    pub tokenizer: Tokenizer<'a>,
    pub lines: Vec<&'a str>,
    pub contents: &'a str,
    pub lineno: usize,
}

impl<'a> Tokenizer<'a> {
    /// The tokens of `contents`, from its first line on.
    pub fn tokenize(self, contents: &'a str) -> (it: Iter<'a>)
        requires
            contents.spec_bytes().len() < u32::MAX,
        ensures
            it.wf(),
            it.lineno == 0,
            it.contents == contents,
            it.tokenizer == self,
    {
        Iter::new(self, contents)
    }
}

impl<'a> Iter<'a> {
    /// The lines are those of the text, and the cursor stands among them.
    pub open spec fn wf(&self) -> bool {
        &&& self.contents.spec_bytes().len() < u32::MAX
        &&& self.lineno <= self.lines@.len()
        &&& self.lines@.len() == lines_of(self.contents.spec_bytes()).len()
        &&& forall|i: int|
            0 <= i < self.lines@.len() ==> (#[trigger] self.lines@[i]).spec_bytes() == lines_of(
                self.contents.spec_bytes(),
            )[i]
    }

    /// What the line with the number `n` says; the first line has the number 1.
    pub open spec fn item(&self, n: int) -> Option<Item> {
        line_item(
            self.lines@[n - 1]@,
            n,
            self.tokenizer.meta_prefix@,
            self.tokenizer.content_prefix@,
        )
    }

    fn new(tokenizer: Tokenizer<'a>, contents: &'a str) -> (it: Self)
        requires
            contents.spec_bytes().len() < u32::MAX,
        ensures
            it.wf(),
            it.lineno == 0,
            it.contents == contents,
            it.tokenizer == tokenizer,
    {
        Self { tokenizer, contents, lines: lines(contents), lineno: 0 }
    }

    /// The token of the next line, if that is a line of a citation.
    fn on_line(&mut self, line: &str) -> (r: Option<Token>)
        requires
            old(self).lineno + 1 < u32::MAX,
            line.spec_bytes().len() < u32::MAX,
        ensures
            final(self).lineno == old(self).lineno + 1,
            final(self).lines == old(self).lines,
            final(self).contents == old(self).contents,
            final(self).tokenizer == old(self).tokenizer,
            r is Some <==> line_item(
                line@,
                final(self).lineno as int,
                old(self).tokenizer.meta_prefix@,
                old(self).tokenizer.content_prefix@,
            ) is Some,
            r matches Some(token) ==> Some(token@) == line_item(
                line@,
                final(self).lineno as int,
                old(self).tokenizer.meta_prefix@,
                old(self).tokenizer.content_prefix@,
            ),
    {
        self.lineno += 1;

        match tokenizer::on_line(
            self.lineno,
            line,
            self.tokenizer.meta_prefix,
            self.tokenizer.content_prefix,
        ) {
            Some(tokenizer::Token::Meta { location, key, value }) => Some(
                Token::Meta {
                    location: Location { line: location.line, indent: location.indent },
                    key,
                    value,
                },
            ),
            Some(tokenizer::Token::UnnamedMeta { location, value }) => Some(
                Token::UnnamedMeta {
                    location: Location { line: location.line, indent: location.indent },
                    value,
                },
            ),
            Some(tokenizer::Token::Content { location, value }) => Some(
                Token::Content {
                    location: Location { line: location.line, indent: location.indent },
                    value,
                },
            ),
            None => None,
        }
    }

    /// The next token: that of the first line from the cursor on that is a
    /// line of a citation; none when no such line is left.
    pub fn next(&mut self) -> (r: Option<Token>)
        requires
            old(self).wf(),
        ensures
            final(self).wf(),
            final(self).lines == old(self).lines,
            final(self).contents == old(self).contents,
            final(self).tokenizer == old(self).tokenizer,
            old(self).lineno <= final(self).lineno,
            match r {
                Some(token) => {
                    &&& old(self).lineno < final(self).lineno
                    &&& Some(token@) == final(self).item(final(self).lineno as int)
                    &&& forall|n: int|
                        old(self).lineno < n < final(self).lineno ==> final(self).item(n) is None
                },
                None => {
                    &&& final(self).lineno == final(self).lines@.len()
                    &&& forall|n: int|
                        old(self).lineno < n <= final(self).lineno ==> final(self).item(n) is None
                },
            },
    {
        proof {
            lemma_lines_bounds(self.contents.spec_bytes());
        }
        loop
            invariant
                self.wf(),
                self.lines == old(self).lines,
                self.contents == old(self).contents,
                self.tokenizer == old(self).tokenizer,
                old(self).lineno <= self.lineno,
                self.lines@.len() <= self.contents.spec_bytes().len(),
                forall|i: int|
                    0 <= i < self.lines@.len() ==> (#[trigger] lines_of(
                        self.contents.spec_bytes(),
                    )[i]).len() <= self.contents.spec_bytes().len(),
                forall|n: int| old(self).lineno < n <= self.lineno ==> self.item(n) is None,
            decreases self.lines@.len() - self.lineno,
        {
            if self.lineno >= self.lines.len() {
                return None;
            }
            let line = self.lines[self.lineno];
            proof {
                assert(line.spec_bytes() == lines_of(self.contents.spec_bytes())[self.lineno as int]);
            }
            let ghost before = *self;
            let found = self.on_line(line);
            proof {
                assert(self.lines@[self.lineno - 1] == line);
                assert(self.item(self.lineno as int) == line_item(
                    line@,
                    self.lineno as int,
                    self.tokenizer.meta_prefix@,
                    self.tokenizer.content_prefix@,
                ));
                assert forall|n: int| old(self).lineno < n < self.lineno implies self.item(
                    n,
                ) is None by {
                    assert(before.item(n) is None);
                }
            }
            match found {
                Some(token) => {
                    return Some(token);
                },
                None => {},
            }
        }
    }
}

} // verus!
