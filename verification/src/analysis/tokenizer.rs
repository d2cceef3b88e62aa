//! The annotations in the comments of a source, line by line: lines of meta
//! data and lines of content, each known by what it starts with.

use crate::text::{
    index_of, is_prefix, lines, lines_of, split_once, strip_prefix, trim_end, trim_start,
    trimmed_end, trimmed_start, lemma_white_start,
};
use vstd::prelude::*;
use vstd::string::*;
use vstd::utf8::*;

verus! {

/// The place of a token: its line, and how far the line is indented.
#[derive(Clone, Copy, Debug, PartialEq, Eq, Structural)]
pub struct Location {
    pub line: u32,
    pub indent: u32,
}

impl Location {
    pub fn new(line: usize, indent: usize) -> (l: Self)
        requires
            line < u32::MAX,
            indent < u32::MAX,
        ensures
            l.line == line,
            l.indent == indent,
    {
        Self { line: line as u32, indent: indent as u32 }
    }
}

/// A line of an annotation.
#[derive(Clone, Debug, PartialEq, Eq)]
pub enum Token {
    /// Meta data with a key: `key=value`.
    Meta { location: Location, key: String, value: String },
    /// Meta data without a key.
    UnnamedMeta { location: Location, value: String },
    /// Content.
    Content { location: Location, value: String },
}

/// What a token says: where it stands, and its texts.
pub enum Item {
    Meta { line: int, indent: int, key: Seq<char>, value: Seq<char> },
    UnnamedMeta { line: int, indent: int, value: Seq<char> },
    Content { line: int, indent: int, value: Seq<char> },
}

impl Token {
    /// What the token says.
    pub open spec fn view(&self) -> Item {
        match self {
            Token::Meta { location, key, value } => Item::Meta {
                line: location.line as int,
                indent: location.indent as int,
                key: key@,
                value: value@,
            },
            Token::UnnamedMeta { location, value } => Item::UnnamedMeta {
                line: location.line as int,
                indent: location.indent as int,
                value: value@,
            },
            Token::Content { location, value } => Item::Content {
                line: location.line as int,
                indent: location.indent as int,
                value: value@,
            },
        }
    }
}

/// What each of the tokens says.
pub open spec fn items_of(tokens: Seq<Token>) -> Seq<Item> {
    Seq::new(tokens.len(), |i: int| tokens[i].view())
}

/// The tokens of a source, in the order of its lines.
#[derive(Debug, PartialEq, Eq)]
pub struct Tokens(pub Vec<Token>);

/// Which files are read for annotations, and what their lines start with:
/// `meta_prefix` before a line of meta data, `content_prefix` before a line
/// of content.
#[derive(Debug, PartialEq, Eq, Hash)]
pub struct Analysis {
    pub patterns: Vec<String>,
    pub meta_prefix: String,
    pub content_prefix: String,
}

impl Default for Analysis {
    fn default() -> (a: Self)
        ensures
            a.patterns@.len() == 0,
            a.meta_prefix@ == "//="@,
            a.content_prefix@ == "//#"@,
    {
        Self {
            patterns: Vec::new(),
            meta_prefix: "//=".to_owned(),
            content_prefix: "//#".to_owned(),
        }
    }
}

/// How many bytes of white space a line starts with.
pub open spec fn indent_of(line: Seq<char>) -> int {
    encode_utf8(line).len() - encode_utf8(trimmed_start(line)).len()
}

/// What a line of meta data says, from what follows its prefix: a key and a
/// value where it has an equals sign, and a value alone where it has none.
pub open spec fn meta_item(meta: Seq<char>, line: int, indent: int) -> Item {
    let text = trimmed_start(meta);
    let at = index_of(text, '=');
    if at < text.len() {
        Item::Meta {
            line,
            indent,
            key: trimmed_end(text.take(at)),
            value: trimmed_start(text.skip(at + 1)),
        }
    } else {
        Item::UnnamedMeta { line, indent, value: trimmed_end(text) }
    }
}

/// What a line says, if it is a line of an annotation: behind its white
/// space it starts with the prefix of meta data, or else with the prefix of
/// content.
pub open spec fn line_item(line: Seq<char>, lineno: int, meta: Seq<char>, content: Seq<char>) -> Option<
    Item,
> {
    let text = trimmed_start(line);
    if text.len() == 0 {
        None
    } else if is_prefix(meta, text) {
        Some(meta_item(text.skip(meta.len() as int), lineno, indent_of(line)))
    } else if is_prefix(content, text) {
        Some(
            Item::Content {
                line: lineno,
                indent: indent_of(line),
                value: text.skip(content.len() as int),
            },
        )
    } else {
        None
    }
}

/// What the first `n` of the lines say, where the first line has the number
/// `first`.
pub open spec fn line_items(
    lines: Seq<Seq<u8>>,
    n: int,
    first: int,
    meta: Seq<char>,
    content: Seq<char>,
) -> Seq<Item>
    decreases n,
{
    if n <= 0 {
        Seq::empty()
    } else {
        let before = line_items(lines, n - 1, first, meta, content);
        match line_item(decode_utf8(lines[n - 1]), first + n - 1, meta, content) {
            Some(item) => before.push(item),
            None => before,
        }
    }
}

/// What is left of a text behind some of its characters has no more bytes
/// than the text.
pub proof fn lemma_skip_bytes(s: Seq<char>, k: int)
    requires
        0 <= k <= s.len(),
    ensures
        encode_utf8(s.skip(k)).len() <= encode_utf8(s).len(),
    decreases k,
{
    if k == 0 {
        assert(s.skip(0) =~= s);
    } else {
        assert(s.drop_first().skip(k - 1) =~= s.skip(k));
        lemma_skip_bytes(s.drop_first(), k - 1);
    }
}

/// The token of a line of meta data, from what follows its prefix.
pub fn on_meta(meta: &str, location: Location) -> (token: Token)
    ensures
        token@ == meta_item(meta@, location.line as int, location.indent as int),
{
    let text = trim_start(meta);
    let (key, rest) = split_once(text, '=');
    let key = trim_end(key);
    match rest {
        Some(value) => {
            let value = trim_start(value);
            Token::Meta { key: key.to_owned(), value: value.to_owned(), location }
        },
        None => {
            proof {
                crate::text::lemma_index_of(text@, '=');
                assert(text@.take(text@.len() as int) =~= text@);
            }
            Token::UnnamedMeta { value: key.to_owned(), location }
        },
    }
}

/// The token of a line of content, from what follows its prefix.
pub fn on_content(content: &str, location: Location) -> (token: Token)
    ensures
        token@ == (Item::Content {
            line: location.line as int,
            indent: location.indent as int,
            value: content@,
        }),
{
    Token::Content { location, value: content.to_owned() }
}

/// The token of the line `line` with the number `lineno`, if it is a line of
/// an annotation.
pub fn on_line(lineno: usize, line: &str, meta_prefix: &str, content_prefix: &str) -> (r: Option<
    Token,
>)
    requires
        lineno < u32::MAX,
        line.spec_bytes().len() < u32::MAX,
    ensures
        r is Some <==> line_item(line@, lineno as int, meta_prefix@, content_prefix@) is Some,
        r matches Some(token) ==> Some(token@) == line_item(
            line@,
            lineno as int,
            meta_prefix@,
            content_prefix@,
        ),
{
    let total_len = line.len();
    let text = trim_start(line);
    if text.unicode_len() == 0 {
        return None;
    }
    proof {
        lemma_white_start(line@);
        lemma_skip_bytes(line@, crate::text::white_start(line@) as int);
    }
    let indent = total_len - text.len();

    let location = Location::new(lineno, indent);

    match strip_prefix(text, meta_prefix) {
        Some(meta) => {
            return Some(on_meta(meta, location));
        },
        None => {},
    }

    match strip_prefix(text, content_prefix) {
        Some(content) => {
            return Some(on_content(content, location));
        },
        None => {},
    }

    None
}

impl Analysis {
    /// The tokens of the annotations in `contents`, in the order of its
    /// lines; the first line has the number 0.
    pub fn parse(&self, contents: &str) -> (tokens: Tokens)
        requires
            contents.spec_bytes().len() < u32::MAX,
        ensures
            items_of(tokens.0@) == line_items(
                lines_of(contents.spec_bytes()),
                lines_of(contents.spec_bytes()).len() as int,
                0,
                self.meta_prefix@,
                self.content_prefix@,
            ),
    {
        let found = lines(contents);
        let mut references: Vec<Token> = Vec::new();
        let ghost all = lines_of(contents.spec_bytes());
        let ghost meta = self.meta_prefix@;
        let ghost content = self.content_prefix@;
        proof {
            crate::text::lemma_lines_bounds(contents.spec_bytes());
            assert(items_of(references@) =~= line_items(all, 0, 0, meta, content));
        }
        let mut lineno: usize = 0;
        while lineno < found.len()
            invariant
                lineno <= found@.len(),
                found@.len() == all.len(),
                all.len() <= contents.spec_bytes().len() < u32::MAX,
                forall|i: int| 0 <= i < all.len() ==> (#[trigger] all[i]).len() < u32::MAX,
                forall|i: int| 0 <= i < found@.len() ==> (#[trigger] found@[i]).spec_bytes() == all[i],
                meta == self.meta_prefix@,
                content == self.content_prefix@,
                items_of(references@) == line_items(all, lineno as int, 0, meta, content),
            decreases found@.len() - lineno,
        {
            let line = found[lineno];
            proof {
                encode_utf8_decode_utf8(line@);
                assert(decode_utf8(all[lineno as int]) == line@);
                assert(all[lineno as int].len() < u32::MAX);
            }
            match on_line(
                lineno,
                line,
                self.meta_prefix.as_str(),
                self.content_prefix.as_str(),
            ) {
                Some(token) => {
                    proof {
                        assert(items_of(references@.push(token)) =~= items_of(references@).push(
                            token@,
                        ));
                    }
                    references.push(token);
                },
                None => {},
            }
            lineno += 1;
        }
        Tokens(references)
    }
}

} // verus!
