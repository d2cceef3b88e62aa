//! The headings, breaks and indented lines of a document of the IETF.

use crate::text::{
    is_prefix, lines, lines_of, run_end, strip_prefix, trim_end, trim_end_matches, trim_start,
    trimmed_end, trimmed_start, white_start,
};
use vstd::prelude::*;
use vstd::string::*;

verus! {

/// What a line of a document is.
#[derive(Clone, Debug, PartialEq, Eq)]
pub enum Token {
    /// The heading of a section or of an appendix.
    Section { id: String, title: String, line: usize },
    /// An empty line.
    Break { line: usize },
    /// An indented line.
    Content { value: String, line: usize },
}

/// What a token says.
pub enum Item {
    Section { id: Seq<char>, title: Seq<char>, line: int },
    Break { line: int },
    Content { value: Seq<char>, line: int },
}

impl Token {
    /// What the token says.
    pub open spec fn view(&self) -> Item {
        match self {
            Token::Section { id, title, line } => Item::Section {
                id: id@,
                title: title@,
                line: *line as int,
            },
            Token::Break { line } => Item::Break { line: *line as int },
            Token::Content { value, line } => Item::Content { value: value@, line: *line as int },
        }
    }
}

/// `c` is one of the letters `A` to `Z`.
pub open spec fn upper(c: char) -> bool {
    'A' <= c <= 'Z'
}

/// `c` can stand in the number of a section: a digit or a dot.
pub open spec fn in_number(c: char) -> bool {
    '0' <= c <= '9' || c == '.'
}

/// The number of digits and dots with which `s` starts.
pub open spec fn number_len(s: Seq<char>) -> nat
    decreases s.len(),
{
    if s.len() > 0 && in_number(s.first()) {
        1 + number_len(s.drop_first())
    } else {
        0
    }
}

/// Where the first `k` characters of a text are digits and dots, the text
/// starts with that many and with those that what follows them starts with.
proof fn lemma_number_len_skip(s: Seq<char>, k: int)
    requires
        0 <= k <= s.len(),
        forall|i: int| 0 <= i < k ==> in_number(s[i]),
    ensures
        number_len(s) == k + number_len(s.skip(k)),
    decreases k,
{
    if k == 0 {
        assert(s.skip(0) =~= s);
    } else {
        assert(s.drop_first().skip(k - 1) =~= s.skip(k));
        lemma_number_len_skip(s.drop_first(), k - 1);
    }
}

/// How many characters the letter before the number of an appendix section
/// takes, with its dot: two where the line starts with a letter and a dot,
/// else none.
pub open spec fn letter_len(s: Seq<char>) -> int {
    if s.len() >= 2 && upper(s[0]) && s[1] == '.' {
        2
    } else {
        0
    }
}

/// The heading of a section, if the line is one: its number, which is a
/// letter with a dot, if any, and then digits and dots, one at least; and
/// its title, which is what follows the white space behind the number.
/// Without such white space the line is no heading.
pub open spec fn section_header(s: Seq<char>) -> Option<(Seq<char>, Seq<char>)> {
    let p = letter_len(s);
    let k = number_len(s.skip(p));
    let after = s.skip(p + k);
    if k >= 1 && white_start(after) >= 1 {
        Some((s.take(p + k), after.skip(white_start(after) as int)))
    } else {
        None
    }
}

/// The heading of an appendix, if the line is one: `Appendix`, a space, a
/// letter with a dot, which is its number, white space, and its title.
pub open spec fn appendix_header(s: Seq<char>) -> Option<(Seq<char>, Seq<char>)> {
    let n = "Appendix "@.len() as int;
    let after = s.skip(n + 2);
    if is_prefix("Appendix "@, s) && s.len() >= n + 2 && upper(s[n]) && s[n + 1] == '.'
        && white_start(after) >= 1 {
        Some((s.subrange(n, n + 2), after.skip(white_start(after) as int)))
    } else {
        None
    }
}

/// The token of a heading: its number without the dots at its end, and its
/// title without the white space around it.
pub open spec fn section_item(header: (Seq<char>, Seq<char>), line: int) -> Item {
    Item::Section {
        id: header.0.take(header.0.len() - run_end(header.0, '.')),
        title: trimmed_end(trimmed_start(header.1)),
        line,
    }
}

/// What the line with the number `lineno` is: a break if it is empty, a
/// section if it is a heading, a break if it holds white space only, content
/// if it is indented, and nothing otherwise.
pub open spec fn line_item(s: Seq<char>, lineno: int) -> Option<Item> {
    if s.len() == 0 {
        Some(Item::Break { line: lineno })
    } else if section_header(s) is Some {
        Some(section_item(section_header(s)->0, lineno))
    } else if appendix_header(s) is Some {
        Some(section_item(appendix_header(s)->0, lineno))
    } else if trimmed_start(s).len() == 0 {
        Some(Item::Break { line: lineno })
    } else if white_start(s) > 0 {
        Some(Item::Content { value: s, line: lineno })
    } else {
        None
    }
}

/// Whether `c` is one of the letters `A` to `Z`.
fn is_upper(c: char) -> (b: bool)
    ensures
        b == upper(c),
{
    'A' <= c && c <= 'Z'
}

/// Whether `c` is a digit or a dot.
fn is_in_number(c: char) -> (b: bool)
    ensures
        b == in_number(c),
{
    ('0' <= c && c <= '9') || c == '.'
}

/// What follows the white space with which `s` starts, if it starts with
/// any.
fn after_white<'a>(s: &'a str) -> (r: Option<&'a str>)
    ensures
        r is Some <==> white_start(s@) >= 1,
        r matches Some(rest) ==> rest@ == s@.skip(white_start(s@) as int),
{
    let rest = trim_start(s);
    proof {
        crate::text::lemma_white_start(s@);
    }
    if rest.unicode_len() < s.unicode_len() {
        Some(rest)
    } else {
        None
    }
}

/// The number and the title of the heading of a section, if the line is one.
pub fn match_section<'a>(line: &'a str) -> (r: Option<(&'a str, &'a str)>)
    ensures
        r is Some <==> section_header(line@) is Some,
        r matches Some(found) ==> section_header(line@) == Some((found.0@, found.1@)),
{
    let n = line.unicode_len();
    let p: usize = if n >= 2 && is_upper(line.get_char(0)) && line.get_char(1) == '.' {
        2
    } else {
        0
    };
    let mut k: usize = p;
    while k < n && is_in_number(line.get_char(k))
        invariant
            p <= k <= n,
            n == line@.len(),
            forall|i: int| p <= i < k ==> in_number(line@[i]),
        decreases n - k,
    {
        k += 1;
    }
    proof {
        let tail = line@.skip(p as int);
        assert forall|i: int| 0 <= i < k - p implies in_number(tail[i]) by {
            assert(tail[i] == line@[p + i]);
        }
        lemma_number_len_skip(tail, k - p);
        assert(tail.skip(k - p) =~= line@.skip(k as int));
        assert(number_len(line@.skip(k as int)) == 0);
        assert(line@.subrange(0, k as int) =~= line@.take(k as int));
        assert(line@.subrange(k as int, n as int) =~= line@.skip(k as int));
    }
    if k == p {
        return None;
    }
    let id = line.substring_char(0, k);
    let after = line.substring_char(k, n);
    match after_white(after) {
        Some(title) => Some((id, title)),
        None => None,
    }
}

/// The number and the title of the heading of an appendix, if the line is
/// one.
pub fn match_appendix<'a>(line: &'a str) -> (r: Option<(&'a str, &'a str)>)
    ensures
        r is Some <==> appendix_header(line@) is Some,
        r matches Some(found) ==> appendix_header(line@) == Some((found.0@, found.1@)),
{
    let rest = match strip_prefix(line, "Appendix ") {
        Some(rest) => rest,
        None => {
            return None;
        },
    };
    let ghost n = "Appendix "@.len() as int;
    let m = rest.unicode_len();
    if m < 2 {
        return None;
    }
    proof {
        assert(rest@[0] == line@[n]);
        assert(rest@[1] == line@[n + 1]);
    }
    if !(is_upper(rest.get_char(0)) && rest.get_char(1) == '.') {
        return None;
    }
    let id = rest.substring_char(0, 2);
    let after = rest.substring_char(2, m);
    proof {
        assert(rest@.subrange(0, 2) =~= line@.subrange(n, n + 2));
        assert(rest@.subrange(2, m as int) =~= line@.skip(n + 2));
    }
    match after_white(after) {
        Some(title) => Some((id, title)),
        None => None,
    }
}

/// The token of a heading from its number and its title as they stand.
fn section(found: (&str, &str), line: usize) -> (token: Token)
    ensures
        token@ == section_item((found.0@, found.1@), line as int),
{
    let id = trim_end_matches(found.0, '.');
    let title = trim_end(trim_start(found.1));
    Token::Section { id: id.to_owned(), title: title.to_owned(), line }
}

/// The lines of a document, taken one after the other.
pub struct Tokenizer<'a> {
    pub lines: Vec<&'a str>,
    pub contents: &'a str,
    pub lineno: usize,
}

impl<'a> Tokenizer<'a> {
    /// The lines are those of the document, and the cursor stands among
    /// them.
    pub open spec fn wf(&self) -> bool {
        &&& self.lineno <= self.lines@.len()
        &&& self.lines@.len() == lines_of(self.contents.spec_bytes()).len()
        &&& forall|i: int|
            0 <= i < self.lines@.len() ==> (#[trigger] self.lines@[i]).spec_bytes() == lines_of(
                self.contents.spec_bytes(),
            )[i]
    }

    /// What the line with the number `n` is; the first line has the number 0.
    pub open spec fn item(&self, n: int) -> Option<Item> {
        line_item(self.lines@[n]@, n)
    }

    pub fn new(contents: &'a str) -> (t: Self)
        ensures
            t.wf(),
            t.lineno == 0,
            t.contents == contents,
    {
        Self { lines: lines(contents), contents, lineno: 0 }
    }

    /// The token of the next line, if it has one.
    fn on_line(&mut self, line: &'a str) -> (r: Option<Token>)
        requires
            old(self).lineno < usize::MAX,
        ensures
            final(self).lineno == old(self).lineno + 1,
            final(self).lines == old(self).lines,
            final(self).contents == old(self).contents,
            r is Some <==> line_item(line@, old(self).lineno as int) is Some,
            r matches Some(token) ==> Some(token@) == line_item(line@, old(self).lineno as int),
    {
        let lineno = self.lineno;
        self.lineno += 1;

        if line.unicode_len() == 0 {
            return Some(Token::Break { line: lineno });
        }

        match match_section(line) {
            Some(found) => {
                return Some(section(found, lineno));
            },
            None => {},
        }

        match match_appendix(line) {
            Some(found) => {
                return Some(section(found, lineno));
            },
            None => {},
        }

        let trimmed = trim_start(line);
        proof {
            crate::text::lemma_white_start(line@);
        }

        if trimmed.unicode_len() == 0 {
            return Some(Token::Break { line: lineno });
        }

        if trimmed.unicode_len() != line.unicode_len() {
            return Some(Token::Content { value: line.to_owned(), line: lineno });
        }

        None
    }

    /// The next token: that of the first line from the cursor on that has
    /// one; none when no such line is left.
    pub fn next(&mut self) -> (r: Option<Token>)
        requires
            old(self).wf(),
        ensures
            final(self).wf(),
            final(self).lines == old(self).lines,
            final(self).contents == old(self).contents,
            old(self).lineno <= final(self).lineno,
            match r {
                Some(token) => {
                    &&& old(self).lineno < final(self).lineno
                    &&& Some(token@) == final(self).item(final(self).lineno - 1)
                    &&& forall|n: int|
                        old(self).lineno <= n < final(self).lineno - 1 ==> final(self).item(n) is None
                },
                None => {
                    &&& final(self).lineno == final(self).lines@.len()
                    &&& forall|n: int|
                        old(self).lineno <= n < final(self).lineno ==> final(self).item(n) is None
                },
            },
    {
        loop
            invariant
                self.wf(),
                self.lines == old(self).lines,
                self.contents == old(self).contents,
                old(self).lineno <= self.lineno,
                forall|n: int| old(self).lineno <= n < self.lineno ==> self.item(n) is None,
            decreases self.lines@.len() - self.lineno,
        {
            if self.lineno >= self.lines.len() {
                return None;
            }
            let line = self.lines[self.lineno];
            let ghost before = *self;
            let found = self.on_line(line);
            proof {
                assert(self.lines@[self.lineno - 1] == line);
                assert(self.item(self.lineno - 1) == line_item(line@, self.lineno - 1));
                assert forall|n: int| old(self).lineno <= n < self.lineno - 1 implies self.item(
                    n,
                ) is None by {
                    assert(before.item(n) is None);
                }
            }
            match found {
                Some(token) => {
                    return Some(token);
                },
                None => {},
            }
        }
    }
}

} // verus!
