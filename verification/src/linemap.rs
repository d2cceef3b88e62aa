//! The lines of a text, and the offsets at which they and their columns
//! start. A line ends behind its line feed, and behind a carriage return that
//! follows the line feed at once.

use core::ops::Range;
use vstd::prelude::*;
use vstd::string::*;
use vstd::utf8::*;

verus! {

/// The length of the first line of `rest`: up to and with the first line
/// feed, and a carriage return right behind it; all of `rest` where it holds
/// no line feed.
pub open spec fn line_len(rest: Seq<u8>) -> int
    decreases rest.len(),
{
    if rest.len() == 0 {
        0
    } else if rest[0] == 10 {
        if rest.len() > 1 && rest[1] == 13 {
            2
        } else {
            1
        }
    } else {
        1 + line_len(rest.drop_first())
    }
}

/// A line is not longer than the text, not empty unless the text is, and ends
/// with a line feed or a carriage return where text follows it.
pub proof fn lemma_line_len(rest: Seq<u8>)
    ensures
        0 <= line_len(rest) <= rest.len(),
        rest.len() > 0 ==> line_len(rest) > 0,
        line_len(rest) < rest.len() ==> rest[line_len(rest) - 1] == 10 || rest[line_len(rest) - 1]
            == 13,
    decreases rest.len(),
{
    if rest.len() > 0 && rest[0] != 10 {
        lemma_line_len(rest.drop_first());
    }
}

/// In a text, a character starts behind every byte below 128.
pub proof fn lemma_boundary_after_ascii(bytes: Seq<u8>, p: int)
    requires
        valid_utf8(bytes),
        0 < p <= bytes.len(),
        bytes[p - 1] <= 0x7f,
    ensures
        is_char_boundary(bytes, p),
    decreases bytes.len(),
{
    let l = length_of_first_scalar(bytes);
    let rest = pop_first_scalar(bytes);
    assert(valid_first_scalar(bytes));
    assert(valid_utf8(rest));
    if p == l {
        is_char_boundary_start_end_of_seq(rest);
    } else if p > l {
        assert(rest[p - l - 1] == bytes[p - 1]);
        lemma_boundary_after_ascii(rest, p - l);
    }
}

/// The lines of a text, one after the other.
#[derive(Clone, Copy, Debug)]
pub struct LinesIter<'a> {
    pub content: &'a str,
    pub line: usize,
    pub offset: usize,
}

/// A place in a text that is known to be the start of a character.
pub struct Offset {
    pub offset: usize,
    /// Used to look the offset line number back up
    pub line: usize,
}

/// A line of a text, with the place at which it starts.
pub struct Line<'a> {
    pub value: &'a str,
    pub offset: Offset,
}

impl<'a> Line<'a> {
    /// The offset of the line in its text.
    pub fn offset(&self) -> (o: usize)
        ensures
            o == self.offset.offset,
    {
        self.offset.offset
    }

    /// The number of the line; the first line is line 1.
    pub fn line(&self) -> (l: usize)
        ensures
            l == self.offset.line,
    {
        self.offset.line
    }

    /// The text of the line.
    pub fn as_str(&self) -> (s: &'a str)
        ensures
            s == self.value,
    {
        self.value
    }
}

impl<'a> LinesIter<'a> {
    /// The cursor stands at the start of a character, and the line number
    /// has not run ahead of the lines there can have been.
    pub open spec fn wf(&self) -> bool {
        &&& self.offset <= self.content.spec_bytes().len() < usize::MAX
        &&& is_char_boundary(self.content.spec_bytes(), self.offset as int)
        &&& self.line <= self.offset + 1
    }

    /// What is left of the text.
    pub open spec fn rest(&self) -> Seq<u8> {
        self.content.spec_bytes().subrange(
            self.offset as int,
            self.content.spec_bytes().len() as int,
        )
    }

    pub fn new(content: &'a str) -> (it: Self)
        requires
            content.spec_bytes().len() < usize::MAX,
        ensures
            it.wf(),
            it.content == content,
            it.offset == 0,
            it.line == 1,
    {
        proof {
            encode_utf8_valid_utf8(content@);
            is_char_boundary_start_end_of_seq(content.spec_bytes());
        }
        Self { content, offset: 0, line: 1 }
    }

    /// The next line of the text, if any is left.
    pub fn next(&mut self) -> (r: Option<Line<'a>>)
        requires
            old(self).wf(),
        ensures
            final(self).wf(),
            final(self).content == old(self).content,
            old(self).rest().len() == 0 ==> r is None && *final(self) == *old(self),
            old(self).rest().len() > 0 ==> {
                &&& r matches Some(line)
                &&& line.value.spec_bytes() == old(self).rest().take(line_len(old(self).rest()))
                &&& line.offset.offset == old(self).offset
                &&& line.offset.line == old(self).line
                &&& final(self).offset == old(self).offset + line_len(old(self).rest())
                &&& final(self).line == old(self).line + 1
            },
    {
        let bytes = self.content.as_bytes();
        let len = bytes.len();
        if self.offset >= len {
            return None;
        }
        let ghost all = self.content.spec_bytes();
        let ghost rest = self.rest();
        let start = self.offset;
        let mut end = start;
        while end < len && bytes[end] != 10
            invariant
                bytes@ == all,
                len == all.len(),
                start <= end <= len,
                rest == all.subrange(start as int, len as int),
                line_len(rest) == (end - start) + line_len(all.subrange(end as int, len as int)),
            decreases len - end,
        {
            proof {
                assert(all.subrange(end as int, len as int).drop_first() =~= all.subrange(
                    end + 1,
                    len as int,
                ));
            }
            end += 1;
        }
        if end < len {
            end += 1;
            if end < len && bytes[end] == 13 {
                end += 1;
            }
        }
        proof {
            encode_utf8_valid_utf8(self.content@);
            lemma_line_len(rest);
            assert(end - start == line_len(rest));
            if end < len {
                assert(rest[end - start - 1] == all[end - 1]);
                lemma_boundary_after_ascii(all, end as int);
            } else {
                is_char_boundary_start_end_of_seq(all);
            }
            valid_utf8_split(all, start as int);
            assert(valid_utf8(rest));
            if end < len {
                lemma_boundary_after_ascii(rest, end - start);
            } else {
                is_char_boundary_start_end_of_seq(rest);
            }
        }
        let (_, tail) = self.content.split_at(start);
        let (value, _) = tail.split_at(end - start);
        proof {
            assert(value.spec_bytes() =~= rest.take(end - start));
        }
        let line = Line { value, offset: Offset { offset: start, line: self.line } };
        self.offset = end;
        self.line = self.line + 1;
        Some(line)
    }
}

/// Where a line lies in the text: its offset and its length.
#[derive(Clone, Copy, Debug)]
pub struct LineMap {
    pub offset: usize,
    pub len: usize,
}

impl LineMap {
    /// The bytes of the line.
    pub fn range(&self) -> (r: Range<usize>)
        requires
            self.offset + self.len <= usize::MAX,
        ensures
            r.start == self.offset,
            r.end == self.offset + self.len,
    {
        self.offset..(self.offset + self.len)
    }

    /// The offset of a column of the line; none where the line is shorter.
    pub fn col_to_offset(&self, column: usize) -> (r: Option<usize>)
        requires
            self.offset + self.len <= usize::MAX,
        ensures
            r == if column < self.len {
                Some((self.offset + column) as usize)
            } else {
                None
            },
    {
        if self.len > column {
            Some(self.offset + column)
        } else {
            None
        }
    }
}

/// Where the lines of `bytes` lie from `from` on: for each its offset and its
/// length.
pub open spec fn line_maps(bytes: Seq<u8>, from: int) -> Seq<(int, int)>
    decreases bytes.len() - from,
{
    if 0 <= from < bytes.len() && 0 < line_len(bytes.subrange(from, bytes.len() as int))
        <= bytes.len() - from {
        seq![(from, line_len(bytes.subrange(from, bytes.len() as int)))] + line_maps(
            bytes,
            from + line_len(bytes.subrange(from, bytes.len() as int)),
        )
    } else {
        Seq::empty()
    }
}

/// A text with the table of its lines.
#[derive(Clone, Debug)]
pub struct Source {
    pub contents: String,
    pub lines: Vec<LineMap>,
}

impl Source {
    /// Every line of the table lies within the text, between two starts of
    /// characters.
    pub open spec fn wf(&self) -> bool {
        &&& self.bytes().len() < usize::MAX
        &&& forall|i: int|
            0 <= i < self.lines@.len() ==> {
                &&& (#[trigger] self.lines@[i]).offset + self.lines@[i].len <= self.bytes().len()
                &&& is_char_boundary(self.bytes(), self.lines@[i].offset as int)
                &&& is_char_boundary(
                    self.bytes(),
                    self.lines@[i].offset as int + self.lines@[i].len as int,
                )
            }
    }

    /// The bytes of the text.
    pub open spec fn bytes(&self) -> Seq<u8> {
        encode_utf8(self.contents@)
    }

    /// The table of the lines, as offsets and lengths.
    pub open spec fn view(&self) -> Seq<(int, int)> {
        Seq::new(
            self.lines@.len(),
            |i: int| (self.lines@[i].offset as int, self.lines@[i].len as int),
        )
    }

    /// The text with the table of all its lines.
    pub fn parse(contents: String) -> (s: Self)
        requires
            encode_utf8(contents@).len() < usize::MAX,
        ensures
            s.wf(),
            s.contents == contents,
            s@ == line_maps(encode_utf8(contents@), 0),
    {
        let mut lines: Vec<LineMap> = Vec::new();
        let ghost all = encode_utf8(contents@);
        let mut it = LinesIter::new(contents.as_str());
        let ghost mut table: Seq<(int, int)> = Seq::empty();
        loop
            invariant
                it.wf(),
                it.content.spec_bytes() == all,
                all == encode_utf8(contents@),
                table.len() == lines@.len(),
                forall|i: int|
                    0 <= i < lines@.len() ==> table[i] == (
                        (#[trigger] lines@[i]).offset as int,
                        lines@[i].len as int,
                    ),
                forall|i: int|
                    0 <= i < lines@.len() ==> {
                        &&& (#[trigger] lines@[i]).offset + lines@[i].len <= all.len()
                        &&& is_char_boundary(all, lines@[i].offset as int)
                        &&& is_char_boundary(all, lines@[i].offset as int + lines@[i].len as int)
                    },
                line_maps(all, 0) == table + line_maps(all, it.offset as int),
            decreases all.len() - it.offset,
        {
            let ghost before = it;
            match it.next() {
                Some(line) => {
                    let len = line.as_str().len();
                    proof {
                        lemma_line_len(before.rest());
                        assert(len == line_len(before.rest()));
                        table = table.push((before.offset as int, len as int));
                        assert(line_maps(all, before.offset as int) =~= seq![
                            (before.offset as int, len as int),
                        ] + line_maps(all, before.offset + len));
                    }
                    lines.push(LineMap { offset: line.offset(), len });
                },
                None => {
                    proof {
                        assert(line_maps(all, it.offset as int) =~= Seq::<(int, int)>::empty());
                    }
                    let s = Source { contents, lines };
                    assert(s@ =~= table);
                    return s;
                },
            }
        }
    }

    /// The line with the number `line`; the first line is line 1.
    pub fn line(&self, line: usize) -> (r: Option<Line<'_>>)
        requires
            self.wf(),
        ensures
            r is Some <==> 1 <= line <= self.lines@.len(),
            r matches Some(l) ==> {
                &&& l.offset.line == line
                &&& l.offset.offset == self.lines@[line - 1].offset
                &&& l.value.spec_bytes() == self.bytes().subrange(
                    self.lines@[line - 1].offset as int,
                    self.lines@[line - 1].offset + self.lines@[line - 1].len,
                )
            },
    {
        let map = match self.get_line(line) {
            Some(map) => map,
            None => {
                return None;
            },
        };
        let text = self.contents.as_str();
        proof {
            encode_utf8_valid_utf8(text@);
            valid_utf8_split(text.spec_bytes(), map.offset as int);
            let all = text.spec_bytes();
            let tail = all.subrange(map.offset as int, all.len() as int);
            lemma_boundary_within(all, map.offset as int, map.offset + map.len);
        }
        let (_, tail) = text.split_at(map.offset);
        let (value, _) = tail.split_at(map.len);
        proof {
            assert(value.spec_bytes() =~= text.spec_bytes().subrange(
                map.offset as int,
                map.offset + map.len,
            ));
        }
        Some(Line { value, offset: Offset { offset: map.offset, line } })
    }

    /// The offset of a column of a line; none where there is no such line, or
    /// where the line is shorter.
    pub fn lincol_to_offset(&self, line: usize, column: usize) -> (r: Option<Offset>)
        requires
            self.wf(),
        ensures
            r is Some <==> 1 <= line <= self.lines@.len() && column < self.lines@[line - 1].len,
            r matches Some(o) ==> o.line == line && o.offset == self.lines@[line - 1].offset
                + column,
    {
        let map = match self.get_line(line) {
            Some(map) => map,
            None => {
                return None;
            },
        };
        match map.col_to_offset(column) {
            Some(offset) => Some(Offset { offset, line }),
            None => None,
        }
    }

    /// The entry of the table for the line with the number `line`.
    fn get_line(&self, line: usize) -> (r: Option<&LineMap>)
        ensures
            r is Some <==> 1 <= line <= self.lines@.len(),
            r matches Some(m) ==> *m == self.lines@[line - 1],
    {
        // lines start at 1
        if line == 0 || line > self.lines.len() {
            return None;
        }
        Some(&self.lines[line - 1])
    }
}

/// A start of a character in a text is one in what is left of the text from
/// an earlier start of a character on.
pub proof fn lemma_boundary_within(all: Seq<u8>, from: int, to: int)
    requires
        valid_utf8(all),
        0 <= from <= to <= all.len(),
        is_char_boundary(all, from),
        is_char_boundary(all, to),
    ensures
        valid_utf8(all.subrange(from, all.len() as int)),
        is_char_boundary(all.subrange(from, all.len() as int), to - from),
{
    let tail = all.subrange(from, all.len() as int);
    valid_utf8_split(all, from);
    if to == from {
        is_char_boundary_start_end_of_seq(tail);
    } else if to == all.len() {
        is_char_boundary_start_end_of_seq(tail);
    } else {
        is_char_boundary_iff_not_is_continuation_byte(all, to);
        assert(tail[to - from] == all[to]);
        is_char_boundary_iff_not_is_continuation_byte(tail, to - from);
    }
}

} // verus!
