//! The lines of a text with 32-bit offsets: what the store keeps of a text.

use crate::linemap::{
    lemma_boundary_after_ascii, lemma_boundary_within, lemma_line_len, line_len, line_maps,
};
use core::ops::Range;
use vstd::prelude::*;
use vstd::string::*;
use vstd::utf8::*;

verus! {

/// Where a line lies in the text: its offset and its length.
#[derive(Clone, Copy, Debug)]
pub struct LineInfo {
    pub offset: u32,
    pub len: u32,
}

impl LineInfo {
    pub fn offset(self) -> (o: u32)
        ensures
            o == self.offset,
    {
        self.offset
    }

    pub fn len(self) -> (l: u32)
        ensures
            l == self.len,
    {
        self.len
    }

    pub fn is_empty(self) -> (b: bool)
        ensures
            b == (self.len == 0),
    {
        self.len() == 0
    }

    /// The bytes of the line.
    pub fn range(&self) -> (r: Range<u32>)
        requires
            self.offset + self.len <= u32::MAX,
        ensures
            r.start == self.offset,
            r.end == self.offset + self.len,
    {
        let offset = self.offset();
        let len = self.len();
        offset..(offset + len)
    }

    /// The bytes of the line, as indexes.
    pub fn range_usize(&self) -> (r: Range<usize>)
        requires
            self.offset + self.len <= usize::MAX,
        ensures
            r.start == self.offset,
            r.end == self.offset + self.len,
    {
        let offset = self.offset() as usize;
        let len = self.len() as usize;
        offset..(offset + len)
    }
}

/// The lines of a text, one after the other.
#[derive(Clone, Copy, Debug)]
pub struct LinesIter<'a> {
    pub content: &'a str,
    pub line: usize,
    pub offset: usize,
}

/// A place in a text that is known to be the start of a character.
#[derive(Clone, Copy, Debug)]
pub struct Offset {
    pub offset: u32,
    /// Used to look the offset line number back up
    pub line: u32,
}

/// A line of a text, or a part of one, with the place at which it starts.
pub struct Line<'a> {
    pub value: &'a str,
    pub offset: Offset,
}

/// `bytes` without the bytes `b` at its end.
pub open spec fn stripped(bytes: Seq<u8>, b: u8) -> Seq<u8>
    decreases bytes.len(),
{
    if bytes.len() > 0 && bytes.last() == b {
        stripped(bytes.drop_last(), b)
    } else {
        bytes
    }
}

impl<'a> Line<'a> {
    /// The line ends within the reach of its offsets.
    pub open spec fn wf(&self) -> bool {
        self.offset.offset + self.value.spec_bytes().len() <= u32::MAX
    }

    /// The offset of the line in its text.
    pub fn offset(&self) -> (o: u32)
        ensures
            o == self.offset.offset,
    {
        self.offset.offset
    }

    /// The bytes of the text that the line holds.
    pub fn range(&self) -> (r: Range<u32>)
        requires
            self.wf(),
        ensures
            r.start == self.offset.offset,
            r.end == self.offset.offset + self.value.spec_bytes().len(),
    {
        let offset = self.offset();
        offset..offset + self.value.len() as u32
    }

    /// The number of the line; the first line is line 1.
    pub fn line(&self) -> (l: u32)
        ensures
            l == self.offset.line,
    {
        self.offset.line
    }

    /// The text of the line.
    pub fn as_str(&self) -> (s: &'a str)
        ensures
            s == self.value,
    {
        self.value
    }

    /// The line without the carriage returns at its end, and without the
    /// line feeds before those.
    pub fn trim_end(&self) -> (r: Self)
        ensures
            r.offset == self.offset,
            r.value.spec_bytes() == stripped(stripped(self.value.spec_bytes(), 13), 10),
    {
        let bytes = self.value.as_bytes();
        let ghost all = self.value.spec_bytes();
        let mut end = bytes.len();
        proof {
            assert(all.take(end as int) =~= all);
        }
        while end > 0 && bytes[end - 1] == 13
            invariant
                bytes@ == all,
                end <= all.len(),
                end < all.len() ==> all[end as int] == 13,
                stripped(all, 13) == stripped(all.take(end as int), 13),
            decreases end,
        {
            proof {
                assert(all.take(end as int).drop_last() =~= all.take(end - 1));
            }
            end -= 1;
        }
        let ghost mid = all.take(end as int);
        proof {
            assert(stripped(all, 13) == mid);
            assert(mid.take(end as int) =~= mid);
        }
        while end > 0 && bytes[end - 1] == 10
            invariant
                bytes@ == all,
                end <= mid.len() <= all.len(),
                mid == all.take(mid.len() as int),
                end < all.len() ==> all[end as int] == 13 || all[end as int] == 10,
                stripped(mid, 10) == stripped(mid.take(end as int), 10),
            decreases end,
        {
            proof {
                assert(mid.take(end as int).drop_last() =~= mid.take(end - 1));
            }
            end -= 1;
        }
        proof {
            assert(stripped(mid, 10) == mid.take(end as int));
            assert(mid.take(end as int) =~= all.take(end as int));
            encode_utf8_valid_utf8(self.value@);
            if end < all.len() {
                is_char_boundary_iff_not_is_continuation_byte(all, end as int);
            } else {
                is_char_boundary_start_end_of_seq(all);
            }
        }
        let (value, _) = self.value.split_at(end);
        proof {
            assert(value.spec_bytes() =~= all.take(end as int));
        }
        Self { value, offset: self.offset }
    }

    /// The line in two parts: up to the offset `offset` of the text, and
    /// from there on.
    pub fn split_at_offset(&self, offset: u32) -> (r: (Self, Self))
        requires
            self.offset.offset <= offset,
            is_char_boundary(self.value.spec_bytes(), offset - self.offset.offset),
        ensures
            r.0.offset == self.offset,
            r.1.offset.offset == offset,
            r.1.offset.line == self.offset.line,
            r.0.value.spec_bytes() == self.value.spec_bytes().take(offset - self.offset.offset),
            r.1.value.spec_bytes() == self.value.spec_bytes().skip(offset - self.offset.offset),
    {
        let line = self.offset.line;
        let start = self.offset();
        let index = offset - start;
        let (a, b) = self.value.split_at(index as usize);
        let a = Self { value: a, offset: Offset { offset: start, line } };
        let b = Self { value: b, offset: Offset { offset, line } };
        (a, b)
    }
}

impl<'a> LinesIter<'a> {
    /// The cursor stands at the start of a character, the line number has
    /// not run ahead of the lines there can have been, and every offset of
    /// the text has 32 bits.
    pub open spec fn wf(&self) -> bool {
        &&& self.offset <= self.content.spec_bytes().len() < u32::MAX
        &&& is_char_boundary(self.content.spec_bytes(), self.offset as int)
        &&& self.line <= self.offset + 1
    }

    /// What is left of the text.
    pub open spec fn rest(&self) -> Seq<u8> {
        self.content.spec_bytes().subrange(
            self.offset as int,
            self.content.spec_bytes().len() as int,
        )
    }

    pub fn new(content: &'a str) -> (it: Self)
        requires
            content.spec_bytes().len() < u32::MAX,
        ensures
            it.wf(),
            it.content == content,
            it.offset == 0,
            it.line == 1,
    {
        proof {
            encode_utf8_valid_utf8(content@);
            is_char_boundary_start_end_of_seq(content.spec_bytes());
        }
        Self { content, offset: 0, line: 1 }
    }

    /// The next line of the text, if any is left.
    pub fn next(&mut self) -> (r: Option<Line<'a>>)
        requires
            old(self).wf(),
        ensures
            final(self).wf(),
            final(self).content == old(self).content,
            old(self).rest().len() == 0 ==> r is None && *final(self) == *old(self),
            old(self).rest().len() > 0 ==> {
                &&& r matches Some(line)
                &&& line.wf()
                &&& line.value.spec_bytes() == old(self).rest().take(line_len(old(self).rest()))
                &&& line.offset.offset == old(self).offset
                &&& line.offset.line == old(self).line
                &&& final(self).offset == old(self).offset + line_len(old(self).rest())
                &&& final(self).line == old(self).line + 1
            },
    {
        let bytes = self.content.as_bytes();
        let len = bytes.len();
        if self.offset >= len {
            return None;
        }
        let ghost all = self.content.spec_bytes();
        let ghost rest = self.rest();
        let start = self.offset;
        let mut end = start;
        while end < len && bytes[end] != 10
            invariant
                bytes@ == all,
                len == all.len(),
                start <= end <= len,
                rest == all.subrange(start as int, len as int),
                line_len(rest) == (end - start) + line_len(all.subrange(end as int, len as int)),
            decreases len - end,
        {
            proof {
                assert(all.subrange(end as int, len as int).drop_first() =~= all.subrange(
                    end + 1,
                    len as int,
                ));
            }
            end += 1;
        }
        if end < len {
            end += 1;
            if end < len && bytes[end] == 13 {
                end += 1;
            }
        }
        proof {
            encode_utf8_valid_utf8(self.content@);
            lemma_line_len(rest);
            assert(end - start == line_len(rest));
            if end < len {
                assert(rest[end - start - 1] == all[end - 1]);
                lemma_boundary_after_ascii(all, end as int);
            } else {
                is_char_boundary_start_end_of_seq(all);
            }
            lemma_boundary_within(all, start as int, end as int);
        }
        let (_, tail) = self.content.split_at(start);
        let (value, _) = tail.split_at(end - start);
        proof {
            assert(value.spec_bytes() =~= rest.take(end - start));
        }
        let line = Line { value, offset: Offset { offset: start as u32, line: self.line as u32 } };
        self.offset = end;
        self.line = self.line + 1;
        Some(line)
    }
}

/// A text with the table of its lines.
#[derive(Clone, Debug)]
pub struct Source {
    pub contents: String,
    pub lines: Vec<LineInfo>,
}

impl Source {
    /// The bytes of the text.
    pub open spec fn bytes(&self) -> Seq<u8> {
        encode_utf8(self.contents@)
    }

    /// Every line of the table lies within the text, between two starts of
    /// characters.
    pub open spec fn wf(&self) -> bool {
        &&& self.bytes().len() < u32::MAX
        &&& forall|i: int|
            0 <= i < self.lines@.len() ==> {
                &&& (#[trigger] self.lines@[i]).offset + self.lines@[i].len <= self.bytes().len()
                &&& is_char_boundary(self.bytes(), self.lines@[i].offset as int)
                &&& is_char_boundary(
                    self.bytes(),
                    self.lines@[i].offset as int + self.lines@[i].len as int,
                )
            }
    }

    /// The table of the lines, as offsets and lengths.
    pub open spec fn view(&self) -> Seq<(int, int)> {
        Seq::new(
            self.lines@.len(),
            |i: int| (self.lines@[i].offset as int, self.lines@[i].len as int),
        )
    }

    /// The text with the table of all its lines.
    pub fn parse(contents: String) -> (s: Self)
        requires
            encode_utf8(contents@).len() < u32::MAX,
        ensures
            s.wf(),
            s.contents == contents,
            s@ == line_maps(encode_utf8(contents@), 0),
    {
        let mut lines: Vec<LineInfo> = Vec::new();
        let ghost all = encode_utf8(contents@);
        let mut it = LinesIter::new(contents.as_str());
        let ghost mut table: Seq<(int, int)> = Seq::empty();
        loop
            invariant
                it.wf(),
                it.content.spec_bytes() == all,
                all == encode_utf8(contents@),
                table.len() == lines@.len(),
                forall|i: int|
                    0 <= i < lines@.len() ==> table[i] == (
                        (#[trigger] lines@[i]).offset as int,
                        lines@[i].len as int,
                    ),
                forall|i: int|
                    0 <= i < lines@.len() ==> {
                        &&& (#[trigger] lines@[i]).offset + lines@[i].len <= all.len()
                        &&& is_char_boundary(all, lines@[i].offset as int)
                        &&& is_char_boundary(all, lines@[i].offset as int + lines@[i].len as int)
                    },
                line_maps(all, 0) == table + line_maps(all, it.offset as int),
            decreases all.len() - it.offset,
        {
            let ghost before = it;
            match it.next() {
                Some(line) => {
                    let len = line.as_str().len();
                    proof {
                        lemma_line_len(before.rest());
                        assert(len == line_len(before.rest()));
                        table = table.push((before.offset as int, len as int));
                        assert(line_maps(all, before.offset as int) =~= seq![
                            (before.offset as int, len as int),
                        ] + line_maps(all, before.offset + len));
                    }
                    lines.push(LineInfo { offset: line.offset(), len: len as u32 });
                },
                None => {
                    proof {
                        assert(line_maps(all, it.offset as int) =~= Seq::<(int, int)>::empty());
                    }
                    let s = Source { contents, lines };
                    assert(s@ =~= table);
                    return s;
                },
            }
        }
    }

    /// The line with the number `line`; the first line is line 1.
    pub fn line(&self, line: u32) -> (r: Option<Line<'_>>)
        requires
            self.wf(),
        ensures
            r is Some <==> 1 <= line <= self.lines@.len(),
            r matches Some(l) ==> {
                &&& l.wf()
                &&& l.offset.line == line
                &&& l.offset.offset == self.lines@[line - 1].offset
                &&& l.value.spec_bytes() == self.bytes().subrange(
                    self.lines@[line - 1].offset as int,
                    self.lines@[line - 1].offset + self.lines@[line - 1].len,
                )
            },
    {
        let map = match self.get_line(line) {
            Some(map) => map,
            None => {
                return None;
            },
        };
        let text = self.contents.as_str();
        proof {
            encode_utf8_valid_utf8(text@);
            lemma_boundary_within(text.spec_bytes(), map.offset as int, map.offset + map.len);
        }
        let (_, tail) = text.split_at(map.offset as usize);
        let (value, _) = tail.split_at(map.len as usize);
        proof {
            assert(value.spec_bytes() =~= text.spec_bytes().subrange(
                map.offset as int,
                map.offset + map.len,
            ));
        }
        Some(Line { value, offset: Offset { offset: map.offset(), line } })
    }

    /// The entry of the table for the line with the number `line`.
    fn get_line(&self, line: u32) -> (r: Option<&LineInfo>)
        ensures
            r is Some <==> 1 <= line <= self.lines@.len(),
            r matches Some(m) ==> *m == self.lines@[line - 1],
    {
        // lines start at 1
        if line == 0 || line as usize > self.lines.len() {
            return None;
        }
        Some(&self.lines[(line - 1) as usize])
    }
}

} // verus!
