//! Where the columns of the lines of a file lie: for each line the offsets
//! at which its characters start, and the offset at which it ends.

use crate::error::Error;
use crate::schema::{joined, lemma_joined_push, push_be, read_be, unjoined};
use crate::source::Line;
use core::ops::Range;
use vstd::prelude::*;
use vstd::string::*;
use vstd::utf8::*;

verus! {

/// The offsets of the starts of characters among the first `n` bytes of a
/// line that starts at `base`, in ascending order.
pub open spec fn column_offsets(bytes: Seq<u8>, base: u32, n: int) -> Seq<u32>
    decreases n,
{
    if n <= 0 {
        Seq::empty()
    } else if is_char_boundary(bytes, n - 1) {
        column_offsets(bytes, base, n - 1).push((base + n - 1) as u32)
    } else {
        column_offsets(bytes, base, n - 1)
    }
}

/// The table of a line as it is stored: the offset of each of its
/// characters, and behind them the offset at which the line ends.
pub fn line_offsets(line: &Line<'_>) -> (table: Vec<u8>)
    requires
        line.wf(),
    ensures
        table@ == joined(
            column_offsets(
                line.value.spec_bytes(),
                line.offset.offset,
                line.value.spec_bytes().len() as int,
            ).push((line.offset.offset + line.value.spec_bytes().len()) as u32),
        ),
{
    let base = line.offset();
    let text = line.as_str();
    let len = text.len();
    let ghost bytes = text.spec_bytes();
    let mut table: Vec<u8> = Vec::new();
    let mut col: usize = 0;
    while col < len
        invariant
            col <= len,
            len == bytes.len(),
            bytes == text.spec_bytes(),
            base + len <= u32::MAX,
            table@ == joined(column_offsets(bytes, base, col as int)),
        decreases len - col,
    {
        if text.is_char_boundary(col) {
            proof {
                lemma_joined_push(column_offsets(bytes, base, col as int), (base + col) as u32);
            }
            push_be(&mut table, base + col as u32);
        }
        col += 1;
    }
    proof {
        lemma_joined_push(column_offsets(bytes, base, len as int), (base + len) as u32);
    }
    push_be(&mut table, base + len as u32);
    table
}

/// The table of a line: the offsets of its columns, and the end of the line.
#[derive(Clone, Debug)]
pub struct LineOffsets(pub Vec<u8>);

impl LineOffsets {
    /// The offsets of the table.
    pub open spec fn view(&self) -> Seq<u32> {
        unjoined(self.0@)
    }

    /// The number of offsets in the table.
    pub fn len(&self) -> (n: usize)
        ensures
            n == self@.len(),
    {
        self.0.len() / 4
    }

    /// The offset of the column `column`, if the table has one.
    pub fn get(&self, column: usize) -> (r: Option<u32>)
        ensures
            r == if column < self@.len() {
                Some(self@[column as int])
            } else {
                None
            },
    {
        if column < self.0.len() / 4 {
            Some(read_be(self.0.as_slice(), column * 4))
        } else {
            None
        }
    }
}

/// The bytes between two places that are given by line and column, from the
/// tables of the two lines: from the offset of the column `start.1` in
/// `start_offsets` up to the offset of the column `end.1`, which is looked up
/// in `start_offsets` too where both places lie in one line, and in
/// `end_offsets` where they do not.
pub fn map_line_column(
    start: (u32, u32),
    end: (u32, u32),
    start_offsets: &LineOffsets,
    end_offsets: &LineOffsets,
) -> (r: Result<Range<u32>, Error>)
    ensures
        r == if start.1 >= start_offsets@.len() {
            Err::<Range<u32>, Error>(Error::InvalidStartColumn)
        } else if start.0 == end.0 {
            if end.1 >= start_offsets@.len() {
                Err(Error::InvalidEndColumn)
            } else {
                Ok(start_offsets@[start.1 as int]..start_offsets@[end.1 as int])
            }
        } else {
            if end.1 >= end_offsets@.len() {
                Err(Error::InvalidEndColumn)
            } else {
                Ok(start_offsets@[start.1 as int]..end_offsets@[end.1 as int])
            }
        },
{
    let start_offset = match start_offsets.get(start.1 as usize) {
        Some(offset) => offset,
        None => {
            return Err(Error::InvalidStartColumn);
        },
    };
    let end_offset = if start.0 == end.0 {
        match start_offsets.get(end.1 as usize) {
            Some(offset) => offset,
            None => {
                return Err(Error::InvalidEndColumn);
            },
        }
    } else {
        match end_offsets.get(end.1 as usize) {
            Some(offset) => offset,
            None => {
                return Err(Error::InvalidEndColumn);
            },
        }
    };
    Ok(start_offset..end_offset)
}

} // verus!
