//! The boundary records of marks as they are stored, and the sweep over the
//! records of one file.

use crate::citation::rangemap::{
    depth, lemma_balanced_sound, profile, sound, span_of, spans, tally, weight, Point, RangeMap,
};
use crate::error::Error;
use crate::partition::{lemma_same_profile, partitions, Profile, Span};
use crate::schema::{
    be_bytes, be_value, extend, join, joined, keys, lemma_be_value, lemma_unjoined, pairs, push_be,
    read_be, unjoined, FileId,
};
use core::ops::Range;
use vstd::prelude::*;

verus! {

/// A boundary record: the label of a mark and the offset at which the mark
/// ends. It is stored under the start of the mark and under its end.
#[derive(Clone, Copy, Debug, PartialEq, Eq, Structural)]
pub struct Marker {
    pub id: u32,
    pub end: u32,
}

impl Marker {
    /// The eight bytes of the record: the label, then the end.
    pub open spec fn bytes(self) -> Seq<u8> {
        be_bytes(self.id) + be_bytes(self.end)
    }

    /// The boundary that the record stands for where it is stored under
    /// `offset`: an opening while its mark ends later, else a closing.
    pub open spec fn point(self, offset: u32) -> Point {
        Point { offset, id: self.id, enabled: self.end > offset }
    }

    /// The record as it is stored.
    pub fn as_bytes(&self) -> (b: Vec<u8>)
        ensures
            b@ == self.bytes(),
    {
        let mut b: Vec<u8> = Vec::new();
        push_be(&mut b, self.id);
        push_be(&mut b, self.end);
        b
    }
}

/// The records that a stored value holds: one for each eight bytes.
pub open spec fn decoded(b: Seq<u8>) -> Seq<Marker> {
    Seq::new(
        b.len() / 8,
        |i: int|
            Marker {
                id: be_value(b.subrange(8 * i, 8 * i + 4)) as u32,
                end: be_value(b.subrange(8 * i + 4, 8 * i + 8)) as u32,
            },
    )
}

/// The records of a stored value; none where its length is no multiple of
/// eight.
pub fn parse(value: &[u8]) -> (r: Option<Vec<Marker>>)
    ensures
        r is None <==> value@.len() % 8 != 0,
        r matches Some(ms) ==> ms@ == decoded(value@),
{
    if value.len() % 8 != 0 {
        return None;
    }
    let mut ms: Vec<Marker> = Vec::new();
    let mut i: usize = 0;
    while i < value.len()
        invariant
            value@.len() % 8 == 0,
            i <= value@.len(),
            i % 8 == 0,
            ms@.len() * 8 == i,
            forall|j: int| 0 <= j < ms@.len() ==> ms@[j] == decoded(value@)[j],
        decreases value@.len() - i,
    {
        let id = read_be(value, i);
        let end = read_be(value, i + 4);
        ms.push(Marker { id, end });
        i += 8;
    }
    assert(ms@ =~= decoded(value@));
    Some(ms)
}

/// What the store makes of a value and bytes that are merged into it: the
/// bytes behind the value, nothing read and nothing dropped.
pub fn merge_entry(_key: &[u8], old_value: Option<&[u8]>, merged_bytes: &[u8]) -> (r: Option<
    Vec<u8>,
>)
    ensures
        r matches Some(v) && v@ == (match old_value {
            Some(o) => o@,
            None => Seq::<u8>::empty(),
        }) + merged_bytes@,
{
    let mut value: Vec<u8> = Vec::new();
    match old_value {
        Some(o) => {
            extend(&mut value, o);
        },
        None => {},
    }
    extend(&mut value, merged_bytes);
    Some(value)
}

/// Merging bytes one batch after the other stores what merging them at once
/// stores: the merge is associative.
pub proof fn lemma_merge_associative(v: Seq<u8>, a: Seq<u8>, b: Seq<u8>)
    ensures
        (v + a) + b == v + (a + b),
{
    assert((v + a) + b =~= v + (a + b));
}

/// Values of whole records hold, once merged, the records of the one and then
/// those of the other.
pub proof fn lemma_decoded_merge(a: Seq<u8>, b: Seq<u8>)
    requires
        a.len() % 8 == 0,
        b.len() % 8 == 0,
    ensures
        decoded(a + b) == decoded(a) + decoded(b),
{
    let n = (a.len() / 8) as int;
    assert forall|i: int| 0 <= i < decoded(a + b).len() implies decoded(a + b)[i] == (decoded(a)
        + decoded(b))[i] by {
        if i < n {
            assert((a + b).subrange(8 * i, 8 * i + 4) =~= a.subrange(8 * i, 8 * i + 4));
            assert((a + b).subrange(8 * i + 4, 8 * i + 8) =~= a.subrange(8 * i + 4, 8 * i + 8));
        } else {
            let j = i - n;
            assert((a + b).subrange(8 * i, 8 * i + 4) =~= b.subrange(8 * j, 8 * j + 4));
            assert((a + b).subrange(8 * i + 4, 8 * i + 8) =~= b.subrange(8 * j + 4, 8 * j + 8));
        }
    }
    assert(decoded(a + b) =~= decoded(a) + decoded(b));
}

/// The writes that record a mark of `bytes` in `file` with the label `id`:
/// its record, merged under the start of the mark and under its end. A mark
/// that is empty is not recorded.
pub fn mark(file: FileId, bytes: Range<u32>, id: u32) -> (writes: Vec<(Vec<u8>, Vec<u8>)>)
    ensures
        bytes.start >= bytes.end ==> writes@.len() == 0,
        bytes.start < bytes.end ==> {
            &&& writes@.len() == 2
            &&& writes@[0].0@ == joined(seq![file.0, bytes.start])
            &&& writes@[0].1@ == Marker { id, end: bytes.end }.bytes()
            &&& writes@[1].0@ == joined(seq![file.0, bytes.end])
            &&& writes@[1].1@ == Marker { id, end: bytes.end }.bytes()
        },
{
    let start = bytes.start;
    let end = bytes.end;
    let mut writes: Vec<(Vec<u8>, Vec<u8>)> = Vec::new();
    if start >= end {
        return writes;
    }
    let marker = Marker { id, end };
    let first = [file.0, start];
    let second = [file.0, end];
    writes.push((join(first.as_slice()), marker.as_bytes()));
    writes.push((join(second.as_slice()), marker.as_bytes()));
    proof {
        assert(first@ =~= seq![file.0, bytes.start]);
        assert(second@ =~= seq![file.0, bytes.end]);
    }
    writes
}

/// Every record of the group stored under `offset` belongs to a mark that
/// starts or ends there: none ends before `offset`.
pub open spec fn group_valid(offset: u32, ms: Seq<Marker>) -> bool {
    forall|i: int| 0 <= i < ms.len() ==> (#[trigger] ms[i]).end >= offset
}

/// What the records stored under `offset` add to the reference count of `id`
/// at the position `at`.
pub open spec fn group_depth(offset: u32, ms: Seq<Marker>, id: u32, at: int) -> int
    decreases ms.len(),
{
    if ms.len() == 0 {
        0
    } else {
        group_depth(offset, ms.drop_last(), id, at) + weight(ms.last().point(offset), id, at)
    }
}

/// A range of a file with the labels that are active all over it, these as
/// the bytes of the ascending labels.
#[derive(Clone, Debug)]
pub struct Entry {
    pub buf: Vec<u8>,
    pub start: u32,
    pub end: u32,
    pub file: FileId,
}

impl Entry {
    /// The range and the labels of the entry.
    pub open spec fn span(self) -> Span {
        Span { start: self.start as int, end: self.end as int, ids: unjoined(self.buf@) }
    }

    /// The labels of the entry.
    pub fn ids(&self) -> (ids: Vec<u32>)
        requires
            self.buf@.len() % 4 == 0,
        ensures
            ids@ == unjoined(self.buf@),
    {
        keys(self.buf.as_slice())
    }
}

/// The ranges and labels of a list of entries.
pub open spec fn entry_spans(entries: Seq<Entry>) -> Seq<Span> {
    Seq::new(entries.len(), |i: int| entries[i].span())
}

/// Each entry belongs to `file`, and its bytes are those of its labels.
pub open spec fn entries_in(entries: Seq<Entry>, file: FileId) -> bool {
    forall|i: int|
        0 <= i < entries.len() ==> (#[trigger] entries[i]).file == file && entries[i].buf@
            == joined(unjoined(entries[i].buf@))
}

/// The sweep over the records of one file: it takes the groups of records as
/// the store hands them out, and gives the entries of the file at the end.
#[derive(Debug)]
pub struct Finisher {
    pub file: FileId,
    pub map: RangeMap,
}

impl Finisher {
    pub open spec fn wf(&self) -> bool {
        self.map.wf()
    }

    pub fn new(file: FileId) -> (f: Self)
        ensures
            f.wf(),
            f.file == file,
            f.map@ == Seq::<Point>::empty(),
    {
        Self { file, map: RangeMap::new() }
    }

    /// Takes the records stored under `offset`. A record that ends before
    /// `offset` cannot lie there by any mark: the group is then refused and
    /// nothing is taken.
    pub fn on_markers(&mut self, offset: u32, markers: &[Marker]) -> (r: Result<(), Error>)
        requires
            old(self).wf(),
        ensures
            final(self).wf(),
            final(self).file == old(self).file,
            r is Ok <==> group_valid(offset, markers@),
            r is Err ==> r == Err::<(), Error>(Error::InvariantViolation) && final(self).map@
                == old(self).map@,
            r is Ok ==> forall|id: u32, at: int|
                #[trigger] depth(final(self).map@, id, at) == depth(old(self).map@, id, at)
                    + group_depth(offset, markers@, id, at),
    {
        let mut i: usize = 0;
        while i < markers.len()
            invariant
                i <= markers@.len(),
                self.wf(),
                *self == *old(self),
                forall|j: int| 0 <= j < i ==> (#[trigger] markers@[j]).end >= offset,
            decreases markers@.len() - i,
        {
            if markers[i].end < offset {
                return Err(Error::InvariantViolation);
            }
            i += 1;
        }
        let ghost before = self.map@;
        let mut i: usize = 0;
        proof {
            assert(markers@.take(0) =~= Seq::<Marker>::empty());
        }
        while i < markers.len()
            invariant
                i <= markers@.len(),
                self.wf(),
                self.file == old(self).file,
                forall|id: u32, at: int|
                    #[trigger] depth(self.map@, id, at) == depth(before, id, at) + group_depth(
                        offset,
                        markers@.take(i as int),
                        id,
                        at,
                    ),
            decreases markers@.len() - i,
        {
            let m = markers[i];
            let ghost prev = self.map@;
            self.map.insert_point(offset, m.id, m.end > offset);
            proof {
                assert(markers@.take(i + 1).drop_last() =~= markers@.take(i as int));
                assert forall|id: u32, at: int| #[trigger]
                    depth(self.map@, id, at) == depth(before, id, at) + group_depth(
                        offset,
                        markers@.take(i + 1),
                        id,
                        at,
                    ) by {
                    assert(depth(self.map@, id, at) == depth(prev, id, at) + weight(
                        m.point(offset),
                        id,
                        at,
                    ));
                }
            }
            i += 1;
        }
        proof {
            assert(markers@.take(i as int) =~= markers@);
        }
        Ok(())
    }

    /// Ends the sweep: the entries of the file, or a failure where the records
    /// taken do not pair up.
    pub fn flush(self) -> (r: Result<Vec<Entry>, Error>)
        requires
            self.wf(),
        ensures
            match r {
                Ok(entries) => {
                    &&& sound(self.map@)
                    &&& partitions(entry_spans(entries@), profile(self.map@))
                    &&& entries_in(entries@, self.file)
                },
                Err(e) => e == Error::InvariantViolation && !sound(self.map@),
            },
    {
        proof {
            lemma_balanced_sound(self.map@);
        }
        let out = match self.map.iter().collect() {
            Ok(out) => out,
            Err(_) => {
                return Err(Error::InvariantViolation);
            },
        };
        let mut entries: Vec<Entry> = Vec::new();
        let mut i: usize = 0;
        while i < out.len()
            invariant
                i <= out@.len(),
                entries@.len() == i,
                forall|j: int| 0 <= j < i ==> (#[trigger] entries@[j]).span() == span_of(out@[j]),
                entries_in(entries@, self.file),
            decreases out@.len() - i,
        {
            let item = &out[i];
            let buf = join(item.1.as_slice());
            proof {
                lemma_unjoined(item.1@);
            }
            entries.push(
                Entry { buf, start: item.0.start, end: item.0.end, file: self.file },
            );
            i += 1;
        }
        assert(entry_spans(entries@) =~= spans(out@));
        Ok(entries)
    }
}

/// The row has the layout of a group of records: a key of a file and an
/// offset, and a value of whole records.
pub open spec fn row_shaped(row: (Seq<u8>, Seq<u8>)) -> bool {
    row.0.len() == 8 && row.1.len() % 8 == 0
}

/// The file that the key of the row names.
pub open spec fn row_file(row: (Seq<u8>, Seq<u8>)) -> u32 {
    unjoined(row.0)[0]
}

/// The offset that the key of the row names.
pub open spec fn row_offset(row: (Seq<u8>, Seq<u8>)) -> u32 {
    unjoined(row.0)[1]
}

/// Every row has the layout of a group of records.
pub open spec fn rows_shaped(rows: Seq<(Seq<u8>, Seq<u8>)>) -> bool {
    forall|i: int| 0 <= i < rows.len() ==> row_shaped(#[trigger] rows[i])
}

/// In the rows of `file` no record ends before the offset that it is stored
/// under.
pub open spec fn rows_valid(file: FileId, rows: Seq<(Seq<u8>, Seq<u8>)>) -> bool {
    forall|i: int|
        0 <= i < rows.len() && row_file(#[trigger] rows[i]) == file.0 ==> group_valid(
            row_offset(rows[i]),
            decoded(rows[i].1),
        )
}

/// What a row adds to the reference count of `id` at the position `at` in
/// `file`: what its records add, if it is a row of that file.
pub open spec fn row_depth(file: FileId, row: (Seq<u8>, Seq<u8>), id: u32, at: int) -> int {
    if row_file(row) == file.0 {
        group_depth(row_offset(row), decoded(row.1), id, at)
    } else {
        0
    }
}

/// The reference count of `id` at the position `at` that the rows of `file`
/// give.
pub open spec fn rows_depth(file: FileId, rows: Seq<(Seq<u8>, Seq<u8>)>, id: u32, at: int) -> int
    decreases rows.len(),
{
    if rows.len() == 0 {
        0
    } else {
        rows_depth(file, rows.drop_last(), id, at) + row_depth(file, rows.last(), id, at)
    }
}

/// The profile that the rows of `file` give: a label is active where its
/// reference count is positive.
pub open spec fn rows_profile(file: FileId, rows: Seq<(Seq<u8>, Seq<u8>)>) -> Profile {
    |at: int, id: u32| rows_depth(file, rows, id, at) > 0
}

/// The rows of `file` are the records of a set of marks: every record lies
/// under the start or the end of its mark, no reference count is ever
/// negative, and every label that opens closes again.
pub open spec fn rows_sound(file: FileId, rows: Seq<(Seq<u8>, Seq<u8>)>) -> bool {
    &&& rows_valid(file, rows)
    &&& forall|id: u32, at: int| #[trigger] rows_depth(file, rows, id, at) >= 0
    &&& forall|id: u32| rows_depth(file, rows, id, u32::MAX as int) == 0
}

/// A record is the one record of its bytes.
pub proof fn lemma_decoded_record(m: Marker)
    ensures
        m.bytes().len() == 8,
        decoded(m.bytes()) == seq![m],
{
    lemma_be_value(m.id);
    lemma_be_value(m.end);
    let b = m.bytes();
    assert(b.subrange(0, 4) =~= be_bytes(m.id));
    assert(b.subrange(4, 8) =~= be_bytes(m.end));
    assert(decoded(b) =~= seq![m]);
}

/// A row put in among rows adds what it counts to every count.
proof fn lemma_rows_depth_insert(
    file: FileId,
    rows: Seq<(Seq<u8>, Seq<u8>)>,
    k: int,
    row: (Seq<u8>, Seq<u8>),
    id: u32,
    at: int,
)
    requires
        0 <= k <= rows.len(),
    ensures
        rows_depth(file, rows.insert(k, row), id, at) == rows_depth(file, rows, id, at)
            + row_depth(file, row, id, at),
    decreases rows.len(),
{
    let next = rows.insert(k, row);
    if k == rows.len() {
        assert(next.drop_last() =~= rows);
    } else {
        assert(next.drop_last() =~= rows.drop_last().insert(k, row));
        assert(next.last() == rows.last());
        lemma_rows_depth_insert(file, rows.drop_last(), k, row, id, at);
    }
}

/// A row put in the place of another counts in the place of that other.
proof fn lemma_rows_depth_update(
    file: FileId,
    rows: Seq<(Seq<u8>, Seq<u8>)>,
    k: int,
    row: (Seq<u8>, Seq<u8>),
    id: u32,
    at: int,
)
    requires
        0 <= k < rows.len(),
    ensures
        rows_depth(file, rows.update(k, row), id, at) == rows_depth(file, rows, id, at)
            - row_depth(file, rows[k], id, at) + row_depth(file, row, id, at),
    decreases rows.len(),
{
    let next = rows.update(k, row);
    if k == rows.len() - 1 {
        assert(next.drop_last() =~= rows.drop_last());
    } else {
        assert(next.drop_last() =~= rows.drop_last().update(k, row));
        assert(next.last() == rows.last());
        lemma_rows_depth_update(file, rows.drop_last(), k, row, id, at);
    }
}

/// `next` is what the store holds after `bytes` were merged under `key`
/// into `rows`: the bytes behind the value of the row with that key, or a
/// row of their own where there was none.
pub open spec fn merged(
    rows: Seq<(Seq<u8>, Seq<u8>)>,
    next: Seq<(Seq<u8>, Seq<u8>)>,
    key: Seq<u8>,
    bytes: Seq<u8>,
) -> bool {
    ||| exists|i: int|
        0 <= i < rows.len() && (#[trigger] rows[i]).0 == key && next == rows.update(
            i,
            (key, rows[i].1 + bytes),
        )
    ||| (forall|i: int| 0 <= i < rows.len() ==> (#[trigger] rows[i]).0 != key) && exists|k: int|
        0 <= k <= rows.len() && next == #[trigger] rows.insert(k, (key, bytes))
}

/// What a row counts once a record is merged into it: what it counted, and
/// the boundary that the record stands for there.
proof fn lemma_row_gained(
    file: FileId,
    value: Seq<u8>,
    key_file: u32,
    offset: u32,
    m: Marker,
    id: u32,
    at: int,
)
    requires
        value.len() % 8 == 0,
    ensures
        row_shaped((joined(seq![key_file, offset]), value + m.bytes())),
        row_file((joined(seq![key_file, offset]), value)) == key_file,
        row_offset((joined(seq![key_file, offset]), value)) == offset,
        row_depth(file, (joined(seq![key_file, offset]), value + m.bytes()), id, at) == row_depth(
            file,
            (joined(seq![key_file, offset]), value),
            id,
            at,
        ) + if key_file == file.0 {
            weight(m.point(offset), id, at)
        } else {
            0
        },
        decoded(value + m.bytes()) == decoded(value).push(m),
{
    lemma_unjoined(seq![key_file, offset]);
    crate::schema::lemma_joined_len(seq![key_file, offset]);
    lemma_decoded_record(m);
    lemma_decoded_merge(value, m.bytes());
    assert(decoded(value) + seq![m] =~= decoded(value).push(m));
    assert(decoded(value).push(m).drop_last() =~= decoded(value));
}

/// The case of `lemma_merged_record` in which the store held a row under
/// the key.
proof fn lemma_merged_update(
    file: FileId,
    rows: Seq<(Seq<u8>, Seq<u8>)>,
    i: int,
    key_file: u32,
    offset: u32,
    m: Marker,
    id: u32,
    at: int,
)
    requires
        rows_shaped(rows),
        0 <= i < rows.len(),
        rows[i].0 == joined(seq![key_file, offset]),
    ensures
        rows_shaped(rows.update(i, (rows[i].0, rows[i].1 + m.bytes()))),
        rows_depth(file, rows.update(i, (rows[i].0, rows[i].1 + m.bytes())), id, at) == rows_depth(
            file,
            rows,
            id,
            at,
        ) + if key_file == file.0 {
            weight(m.point(offset), id, at)
        } else {
            0
        },
        rows_valid(file, rows) && m.end >= offset ==> rows_valid(
            file,
            rows.update(i, (rows[i].0, rows[i].1 + m.bytes())),
        ),
{
    let row = (rows[i].0, rows[i].1 + m.bytes());
    let next = rows.update(i, row);
    assert(row_shaped(rows[i]));
    lemma_row_gained(file, rows[i].1, key_file, offset, m, id, at);
    lemma_rows_depth_update(file, rows, i, row, id, at);
    assert forall|j: int| 0 <= j < next.len() implies row_shaped(#[trigger] next[j]) by {
        if j != i {
            assert(row_shaped(rows[j]));
        }
    }
    if rows_valid(file, rows) && m.end >= offset {
        assert forall|j: int|
            0 <= j < next.len() && row_file(#[trigger] next[j]) == file.0 implies group_valid(
            row_offset(next[j]),
            decoded(next[j].1),
        ) by {
            if j != i {
                assert(next[j] == rows[j]);
            } else {
                assert(row_file(rows[i]) == file.0);
                assert(group_valid(row_offset(rows[i]), decoded(rows[i].1)));
            }
        }
    }
}

/// The case of `lemma_merged_record` in which the store held no row under
/// the key.
proof fn lemma_merged_insert(
    file: FileId,
    rows: Seq<(Seq<u8>, Seq<u8>)>,
    k: int,
    key_file: u32,
    offset: u32,
    m: Marker,
    id: u32,
    at: int,
)
    requires
        rows_shaped(rows),
        0 <= k <= rows.len(),
    ensures
        rows_shaped(rows.insert(k, (joined(seq![key_file, offset]), m.bytes()))),
        rows_depth(file, rows.insert(k, (joined(seq![key_file, offset]), m.bytes())), id, at)
            == rows_depth(file, rows, id, at) + if key_file == file.0 {
            weight(m.point(offset), id, at)
        } else {
            0
        },
        rows_valid(file, rows) && m.end >= offset ==> rows_valid(
            file,
            rows.insert(k, (joined(seq![key_file, offset]), m.bytes())),
        ),
{
    let key = joined(seq![key_file, offset]);
    let row = (key, m.bytes());
    let next = rows.insert(k, row);
    let none = Seq::<u8>::empty();
    lemma_row_gained(file, none, key_file, offset, m, id, at);
    assert(none + m.bytes() =~= m.bytes());
    assert(decoded(none) =~= Seq::<Marker>::empty());
    lemma_rows_depth_insert(file, rows, k, row, id, at);
    assert forall|j: int| 0 <= j < next.len() implies row_shaped(#[trigger] next[j]) by {
        if j < k {
            assert(row_shaped(rows[j]));
        } else if j > k {
            assert(row_shaped(rows[j - 1]));
        }
    }
    if rows_valid(file, rows) && m.end >= offset {
        assert forall|j: int|
            0 <= j < next.len() && row_file(#[trigger] next[j]) == file.0 implies group_valid(
            row_offset(next[j]),
            decoded(next[j].1),
        ) by {
            if j < k {
                assert(next[j] == rows[j]);
            } else if j > k {
                assert(next[j] == rows[j - 1]);
            }
        }
    }
}

/// A record that is merged under a file and an offset counts as the
/// boundary that it stands for there, in its file and in no other, whatever
/// the store held.
pub proof fn lemma_merged_record(
    file: FileId,
    rows: Seq<(Seq<u8>, Seq<u8>)>,
    next: Seq<(Seq<u8>, Seq<u8>)>,
    key_file: u32,
    offset: u32,
    m: Marker,
    id: u32,
    at: int,
)
    requires
        rows_shaped(rows),
        merged(rows, next, joined(seq![key_file, offset]), m.bytes()),
    ensures
        rows_shaped(next),
        rows_depth(file, next, id, at) == rows_depth(file, rows, id, at) + if key_file == file.0 {
            weight(m.point(offset), id, at)
        } else {
            0
        },
        rows_valid(file, rows) && m.end >= offset ==> rows_valid(file, next),
{
    let key = joined(seq![key_file, offset]);
    let bytes = m.bytes();
    if exists|i: int|
        0 <= i < rows.len() && (#[trigger] rows[i]).0 == key && next == rows.update(
            i,
            (key, rows[i].1 + bytes),
        ) {
        let i = choose|i: int|
            0 <= i < rows.len() && (#[trigger] rows[i]).0 == key && next == rows.update(
                i,
                (key, rows[i].1 + bytes),
            );
        lemma_merged_update(file, rows, i, key_file, offset, m, id, at);
    } else {
        let k = choose|k: int|
            0 <= k <= rows.len() && next == #[trigger] rows.insert(k, (key, bytes));
        lemma_merged_insert(file, rows, k, key_file, offset, m, id, at);
    }
}

/// Merges commute as far as the sweep can tell: two records merged in the one
/// order and in the other leave rows that give the same reference counts
/// everywhere, though the bytes of a value may stand in another order.
pub proof fn lemma_merges_commute(
    file: FileId,
    rows: Seq<(Seq<u8>, Seq<u8>)>,
    first: (u32, u32, Marker),
    second: (u32, u32, Marker),
    one: Seq<(Seq<u8>, Seq<u8>)>,
    one_two: Seq<(Seq<u8>, Seq<u8>)>,
    two: Seq<(Seq<u8>, Seq<u8>)>,
    two_one: Seq<(Seq<u8>, Seq<u8>)>,
    id: u32,
    at: int,
)
    requires
        rows_shaped(rows),
        merged(rows, one, joined(seq![first.0, first.1]), first.2.bytes()),
        merged(one, one_two, joined(seq![second.0, second.1]), second.2.bytes()),
        merged(rows, two, joined(seq![second.0, second.1]), second.2.bytes()),
        merged(two, two_one, joined(seq![first.0, first.1]), first.2.bytes()),
    ensures
        rows_depth(file, one_two, id, at) == rows_depth(file, two_one, id, at),
{
    lemma_merged_record(file, rows, one, first.0, first.1, first.2, id, at);
    lemma_merged_record(file, one, one_two, second.0, second.1, second.2, id, at);
    lemma_merged_record(file, rows, two, second.0, second.1, second.2, id, at);
    lemma_merged_record(file, two, two_one, first.0, first.1, first.2, id, at);
}

/// A mark that is recorded counts over its range for its label in its file,
/// and nowhere else, whatever the store held and in whatever order the
/// marks came: after the two writes of a mark are merged, the reference
/// counts that the rows give are those of before, and one more where the
/// mark reaches.
pub proof fn lemma_marked(
    file: FileId,
    rows: Seq<(Seq<u8>, Seq<u8>)>,
    between: Seq<(Seq<u8>, Seq<u8>)>,
    next: Seq<(Seq<u8>, Seq<u8>)>,
    mark_file: FileId,
    start: u32,
    end: u32,
    label: u32,
    id: u32,
    at: int,
)
    requires
        start < end,
        rows_shaped(rows),
        merged(rows, between, joined(seq![mark_file.0, start]), Marker { id: label, end }.bytes()),
        merged(between, next, joined(seq![mark_file.0, end]), Marker { id: label, end }.bytes()),
    ensures
        rows_shaped(next),
        rows_valid(file, rows) ==> rows_valid(file, next),
        rows_depth(file, next, id, at) == rows_depth(file, rows, id, at) + if mark_file == file
            && id == label && start <= at < end {
            1int
        } else {
            0int
        },
{
    let m = Marker { id: label, end };
    lemma_merged_record(file, rows, between, mark_file.0, start, m, id, at);
    lemma_merged_record(file, between, next, mark_file.0, end, m, id, at);
}

/// The entries of `file` from the rows that the store holds for it: the
/// partition of the profile that its records give. Rows of other files are
/// passed over. Rows that do not have the layout of record groups are
/// refused as malformed, whatever else holds; rows that are not the records
/// of a set of marks, as a violated invariant.
pub fn for_each(file: FileId, rows: &Vec<(Vec<u8>, Vec<u8>)>) -> (r: Result<Vec<Entry>, Error>)
    ensures
        match r {
            Ok(entries) => {
                &&& rows_shaped(pairs(rows@))
                &&& rows_sound(file, pairs(rows@))
                &&& partitions(entry_spans(entries@), rows_profile(file, pairs(rows@)))
                &&& entries_in(entries@, file)
            },
            Err(Error::Malformed) => !rows_shaped(pairs(rows@)),
            Err(Error::InvariantViolation) => rows_shaped(pairs(rows@)) && !rows_sound(
                file,
                pairs(rows@),
            ),
            Err(_) => false,
        },
{
    let ghost all = pairs(rows@);
    let mut i: usize = 0;
    while i < rows.len()
        invariant
            i <= rows@.len(),
            all == pairs(rows@),
            forall|j: int| 0 <= j < i ==> row_shaped(#[trigger] all[j]),
        decreases rows@.len() - i,
    {
        let row = &rows[i];
        if row.0.len() != 8 || row.1.len() % 8 != 0 {
            proof {
                assert(!row_shaped(all[i as int]));
            }
            return Err(Error::Malformed);
        }
        i += 1;
    }
    let mut finisher = Finisher::new(file);
    let mut i: usize = 0;
    proof {
        assert(all.take(0) =~= Seq::<(Seq<u8>, Seq<u8>)>::empty());
    }
    while i < rows.len()
        invariant
            i <= rows@.len(),
            all == pairs(rows@),
            rows_shaped(all),
            finisher.wf(),
            finisher.file == file,
            rows_valid(file, all.take(i as int)),
            forall|id: u32, at: int|
                #[trigger] depth(finisher.map@, id, at) == rows_depth(
                    file,
                    all.take(i as int),
                    id,
                    at,
                ),
        decreases rows@.len() - i,
    {
        let row = &rows[i];
        assert(row_shaped(all[i as int]));
        let ids = keys(row.0.as_slice());
        let ghost prev = finisher.map@;
        proof {
            assert(all.take(i + 1).drop_last() =~= all.take(i as int));
            assert(all.take(i + 1).last() == all[i as int]);
        }
        if ids[0] == file.0 {
            let markers = match parse(row.1.as_slice()) {
                Some(markers) => markers,
                None => {
                    return Err(Error::Malformed);
                },
            };
            match finisher.on_markers(ids[1], markers.as_slice()) {
                Ok(_) => {},
                Err(e) => {
                    proof {
                        assert(!group_valid(row_offset(all[i as int]), decoded(all[i as int].1)));
                    }
                    return Err(Error::InvariantViolation);
                },
            }
        }
        proof {
            assert forall|j: int|
                0 <= j < i + 1 && row_file(#[trigger] all.take(i + 1)[j])
                    == file.0 implies group_valid(
                row_offset(all.take(i + 1)[j]),
                decoded(all.take(i + 1)[j].1),
            ) by {
                if j < i {
                    assert(all.take(i as int)[j] == all[j]);
                }
            }
        }
        i += 1;
    }
    proof {
        assert(all.take(i as int) =~= all);
    }
    let ghost s = finisher.map@;
    match finisher.flush() {
        Ok(entries) => {
            proof {
                assert forall|id: u32, at: int| #[trigger]
                    rows_depth(file, all, id, at) >= 0 by {
                    assert(depth(s, id, at) >= 0);
                }
                assert forall|id: u32| rows_depth(file, all, id, u32::MAX as int) == 0 by {
                    assert(tally(s, id) == 0);
                }
                lemma_same_profile(entry_spans(entries@), profile(s), rows_profile(file, all));
            }
            Ok(entries)
        },
        Err(_) => {
            proof {
                if rows_sound(file, all) {
                    assert forall|id: u32, at: int| #[trigger] depth(s, id, at) >= 0 by {
                        assert(rows_depth(file, all, id, at) >= 0);
                    }
                    assert forall|id: u32| tally(s, id) == 0 by {
                        assert(rows_depth(file, all, id, u32::MAX as int) == 0);
                    }
                }
            }
            Err(Error::InvariantViolation)
        },
    }
}

} // verus!
