//! The index of consolidated regions: for each label, the ranges over which
//! it is active, each with every label that is active there.

use crate::error::Error;
use crate::marker::{
    for_each, mark, entries_in, entry_spans, rows_profile, rows_shaped, rows_sound, Entry, Marker,
};
use crate::partition::{lemma_partition_of, partition_of, Span};
use crate::schema::{
    be_bytes, extend, ids_lt, join, joined, keys, lemma_joined_order, pairs, unjoined, EntityId,
    FileId,
};
use core::ops::Range;
use vstd::prelude::*;

verus! {

/// The writes that record a mark of `bytes` in `file` for the entity `id`.
pub fn insert(file: FileId, bytes: Range<u32>, id: EntityId) -> (writes: Vec<(Vec<u8>, Vec<u8>)>)
    ensures
        bytes.start >= bytes.end ==> writes@.len() == 0,
        bytes.start < bytes.end ==> {
            &&& writes@.len() == 2
            &&& writes@[0].0@ == joined(seq![file.0, bytes.start])
            &&& writes@[0].1@ == Marker { id: id.0, end: bytes.end }.bytes()
            &&& writes@[1].0@ == joined(seq![file.0, bytes.end])
            &&& writes@[1].1@ == Marker { id: id.0, end: bytes.end }.bytes()
        },
{
    mark(file, bytes, id.get())
}

/// The index records of one span of `file`: one for each of its labels, under
/// the label, the file and the range, each holding all the labels.
pub open spec fn fan_out(file: FileId, span: Span) -> Seq<(Seq<u8>, Seq<u8>)> {
    Seq::new(
        span.ids.len(),
        |k: int|
            (joined(seq![span.ids[k], file.0, span.start as u32, span.end as u32]), joined(
                span.ids,
            )),
    )
}

/// The index records of the spans of `file`, span by span.
pub open spec fn index_records(file: FileId, p: Seq<Span>) -> Seq<(Seq<u8>, Seq<u8>)>
    decreases p.len(),
{
    if p.len() == 0 {
        Seq::empty()
    } else {
        index_records(file, p.drop_last()) + fan_out(file, p.last())
    }
}

/// The index records of a list of entries of `file`.
pub fn index(file: FileId, entries: &Vec<Entry>) -> (writes: Vec<(Vec<u8>, Vec<u8>)>)
    requires
        entries_in(entries@, file),
    ensures
        pairs(writes@) == index_records(file, entry_spans(entries@)),
{
    let mut writes: Vec<(Vec<u8>, Vec<u8>)> = Vec::new();
    let mut i: usize = 0;
    proof {
        assert(entry_spans(entries@).take(0) =~= Seq::<Span>::empty());
        assert(pairs(writes@) =~= index_records(file, entry_spans(entries@).take(0)));
    }
    while i < entries.len()
        invariant
            i <= entries@.len(),
            entries_in(entries@, file),
            pairs(writes@) == index_records(file, entry_spans(entries@).take(i as int)),
        decreases entries@.len() - i,
    {
        let entry = &entries[i];
        let ghost span = entry.span();
        let ghost done = pairs(writes@);
        assert(entry.buf@ == joined(unjoined(entry.buf@)));
        proof {
            crate::schema::lemma_joined_len(unjoined(entry.buf@));
        }
        let ids = entry.ids();
        let mut k: usize = 0;
        while k < ids.len()
            invariant
                k <= ids@.len(),
                ids@ == span.ids,
                span == entry.span(),
                entry.file == file,
                entry.buf@ == joined(span.ids),
                pairs(writes@) == done + fan_out(file, span).take(k as int),
            decreases ids@.len() - k,
        {
            // notify each of the labels of the range and of all who share it
            let parts = [ids[k], entry.file.0, entry.start, entry.end];
            let key = join(parts.as_slice());
            let mut value: Vec<u8> = Vec::new();
            extend(&mut value, entry.buf.as_slice());
            proof {
                assert(parts@ =~= seq![
                    span.ids[k as int],
                    file.0,
                    span.start as u32,
                    span.end as u32,
                ]);
                assert(pairs(writes@.push((key, value))) =~= pairs(writes@).push(
                    (key@, value@),
                ));
                assert(fan_out(file, span).take(k + 1) =~= fan_out(file, span).take(
                    k as int,
                ).push((key@, value@)));
            }
            writes.push((key, value));
            k += 1;
        }
        proof {
            assert(fan_out(file, span).take(k as int) =~= fan_out(file, span));
            assert(entry_spans(entries@).take(i + 1).drop_last() =~= entry_spans(entries@).take(
                i as int,
            ));
            assert(entry_spans(entries@).take(i + 1).last() == span);
        }
        i += 1;
    }
    proof {
        assert(entry_spans(entries@).take(i as int) =~= entry_spans(entries@));
    }
    writes
}

/// The index records of `file` from the rows that the store holds for it:
/// those of the partition of the profile that its records give. The rows are
/// refused as `for_each` refuses them.
pub fn finish_file(file: FileId, rows: &Vec<(Vec<u8>, Vec<u8>)>) -> (r: Result<
    Vec<(Vec<u8>, Vec<u8>)>,
    Error,
>)
    ensures
        match r {
            Ok(writes) => {
                &&& rows_shaped(pairs(rows@))
                &&& rows_sound(file, pairs(rows@))
                &&& pairs(writes@) == index_records(
                    file,
                    partition_of(rows_profile(file, pairs(rows@))),
                )
            },
            Err(Error::Malformed) => !rows_shaped(pairs(rows@)),
            Err(Error::InvariantViolation) => rows_shaped(pairs(rows@)) && !rows_sound(
                file,
                pairs(rows@),
            ),
            Err(_) => false,
        },
{
    match for_each(file, rows) {
        Ok(entries) => {
            proof {
                lemma_partition_of(entry_spans(entries@), rows_profile(file, pairs(rows@)));
            }
            Ok(index(file, &entries))
        },
        Err(e) => Err(e),
    }
}

/// Every index record of a span lies under one of the labels that it holds,
/// and names the file and the range of the span.
pub proof fn lemma_fan_out(file: FileId, span: Span, k: int)
    requires
        0 <= k < span.ids.len(),
        0 <= span.start <= u32::MAX,
        0 <= span.end <= u32::MAX,
    ensures
        fan_out(file, span).len() == span.ids.len(),
        unjoined(fan_out(file, span)[k].0) == seq![
            span.ids[k],
            file.0,
            span.start as u32,
            span.end as u32,
        ],
        unjoined(fan_out(file, span)[k].1) == span.ids,
        unjoined(fan_out(file, span)[k].1).contains(unjoined(fan_out(file, span)[k].0)[0]),
{
    crate::schema::lemma_unjoined(seq![span.ids[k], file.0, span.start as u32, span.end as u32]);
    crate::schema::lemma_unjoined(span.ids);
    assert(span.ids[k] == unjoined(fan_out(file, span)[k].0)[0]);
}

/// The index records of one label come in the order of file, start and end:
/// their keys order as those do.
pub proof fn lemma_index_order(label: u32, a: (u32, u32, u32), b: (u32, u32, u32))
    ensures
        crate::schema::bytes_lt(
            joined(seq![label, a.0, a.1, a.2]),
            joined(seq![label, b.0, b.1, b.2]),
        ) <==> (a.0 < b.0 || (a.0 == b.0 && (a.1 < b.1 || (a.1 == b.1 && a.2 < b.2)))),
{
    let x = seq![label, a.0, a.1, a.2];
    let y = seq![label, b.0, b.1, b.2];
    lemma_joined_order(x, y);
    let x1 = x.drop_first();
    let y1 = y.drop_first();
    let x2 = x1.drop_first();
    let y2 = y1.drop_first();
    let x3 = x2.drop_first();
    let y3 = y2.drop_first();
    assert(x1.first() == a.0 && x2.first() == a.1 && x3.first() == a.2);
    assert(y1.first() == b.0 && y2.first() == b.1 && y3.first() == b.2);
    assert(x3.drop_first().len() == 0 && y3.drop_first().len() == 0);
    assert(!ids_lt(x3.drop_first(), y3.drop_first()));
    assert(ids_lt(x3, y3) == (a.2 < b.2));
    assert(ids_lt(x2, y2) == (a.1 < b.1 || (a.1 == b.1 && a.2 < b.2)));
    assert(ids_lt(x1, y1) == (a.0 < b.0 || (a.0 == b.0 && ids_lt(x2, y2))));
    assert(ids_lt(x, y) == ids_lt(x1, y1));
}

/// The index after the writes have been put into it, one after the other,
/// each in place of what lay under its key.
pub open spec fn written(index: Map<Seq<u8>, Seq<u8>>, writes: Seq<(Seq<u8>, Seq<u8>)>) -> Map<
    Seq<u8>,
    Seq<u8>,
>
    decreases writes.len(),
{
    if writes.len() == 0 {
        index
    } else {
        written(index, writes.drop_last()).insert(writes.last().0, writes.last().1)
    }
}

/// One of the writes goes to `key`.
pub open spec fn writes_to(writes: Seq<(Seq<u8>, Seq<u8>)>, key: Seq<u8>) -> bool {
    exists|i: int| 0 <= i < writes.len() && writes[i].0 == key
}

/// What lies under `key` in `a` is what lies under it in `b`.
pub open spec fn same_at(a: Map<Seq<u8>, Seq<u8>>, b: Map<Seq<u8>, Seq<u8>>, key: Seq<u8>) -> bool {
    a.contains_key(key) == b.contains_key(key) && (a.contains_key(key) ==> a[key] == b[key])
}

/// Under a key that the writes go to, the index holds afterwards what the
/// writes say, whatever it held before; under any other key, what it held.
proof fn lemma_written_at(
    a: Map<Seq<u8>, Seq<u8>>,
    b: Map<Seq<u8>, Seq<u8>>,
    writes: Seq<(Seq<u8>, Seq<u8>)>,
    key: Seq<u8>,
)
    requires
        writes_to(writes, key) || same_at(a, b, key),
    ensures
        same_at(written(a, writes), written(b, writes), key),
        !writes_to(writes, key) ==> same_at(written(a, writes), a, key),
    decreases writes.len(),
{
    if writes.len() > 0 {
        let rest = writes.drop_last();
        if writes.last().0 != key {
            if writes_to(writes, key) {
                let i = choose|i: int| 0 <= i < writes.len() && writes[i].0 == key;
                assert(rest[i].0 == key);
            }
            if writes_to(rest, key) {
                let i = choose|i: int| 0 <= i < rest.len() && rest[i].0 == key;
                assert(writes[i].0 == key);
            }
            lemma_written_at(a, b, rest, key);
        } else {
            assert(writes[writes.len() - 1].0 == key);
        }
    }
}

/// Finishing a file twice leaves the index as finishing it once does: the
/// same writes, put in again, change nothing.
pub proof fn lemma_finish_twice(index: Map<Seq<u8>, Seq<u8>>, writes: Seq<(Seq<u8>, Seq<u8>)>)
    ensures
        written(written(index, writes), writes) == written(index, writes),
{
    let once = written(index, writes);
    let twice = written(once, writes);
    assert forall|key: Seq<u8>| same_at(twice, once, key) by {
        if !writes_to(writes, key) {
            lemma_written_at(index, index, writes, key);
            assert(same_at(once, index, key));
        }
        lemma_written_at(once, index, writes, key);
    }
    assert forall|key: Seq<u8>| twice.contains_key(key) == once.contains_key(key) by {
        assert(same_at(twice, once, key));
    }
    assert forall|key: Seq<u8>| twice.contains_key(key) implies twice[key] == once[key] by {
        assert(same_at(twice, once, key));
    }
    assert(twice =~= once);
}

/// A range of a file over which an entity is active, with every entity that
/// is active there.
#[derive(Clone, Debug)]
pub struct Reference {
    pub file: FileId,
    pub start: u32,
    pub end: u32,
    pub entities: Vec<u8>,
}

/// The row has the layout of an index record: a key of an entity, a file, a
/// start and an end, and a value of whole labels.
pub open spec fn reference_shaped(row: (Seq<u8>, Seq<u8>)) -> bool {
    row.0.len() == 16 && row.1.len() % 4 == 0
}

impl Reference {
    /// The reference is what the row says.
    pub open spec fn from_row(self, row: (Seq<u8>, Seq<u8>)) -> bool {
        &&& self.file.0 == unjoined(row.0)[1]
        &&& self.start == unjoined(row.0)[2]
        &&& self.end == unjoined(row.0)[3]
        &&& self.entities@ == row.1
    }

    /// The reference that an index record holds; none where the record does
    /// not have the layout of one.
    pub fn load(row: &(Vec<u8>, Vec<u8>)) -> (r: Option<Self>)
        ensures
            r is Some <==> reference_shaped((row.0@, row.1@)),
            r matches Some(reference) ==> reference.from_row((row.0@, row.1@)),
    {
        if row.0.len() != 16 || row.1.len() % 4 != 0 {
            return None;
        }
        let ids = keys(row.0.as_slice());
        let mut entities: Vec<u8> = Vec::new();
        extend(&mut entities, row.1.as_slice());
        Some(Reference { file: FileId::new(ids[1]), start: ids[2], end: ids[3], entities })
    }

    /// Every entity that is active over the range, in ascending order.
    pub fn entities(&self) -> (ids: Vec<EntityId>)
        requires
            self.entities@.len() % 4 == 0,
        ensures
            ids@.len() == unjoined(self.entities@).len(),
            forall|i: int| 0 <= i < ids@.len() ==> (#[trigger] ids@[i]).0 == unjoined(
                self.entities@,
            )[i],
    {
        let raw = keys(self.entities.as_slice());
        let mut ids: Vec<EntityId> = Vec::new();
        let mut i: usize = 0;
        while i < raw.len()
            invariant
                i <= raw@.len(),
                ids@.len() == i,
                forall|j: int| 0 <= j < i ==> (#[trigger] ids@[j]).0 == raw@[j],
            decreases raw@.len() - i,
        {
            ids.push(EntityId::new(raw[i]));
            i += 1;
        }
        ids
    }

    /// The range of the reference.
    pub fn range(&self) -> (r: Range<u32>)
        ensures
            r.start == self.start,
            r.end == self.end,
    {
        self.start..self.end
    }
}

/// The key starts with the bytes of the entity.
pub open spec fn prefixed(entity: EntityId, key: Seq<u8>) -> bool {
    key.len() >= 4 && key.subrange(0, 4) == be_bytes(entity.0)
}

/// The rows whose keys start with the bytes of the entity, in their order.
pub open spec fn selected(entity: EntityId, rows: Seq<(Seq<u8>, Seq<u8>)>) -> Seq<
    (Seq<u8>, Seq<u8>),
>
    decreases rows.len(),
{
    if rows.len() == 0 {
        Seq::empty()
    } else if prefixed(entity, rows.last().0) {
        selected(entity, rows.drop_last()).push(rows.last())
    } else {
        selected(entity, rows.drop_last())
    }
}

/// The references are what the rows say, one for one.
pub open spec fn loaded(found: Seq<Reference>, rows: Seq<(Seq<u8>, Seq<u8>)>) -> bool {
    &&& found.len() == rows.len()
    &&& forall|i: int|
        0 <= i < found.len() ==> reference_shaped(#[trigger] rows[i]) && found[i].from_row(rows[i])
}

/// The references of an entity from rows of the index, in the order of the
/// rows: one for each row whose key starts with the entity. They are refused
/// as malformed where one of those rows does not have the layout of an index
/// record.
pub fn references(entity: EntityId, rows: &Vec<(Vec<u8>, Vec<u8>)>) -> (r: Result<
    Vec<Reference>,
    Error,
>)
    ensures
        match r {
            Ok(found) => loaded(found@, selected(entity, pairs(rows@))),
            Err(e) => e == Error::Malformed && exists|i: int|
                0 <= i < selected(entity, pairs(rows@)).len() && !reference_shaped(
                    #[trigger] selected(entity, pairs(rows@))[i],
                ),
        },
{
    let prefix = crate::schema::to_be(entity.0);
    let mut found: Vec<Reference> = Vec::new();
    let ghost all = pairs(rows@);
    let mut i: usize = 0;
    proof {
        assert(all.take(0) =~= Seq::<(Seq<u8>, Seq<u8>)>::empty());
    }
    while i < rows.len()
        invariant
            i <= rows@.len(),
            all == pairs(rows@),
            prefix@ == be_bytes(entity.0),
            loaded(found@, selected(entity, all.take(i as int))),
        decreases rows@.len() - i,
    {
        let row = &rows[i];
        let ghost before = selected(entity, all.take(i as int));
        let ghost now = selected(entity, all.take(i + 1));
        proof {
            assert(all.take(i + 1).drop_last() =~= all.take(i as int));
            assert(all.take(i + 1).last() == all[i as int]);
            assert(all[i as int] == (row.0@, row.1@));
        }
        let hit = row.0.len() >= 4 && row.0[0] == prefix[0] && row.0[1] == prefix[1] && row.0[2]
            == prefix[2] && row.0[3] == prefix[3];
        proof {
            if hit {
                assert(row.0@.subrange(0, 4) =~= be_bytes(entity.0));
            } else if row.0@.len() >= 4 {
                assert(row.0@.subrange(0, 4)[0] == row.0@[0]);
                assert(row.0@.subrange(0, 4)[1] == row.0@[1]);
                assert(row.0@.subrange(0, 4)[2] == row.0@[2]);
                assert(row.0@.subrange(0, 4)[3] == row.0@[3]);
            }
            assert(hit == prefixed(entity, all[i as int].0));
            if hit {
                assert(now == before.push(all[i as int]));
            } else {
                assert(now == before);
            }
        }
        if hit {
            match Reference::load(row) {
                Some(reference) => {
                    let ghost had = found@;
                    found.push(reference);
                    proof {
                        assert forall|j: int| 0 <= j < found@.len() implies reference_shaped(
                            #[trigger] now[j],
                        ) && found@[j].from_row(now[j]) by {
                            if j < had.len() {
                                assert(found@[j] == had[j]);
                                assert(now[j] == before[j]);
                                assert(reference_shaped(before[j]));
                            } else {
                                assert(now[j] == all[i as int]);
                            }
                        }
                    }
                },
                None => {
                    proof {
                        let at = before.len() as int;
                        lemma_selected_prefix(entity, all, i + 1);
                        assert(now[at] == all[i as int]);
                        assert(selected(entity, all)[at] == all[i as int]);
                        assert(!reference_shaped(selected(entity, all)[at]));
                    }
                    return Err(Error::Malformed);
                },
            }
        }
        i += 1;
    }
    proof {
        assert(all.take(i as int) =~= all);
    }
    Ok(found)
}

/// What is selected from the first `n` rows is the start of what is selected
/// from all of them.
proof fn lemma_selected_prefix(entity: EntityId, rows: Seq<(Seq<u8>, Seq<u8>)>, n: int)
    requires
        0 <= n <= rows.len(),
    ensures
        selected(entity, rows.take(n)).len() <= selected(entity, rows).len(),
        forall|i: int|
            0 <= i < selected(entity, rows.take(n)).len() ==> selected(entity, rows)[i]
                == selected(entity, rows.take(n))[i],
    decreases rows.len() - n,
{
    if n == rows.len() {
        assert(rows.take(n) =~= rows);
    } else {
        lemma_selected_prefix(entity, rows, n + 1);
        assert(rows.take(n + 1).drop_last() =~= rows.take(n));
    }
}

/// What is selected from rows that follow each other is what is selected
/// from the first, and then what is selected from the others.
pub proof fn lemma_selected_concat(
    entity: EntityId,
    a: Seq<(Seq<u8>, Seq<u8>)>,
    b: Seq<(Seq<u8>, Seq<u8>)>,
)
    ensures
        selected(entity, a + b) == selected(entity, a) + selected(entity, b),
    decreases b.len(),
{
    if b.len() == 0 {
        assert(a + b =~= a);
        assert(selected(entity, a) + selected(entity, b) =~= selected(entity, a));
    } else {
        assert((a + b).drop_last() =~= a + b.drop_last());
        assert((a + b).last() == b.last());
        lemma_selected_concat(entity, a, b.drop_last());
        assert(selected(entity, a + b) =~= selected(entity, a) + selected(entity, b));
    }
}

/// The index records of the spans that hold the label `entity`, one for
/// each, in the order of the spans.
pub open spec fn records_of(entity: EntityId, file: FileId, p: Seq<Span>) -> Seq<
    (Seq<u8>, Seq<u8>),
>
    decreases p.len(),
{
    if p.len() == 0 {
        Seq::empty()
    } else if p.last().ids.contains(entity.0) {
        records_of(entity, file, p.drop_last()).push(
            (
                joined(seq![entity.0, file.0, p.last().start as u32, p.last().end as u32]),
                joined(p.last().ids),
            ),
        )
    } else {
        records_of(entity, file, p.drop_last())
    }
}

/// Among the first `n` index records of a span, those of a label are the
/// one of its place among the labels, if that place is among the first `n`.
proof fn lemma_fan_out_selected(entity: EntityId, file: FileId, span: Span, n: int)
    requires
        0 <= n <= span.ids.len(),
        forall|a: int, b: int| 0 <= a < b < span.ids.len() ==> span.ids[a] < span.ids[b],
    ensures
        selected(entity, fan_out(file, span).take(n)) == if exists|k: int|
            0 <= k < n && span.ids[k] == entity.0 {
            seq![
                (
                    joined(seq![entity.0, file.0, span.start as u32, span.end as u32]),
                    joined(span.ids),
                ),
            ]
        } else {
            Seq::<(Seq<u8>, Seq<u8>)>::empty()
        },
    decreases n,
{
    let rows = fan_out(file, span).take(n);
    if n == 0 {
        assert(rows =~= Seq::<(Seq<u8>, Seq<u8>)>::empty());
    } else {
        lemma_fan_out_selected(entity, file, span, n - 1);
        assert(rows.drop_last() =~= fan_out(file, span).take(n - 1));
        let last = rows.last();
        let parts = seq![span.ids[n - 1], file.0, span.start as u32, span.end as u32];
        assert(last.0 == joined(parts));
        crate::schema::lemma_joined_index(parts, 0);
        assert(last.0.subrange(0, 4) == be_bytes(span.ids[n - 1]));
        crate::schema::lemma_be_order(span.ids[n - 1], entity.0);
        assert(prefixed(entity, last.0) == (span.ids[n - 1] == entity.0));
        if span.ids[n - 1] == entity.0 {
            assert forall|k: int| 0 <= k < n - 1 implies span.ids[k] != entity.0 by {
                assert(span.ids[k] < span.ids[n - 1]);
            }
            assert(selected(entity, rows) =~= seq![last]);
        } else {
            if exists|k: int| 0 <= k < n && span.ids[k] == entity.0 {
                let k = choose|k: int| 0 <= k < n && span.ids[k] == entity.0;
                assert(0 <= k < n - 1 && span.ids[k] == entity.0);
            }
        }
    }
}

/// What a label finds in the index of a file that was finished: for each
/// range of the partition over which the label is active one record, in the
/// order of the ranges, which names the range and holds every label that is
/// active there; and nothing else.
pub proof fn lemma_index_selected(entity: EntityId, file: FileId, p: Seq<Span>)
    requires
        forall|i: int, a: int, b: int|
            0 <= i < p.len() && 0 <= a < b < p[i].ids.len() ==> (#[trigger] p[i].ids[a]) < (
            #[trigger] p[i].ids[b]),
    ensures
        selected(entity, index_records(file, p)) == records_of(entity, file, p),
    decreases p.len(),
{
    if p.len() > 0 {
        let span = p.last();
        lemma_index_selected(entity, file, p.drop_last());
        lemma_selected_concat(entity, index_records(file, p.drop_last()), fan_out(file, span));
        assert forall|a: int, b: int| 0 <= a < b < span.ids.len() implies span.ids[a]
            < span.ids[b] by {
            assert(p[p.len() - 1].ids[a] < p[p.len() - 1].ids[b]);
        }
        lemma_fan_out_selected(entity, file, span, span.ids.len() as int);
        assert(fan_out(file, span).take(span.ids.len() as int) =~= fan_out(file, span));
        if span.ids.contains(entity.0) {
            let k = choose|k: int| 0 <= k < span.ids.len() && span.ids[k] == entity.0;
            assert(0 <= k < span.ids.len() && span.ids[k] == entity.0);
        }
    }
}

} // verus!
