//! Annotations by offset: at each offset at which an annotation starts or
//! ends, the annotations that are active from there on.

use crate::citation::rangemap::Stack;
use crate::error::Error;
use crate::mark::{marked, Mark};
use crate::marker::{decoded, lemma_decoded_merge, lemma_decoded_record, parse, Marker};
use crate::partition::on;
use crate::schema::{
    extend, join, joined, keys, lemma_joined_len, lemma_unjoined, pairs, read_be, unjoined,
    AnnotationId,
};
use core::ops::Range;
use vstd::prelude::*;

verus! {

/// The writes that record the annotation `id` over `bytes`: its record, the
/// annotation and the end of the range, merged under the start of the range
/// and under its end. An empty range is not recorded.
pub fn insert(id: AnnotationId, bytes: Range<u32>) -> (writes: Vec<(Vec<u8>, Vec<u8>)>)
    ensures
        bytes.start >= bytes.end ==> writes@.len() == 0,
        bytes.start < bytes.end ==> {
            &&& writes@.len() == 2
            &&& writes@[0].0@ == joined(seq![bytes.start])
            &&& writes@[0].1@ == Marker { id: id.0, end: bytes.end }.bytes()
            &&& writes@[1].0@ == joined(seq![bytes.end])
            &&& writes@[1].1@ == Marker { id: id.0, end: bytes.end }.bytes()
        },
{
    let start = bytes.start;
    let end = bytes.end;
    let mut writes: Vec<(Vec<u8>, Vec<u8>)> = Vec::new();
    if start >= end {
        return writes;
    }
    let entry = Marker { id: id.0, end };
    let first = [start];
    let second = [end];
    writes.push((join(first.as_slice()), entry.as_bytes()));
    writes.push((join(second.as_slice()), entry.as_bytes()));
    proof {
        assert(first@ =~= seq![bytes.start]);
        assert(second@ =~= seq![bytes.end]);
    }
    writes
}

/// The offset that a key names.
pub fn get_offset(key: &[u8]) -> (offset: u32)
    requires
        key@.len() == 4,
    ensures
        offset == unjoined(key@)[0],
{
    read_be(key, 0)
}

/// The row has the layout of a group of records: a key of an offset, and a
/// value of whole records.
pub open spec fn row_shaped(row: (Seq<u8>, Seq<u8>)) -> bool {
    row.0.len() == 4 && row.1.len() % 8 == 0
}

/// The offset that the key of the row names.
pub open spec fn row_offset(row: (Seq<u8>, Seq<u8>)) -> u32 {
    unjoined(row.0)[0]
}

/// The rows are what the store hands out: each has the layout of a group of
/// records, and their offsets ascend.
pub open spec fn rows_ordered(rows: Seq<(Seq<u8>, Seq<u8>)>) -> bool {
    &&& forall|i: int| 0 <= i < rows.len() ==> row_shaped(#[trigger] rows[i])
    &&& forall|i: int, j: int|
        0 <= i < j < rows.len() ==> row_offset(#[trigger] rows[i]) < row_offset(
            #[trigger] rows[j],
        )
}

/// The `k`-th record of the `j`-th row is one of `id` that ends at `end`.
pub open spec fn record_at(rows: Seq<(Seq<u8>, Seq<u8>)>, j: int, k: int, id: u32, end: u32) -> bool {
    0 <= j < rows.len() && 0 <= k < decoded(rows[j].1).len() && decoded(rows[j].1)[k] == (Marker {
        id,
        end,
    })
}

/// Among the first `n` rows, and the first `m` records of the row behind
/// them, there is a record of `id` that ends at `end`.
pub open spec fn seen(rows: Seq<(Seq<u8>, Seq<u8>)>, n: int, m: int, id: u32, end: u32) -> bool {
    exists|j: int, k: int| #[trigger]
        record_at(rows, j, k, id, end) && (j < n || (j == n && k < m))
}

/// The annotation `id` is active from the offset of the `i`-th row on: a
/// record of it in that row or before ends later.
pub open spec fn alive(rows: Seq<(Seq<u8>, Seq<u8>)>, i: int, id: u32) -> bool {
    exists|end: u32| end > row_offset(rows[i]) && #[trigger] seen(rows, i + 1, 0, id, end)
}

/// The value lists, in ascending order, exactly the annotations that are
/// active from the offset of the `i`-th row on.
pub open spec fn lists_alive(value: Seq<u8>, rows: Seq<(Seq<u8>, Seq<u8>)>, i: int) -> bool {
    &&& value == joined(unjoined(value))
    &&& forall|a: int, b: int|
        0 <= a < b < unjoined(value).len() ==> unjoined(value)[a] < unjoined(value)[b]
    &&& forall|id: u32| unjoined(value).contains(id) <==> alive(rows, i, id)
}

/// The rows of the regions of annotations from the rows of their records as
/// the store hands them out: for each offset one, under the same key, which
/// lists the annotations that are active from there on. Rows that the store
/// cannot have handed out are refused as malformed.
pub fn finish(rows: &Vec<(Vec<u8>, Vec<u8>)>) -> (r: Result<Vec<(Vec<u8>, Vec<u8>)>, Error>)
    ensures
        match r {
            Ok(out) => {
                &&& rows_ordered(pairs(rows@))
                &&& out@.len() == rows@.len()
                &&& forall|i: int|
                    0 <= i < out@.len() ==> (#[trigger] out@[i]).0@ == rows@[i].0@ && lists_alive(
                        out@[i].1@,
                        pairs(rows@),
                        i,
                    )
            },
            Err(e) => e == Error::Malformed && !rows_ordered(pairs(rows@)),
        },
{
    let ghost all = pairs(rows@);
    let mut current = Stack::new();
    let mut out: Vec<(Vec<u8>, Vec<u8>)> = Vec::new();
    let mut last: Option<u32> = None;
    let mut i: usize = 0;
    while i < rows.len()
        invariant
            i <= rows@.len(),
            all == pairs(rows@),
            current.wf(),
            out@.len() == i,
            rows_ordered(all.take(i as int)),
            last is None <==> i == 0,
            last matches Some(o) ==> o == row_offset(all[i - 1]),
            forall|j: int|
                0 <= j < i ==> (#[trigger] out@[j]).0@ == all[j].0 && lists_alive(
                    out@[j].1@,
                    all,
                    j,
                ),
            forall|id: u32|
                current.count(id) > 0 ==> current.count(id) <= u32::MAX && last is Some
                    && current.count(id) > last->0 && seen(
                    all,
                    i as int,
                    0,
                    id,
                    current.count(id) as u32,
                ),
            forall|id: u32, end: u32|
                #[trigger] seen(all, i as int, 0, id, end) && last is Some && end > last->0
                    ==> current.count(id) >= end,
        decreases rows@.len() - i,
    {
        let row = &rows[i];
        if row.0.len() != 4 || row.1.len() % 8 != 0 {
            proof {
                assert(!row_shaped(all[i as int]));
            }
            return Err(Error::Malformed);
        }
        let offset = get_offset(row.0.as_slice());
        match last {
            Some(o) => {
                if offset <= o {
                    proof {
                        assert(!(row_offset(all[i - 1]) < row_offset(all[i as int])));
                    }
                    return Err(Error::Malformed);
                }
            },
            None => {},
        }
        proof {
            assert forall|a: int, b: int| 0 <= a < b < i + 1 implies row_offset(
                #[trigger] all.take(i + 1)[a],
            ) < row_offset(#[trigger] all.take(i + 1)[b]) by {
                if b < i {
                    assert(row_offset(all.take(i as int)[a]) < row_offset(
                        all.take(i as int)[b],
                    ));
                } else if a < i - 1 {
                    assert(row_offset(all.take(i as int)[a]) < row_offset(
                        all.take(i as int)[i - 1],
                    ));
                } else {
                    assert(all.take(i as int)[i - 1] == all[i - 1]);
                }
            }
            assert forall|a: int| 0 <= a < i + 1 implies row_shaped(
                #[trigger] all.take(i + 1)[a],
            ) by {
                if a < i {
                    assert(row_shaped(all.take(i as int)[a]));
                }
            }
        }
        let entries = match parse(row.1.as_slice()) {
            Some(entries) => entries,
            None => {
                return Err(Error::Malformed);
            },
        };
        let mut k: usize = 0;
        while k < entries.len()
            invariant
                i < rows@.len(),
                all == pairs(rows@),
                k <= entries@.len(),
                entries@ == decoded(all[i as int].1),
                offset == row_offset(all[i as int]),
                last matches Some(o) ==> o < offset,
                current.wf(),
                forall|id: u32|
                    current.count(id) > 0 ==> current.count(id) <= u32::MAX && seen(
                        all,
                        i as int,
                        k as int,
                        id,
                        current.count(id) as u32,
                    ),
                forall|id: u32, end: u32|
                    #[trigger] seen(all, i as int, k as int, id, end) && end > offset
                        ==> current.count(id) >= end,
            decreases entries@.len() - k,
        {
            let entry = entries[k];
            let ghost before = current;
            // an annotation lasts to the latest of its ends
            if entry.end > offset {
                current.raise(entry.id, entry.end as usize);
            }
            proof {
                assert(record_at(all, i as int, k as int, entry.id, entry.end));
                assert forall|id: u32| current.count(id) > 0 implies current.count(id)
                    <= u32::MAX && seen(all, i as int, k + 1, id, current.count(id) as u32) by {
                    if current.count(id) == before.count(id) {
                        let w = choose|j: int, n: int| #[trigger]
                            record_at(all, j, n, id, before.count(id) as u32) && (j < i || (j
                                == i && n < k));
                        assert(record_at(all, w.0, w.1, id, current.count(id) as u32) && (w.0
                            < i || (w.0 == i && w.1 < k + 1)));
                    } else {
                        assert(record_at(all, i as int, k as int, id, current.count(id) as u32)
                            && (i < i || (i == i && k < k + 1)));
                    }
                }
                assert forall|id: u32, end: u32| #[trigger]
                    seen(all, i as int, k + 1, id, end) && end > offset implies current.count(
                    id,
                ) >= end by {
                    let w = choose|j: int, n: int| #[trigger]
                        record_at(all, j, n, id, end) && (j < i || (j == i && n < k + 1));
                    if w.0 == i && w.1 == k {
                    } else {
                        assert(record_at(all, w.0, w.1, id, end) && (w.0 < i || (w.0 == i && w.1
                            < k)));
                        assert(seen(all, i as int, k as int, id, end));
                    }
                }
            }
            k += 1;
        }
        // drop all of the annotations that ended on this offset
        let kept = current.above(offset as usize);
        let ids = kept.ids();
        let value = join(ids.as_slice());
        let mut key: Vec<u8> = Vec::new();
        extend(&mut key, row.0.as_slice());
        proof {
            lemma_unjoined(ids@);
            kept.lemma_keys_ascend();
            assert forall|id: u32| ids@.contains(id) <==> alive(all, i as int, id) by {
                kept.lemma_keys(id);
                if kept.count(id) > 0 {
                    let end = kept.count(id) as u32;
                    lemma_seen_row(all, i as int, id, end);
                    assert(seen(all, i + 1, 0, id, end));
                }
                if alive(all, i as int, id) {
                    let end = choose|end: u32|
                        end > row_offset(all[i as int]) && #[trigger] seen(
                            all,
                            i + 1,
                            0,
                            id,
                            end,
                        );
                    lemma_seen_row(all, i as int, id, end);
                    assert(current.count(id) >= end);
                }
            }
            assert(lists_alive(value@, all, i as int));
            assert forall|id: u32, end: u32|
                #[trigger] seen(all, i + 1, 0, id, end) && end > offset implies kept.count(id)
                >= end by {
                lemma_seen_row(all, i as int, id, end);
            }
            assert forall|id: u32| kept.count(id) > 0 implies seen(
                all,
                i + 1,
                0,
                id,
                kept.count(id) as u32,
            ) by {
                lemma_seen_row(all, i as int, id, kept.count(id) as u32);
            }
        }
        out.push((key, value));
        current = kept;
        last = Some(offset);
        i += 1;
    }
    proof {
        assert(all.take(i as int) =~= all);
    }
    Ok(out)
}

/// What is seen in a row and before is what is seen before the first record
/// of the next.
proof fn lemma_seen_row(rows: Seq<(Seq<u8>, Seq<u8>)>, i: int, id: u32, end: u32)
    requires
        0 <= i < rows.len(),
    ensures
        seen(rows, i + 1, 0, id, end) == seen(rows, i, decoded(rows[i].1).len() as int, id, end),
{
    let m = decoded(rows[i].1).len() as int;
    if seen(rows, i + 1, 0, id, end) {
        let w = choose|j: int, k: int| #[trigger]
            record_at(rows, j, k, id, end) && (j < i + 1 || (j == i + 1 && k < 0));
        assert(record_at(rows, w.0, w.1, id, end) && (w.0 < i || (w.0 == i && w.1 < m)));
    }
    if seen(rows, i, m, id, end) {
        let w = choose|j: int, k: int| #[trigger]
            record_at(rows, j, k, id, end) && (j < i || (j == i && k < m));
        assert(record_at(rows, w.0, w.1, id, end) && (w.0 < i + 1 || (w.0 == i + 1 && w.1 < 0)));
    }
}

/// `next` is what the store holds after `bytes` were merged under `offset`
/// into `rows`: the bytes behind the value of the row of that offset, or a
/// row of their own where there was none, at its place among the offsets.
pub open spec fn merged(
    rows: Seq<(Seq<u8>, Seq<u8>)>,
    next: Seq<(Seq<u8>, Seq<u8>)>,
    offset: u32,
    bytes: Seq<u8>,
) -> bool {
    ||| exists|i: int|
        0 <= i < rows.len() && (#[trigger] rows[i]).0 == joined(seq![offset]) && next
            == rows.update(i, (rows[i].0, rows[i].1 + bytes))
    ||| exists|k: int|
        0 <= k <= rows.len() && next == #[trigger] rows.insert(k, (joined(seq![offset]), bytes))
            && (forall|i: int| 0 <= i < k ==> row_offset(#[trigger] rows[i]) < offset) && (forall|
            i: int,
        | k <= i < rows.len() ==> row_offset(#[trigger] rows[i]) > offset)
}

/// The row of `offset` holds a record of `id` that ends at `end`.
pub open spec fn holds(rows: Seq<(Seq<u8>, Seq<u8>)>, offset: u32, id: u32, end: u32) -> bool {
    exists|j: int, k: int| #[trigger]
        record_at(rows, j, k, id, end) && row_offset(rows[j]) == offset
}

/// No row is without records.
pub open spec fn filled(rows: Seq<(Seq<u8>, Seq<u8>)>) -> bool {
    forall|i: int| 0 <= i < rows.len() ==> decoded((#[trigger] rows[i]).1).len() > 0
}

/// One of the annotations has the label `id` and the end `end`, is not
/// empty, and starts or ends at `offset`.
pub open spec fn noted(annos: Seq<Mark>, offset: u32, id: u32, end: u32) -> bool {
    exists|n: int|
        0 <= n < annos.len() && (#[trigger] annos[n]).id == id && annos[n].end == end
            && annos[n].start < annos[n].end && (offset == annos[n].start || offset
            == annos[n].end)
}

/// The rows are what a store holds that started empty and took the writes
/// of the annotations: they are in the order of their offsets, none is
/// without records, and for every annotation that is not empty, and for
/// nothing else, its record lies in the row of its start and in the row of
/// its end.
pub open spec fn keeps(rows: Seq<(Seq<u8>, Seq<u8>)>, annos: Seq<Mark>) -> bool {
    &&& rows_ordered(rows)
    &&& filled(rows)
    &&& forall|offset: u32, id: u32, end: u32| #[trigger]
        holds(rows, offset, id, end) <==> noted(annos, offset, id, end)
}

/// The case of `lemma_merged` in which the store held a row of the offset.
proof fn lemma_merged_update(rows: Seq<(Seq<u8>, Seq<u8>)>, i: int, offset: u32, m: Marker)
    requires
        rows_ordered(rows),
        filled(rows),
        0 <= i < rows.len(),
        rows[i].0 == joined(seq![offset]),
    ensures
        rows_ordered(rows.update(i, (rows[i].0, rows[i].1 + m.bytes()))),
        filled(rows.update(i, (rows[i].0, rows[i].1 + m.bytes()))),
        forall|o: u32, id: u32, e: u32| #[trigger]
            holds(rows.update(i, (rows[i].0, rows[i].1 + m.bytes())), o, id, e) <==> holds(
                rows,
                o,
                id,
                e,
            ) || (o == offset && id == m.id && e == m.end),
{
    let next = rows.update(i, (rows[i].0, rows[i].1 + m.bytes()));
    let had = decoded(rows[i].1);
    lemma_unjoined(seq![offset]);
    lemma_decoded_record(m);
    assert(row_shaped(rows[i]));
    lemma_decoded_merge(rows[i].1, m.bytes());
    assert(had + seq![m] =~= had.push(m));
    assert(decoded(next[i].1) == had.push(m));
    assert forall|j: int| 0 <= j < next.len() implies row_offset(#[trigger] next[j])
        == row_offset(rows[j]) && row_shaped(next[j]) by {
        assert(row_shaped(rows[j]));
    }
    assert forall|a: int, b: int| 0 <= a < b < next.len() implies row_offset(#[trigger] next[a])
        < row_offset(#[trigger] next[b]) by {
        assert(row_offset(rows[a]) < row_offset(rows[b]));
    }
    assert forall|j: int| 0 <= j < next.len() implies decoded((#[trigger] next[j]).1).len()
        > 0 by {
        if j != i {
            assert(decoded(rows[j].1).len() > 0);
        }
    }
    assert forall|o: u32, id: u32, e: u32| #[trigger]
        holds(next, o, id, e) <==> holds(rows, o, id, e) || (o == offset && id == m.id && e
            == m.end) by {
        if holds(next, o, id, e) {
            let w = choose|j: int, k: int| #[trigger]
                record_at(next, j, k, id, e) && row_offset(next[j]) == o;
            if w.0 != i || w.1 < had.len() {
                assert(record_at(rows, w.0, w.1, id, e) && row_offset(rows[w.0]) == o);
            }
        }
        if holds(rows, o, id, e) {
            let w = choose|j: int, k: int| #[trigger]
                record_at(rows, j, k, id, e) && row_offset(rows[j]) == o;
            assert(record_at(next, w.0, w.1, id, e) && row_offset(next[w.0]) == o);
        }
        if o == offset && id == m.id && e == m.end {
            assert(record_at(next, i, had.len() as int, id, e) && row_offset(next[i]) == o);
        }
    }
}

/// The case of `lemma_merged` in which the store held no row of the offset.
proof fn lemma_merged_insert(rows: Seq<(Seq<u8>, Seq<u8>)>, k: int, offset: u32, m: Marker)
    requires
        rows_ordered(rows),
        filled(rows),
        0 <= k <= rows.len(),
        forall|i: int| 0 <= i < k ==> row_offset(#[trigger] rows[i]) < offset,
        forall|i: int| k <= i < rows.len() ==> row_offset(#[trigger] rows[i]) > offset,
    ensures
        rows_ordered(rows.insert(k, (joined(seq![offset]), m.bytes()))),
        filled(rows.insert(k, (joined(seq![offset]), m.bytes()))),
        forall|o: u32, id: u32, e: u32| #[trigger]
            holds(rows.insert(k, (joined(seq![offset]), m.bytes())), o, id, e) <==> holds(
                rows,
                o,
                id,
                e,
            ) || (o == offset && id == m.id && e == m.end),
{
    let row = (joined(seq![offset]), m.bytes());
    let next = rows.insert(k, row);
    lemma_unjoined(seq![offset]);
    lemma_joined_len(seq![offset]);
    lemma_decoded_record(m);
    assert(row_shaped(row) && row_offset(row) == offset);
    assert forall|j: int| 0 <= j < next.len() implies row_shaped(#[trigger] next[j]) by {
        if j < k {
            assert(row_shaped(rows[j]));
        } else if j > k {
            assert(row_shaped(rows[j - 1]));
        }
    }
    assert forall|a: int, b: int| 0 <= a < b < next.len() implies row_offset(#[trigger] next[a])
        < row_offset(#[trigger] next[b]) by {
        let a0 = if a < k {
            a
        } else {
            a - 1
        };
        let b0 = if b < k {
            b
        } else {
            b - 1
        };
        if a == k {
            assert(row_offset(rows[b0]) > offset);
        } else if b == k {
            assert(row_offset(rows[a0]) < offset);
        } else {
            assert(row_offset(rows[a0]) < row_offset(rows[b0]));
        }
    }
    assert forall|j: int| 0 <= j < next.len() implies decoded((#[trigger] next[j]).1).len()
        > 0 by {
        if j < k {
            assert(decoded(rows[j].1).len() > 0);
        } else if j > k {
            assert(decoded(rows[j - 1].1).len() > 0);
        }
    }
    assert forall|o: u32, id: u32, e: u32| #[trigger]
        holds(next, o, id, e) <==> holds(rows, o, id, e) || (o == offset && id == m.id && e
            == m.end) by {
        if holds(next, o, id, e) {
            let w = choose|j: int, n: int| #[trigger]
                record_at(next, j, n, id, e) && row_offset(next[j]) == o;
            if w.0 < k {
                assert(record_at(rows, w.0, w.1, id, e) && row_offset(rows[w.0]) == o);
            } else if w.0 > k {
                assert(record_at(rows, w.0 - 1, w.1, id, e) && row_offset(rows[w.0 - 1]) == o);
            }
        }
        if holds(rows, o, id, e) {
            let w = choose|j: int, n: int| #[trigger]
                record_at(rows, j, n, id, e) && row_offset(rows[j]) == o;
            let j2 = if w.0 < k {
                w.0
            } else {
                w.0 + 1
            };
            assert(next[j2] == rows[w.0]);
            assert(record_at(next, j2, w.1, id, e) && row_offset(next[j2]) == o);
        }
        if o == offset && id == m.id && e == m.end {
            assert(record_at(next, k, 0, id, e) && row_offset(next[k]) == o);
        }
    }
}

/// A record that is merged under an offset lies in the row of that offset
/// afterwards, beside what lay there; every other row is as it was, and the
/// rows stay in the order of their offsets.
pub proof fn lemma_merged(
    rows: Seq<(Seq<u8>, Seq<u8>)>,
    next: Seq<(Seq<u8>, Seq<u8>)>,
    offset: u32,
    m: Marker,
)
    requires
        rows_ordered(rows),
        filled(rows),
        merged(rows, next, offset, m.bytes()),
    ensures
        rows_ordered(next),
        filled(next),
        forall|o: u32, id: u32, e: u32| #[trigger]
            holds(next, o, id, e) <==> holds(rows, o, id, e) || (o == offset && id == m.id && e
                == m.end),
{
    let bytes = m.bytes();
    if exists|i: int|
        0 <= i < rows.len() && (#[trigger] rows[i]).0 == joined(seq![offset]) && next
            == rows.update(i, (rows[i].0, rows[i].1 + bytes)) {
        let i = choose|i: int|
            0 <= i < rows.len() && (#[trigger] rows[i]).0 == joined(seq![offset]) && next
                == rows.update(i, (rows[i].0, rows[i].1 + bytes));
        lemma_merged_update(rows, i, offset, m);
    } else {
        let k = choose|k: int|
            0 <= k <= rows.len() && next == #[trigger] rows.insert(
                k,
                (joined(seq![offset]), bytes),
            ) && (forall|i: int| 0 <= i < k ==> row_offset(#[trigger] rows[i]) < offset)
                && (forall|i: int| k <= i < rows.len() ==> row_offset(#[trigger] rows[i]) > offset);
        lemma_merged_insert(rows, k, offset, m);
    }
}

/// A store that is empty keeps no annotation.
pub proof fn lemma_keeps_nothing()
    ensures
        keeps(Seq::empty(), Seq::empty()),
{
}

/// What a store holds after the writes of one more annotation are merged:
/// where it kept the annotations `annos`, it keeps those and the new one. An
/// annotation that is empty has no writes, and the store stays as it is.
pub proof fn lemma_inserted(
    rows: Seq<(Seq<u8>, Seq<u8>)>,
    between: Seq<(Seq<u8>, Seq<u8>)>,
    next: Seq<(Seq<u8>, Seq<u8>)>,
    annos: Seq<Mark>,
    a: Mark,
)
    requires
        keeps(rows, annos),
        a.start >= a.end ==> next == rows,
        a.start < a.end ==> merged(rows, between, a.start, Marker { id: a.id, end: a.end }.bytes())
            && merged(between, next, a.end, Marker { id: a.id, end: a.end }.bytes()),
    ensures
        keeps(next, annos.push(a)),
{
    let more = annos.push(a);
    let m = Marker { id: a.id, end: a.end };
    if a.start < a.end {
        lemma_merged(rows, between, a.start, m);
        lemma_merged(between, next, a.end, m);
    }
    assert forall|o: u32, id: u32, e: u32| #[trigger]
        holds(next, o, id, e) <==> noted(more, o, id, e) by {
        assert(holds(rows, o, id, e) <==> noted(annos, o, id, e));
        if a.start < a.end {
            assert(holds(between, o, id, e) <==> holds(rows, o, id, e) || (o == a.start && id
                == m.id && e == m.end));
            assert(holds(next, o, id, e) <==> holds(between, o, id, e) || (o == a.end && id
                == m.id && e == m.end));
        }
        if noted(annos, o, id, e) {
            let n = choose|n: int|
                0 <= n < annos.len() && (#[trigger] annos[n]).id == id && annos[n].end == e
                    && annos[n].start < annos[n].end && (o == annos[n].start || o
                    == annos[n].end);
            assert(more[n] == annos[n]);
        }
        if a.start < a.end && id == a.id && e == a.end && (o == a.start || o == a.end) {
            assert(more[annos.len() as int] == a);
        }
        if noted(more, o, id, e) {
            let n = choose|n: int|
                0 <= n < more.len() && (#[trigger] more[n]).id == id && more[n].end == e
                    && more[n].start < more[n].end && (o == more[n].start || o == more[n].end);
            if n < annos.len() {
                assert(annos[n] == more[n]);
            }
        }
    }
}

/// In a store that keeps annotations, an annotation is active from the
/// offset of a row on exactly when one of its ranges reaches over that
/// offset.
pub proof fn lemma_alive(rows: Seq<(Seq<u8>, Seq<u8>)>, annos: Seq<Mark>, i: int, id: u32)
    requires
        keeps(rows, annos),
        0 <= i < rows.len(),
    ensures
        alive(rows, i, id) <==> on(marked(annos), row_offset(rows[i]) as int, id),
{
    let at = row_offset(rows[i]);
    if alive(rows, i, id) {
        let end = choose|end: u32| end > row_offset(rows[i]) && #[trigger] seen(rows, i + 1, 0, id, end);
        let w = choose|j: int, k: int| #[trigger]
            record_at(rows, j, k, id, end) && (j < i + 1 || (j == i + 1 && k < 0));
        let from = row_offset(rows[w.0]);
        if w.0 < i {
            assert(row_offset(rows[w.0]) < row_offset(rows[i]));
        }
        assert(record_at(rows, w.0, w.1, id, end) && row_offset(rows[w.0]) == from);
        assert(holds(rows, from, id, end));
        assert(noted(annos, from, id, end));
        let n = choose|n: int|
            0 <= n < annos.len() && (#[trigger] annos[n]).id == id && annos[n].end == end
                && annos[n].start < annos[n].end && (from == annos[n].start || from
                == annos[n].end);
        assert(annos[n].id == id && annos[n].covers(at as int));
    }
    if on(marked(annos), at as int, id) {
        let n = choose|n: int| 0 <= n < annos.len() && annos[n].id == id && annos[n].covers(at as int);
        let a = annos[n];
        assert(noted(annos, a.start, id, a.end));
        assert(holds(rows, a.start, id, a.end));
        let w = choose|j: int, k: int| #[trigger]
            record_at(rows, j, k, id, a.end) && row_offset(rows[j]) == a.start;
        if w.0 > i {
            assert(row_offset(rows[i]) < row_offset(rows[w.0]));
        }
        assert(record_at(rows, w.0, w.1, id, a.end) && (w.0 < i + 1 || (w.0 == i + 1 && w.1 < 0)));
        assert(seen(rows, i + 1, 0, id, a.end));
    }
}

/// In a store that keeps annotations, some annotation is active from the
/// offset of every row on, or else from the offset of the row before it.
proof fn lemma_row_or_before(rows: Seq<(Seq<u8>, Seq<u8>)>, annos: Seq<Mark>, i: int) -> (id: u32)
    requires
        keeps(rows, annos),
        0 <= i < rows.len(),
    ensures
        alive(rows, i, id) || (i > 0 && alive(rows, i - 1, id)),
{
    let at = row_offset(rows[i]);
    let r = decoded(rows[i].1)[0];
    assert(record_at(rows, i, 0, r.id, r.end) && row_offset(rows[i]) == at);
    assert(holds(rows, at, r.id, r.end));
    assert(noted(annos, at, r.id, r.end));
    let n = choose|n: int|
        0 <= n < annos.len() && (#[trigger] annos[n]).id == r.id && annos[n].end == r.end
            && annos[n].start < annos[n].end && (at == annos[n].start || at == annos[n].end);
    let a = annos[n];
    if at == a.start {
        assert(a.id == r.id && a.covers(at as int));
        lemma_alive(rows, annos, i, r.id);
    } else {
        assert(noted(annos, a.start, a.id, a.end));
        assert(holds(rows, a.start, a.id, a.end));
        let w = choose|j: int, k: int| #[trigger]
            record_at(rows, j, k, a.id, a.end) && row_offset(rows[j]) == a.start;
        if w.0 > i {
            assert(row_offset(rows[i]) < row_offset(rows[w.0]));
        }
        assert(w.0 < i);
        if w.0 < i - 1 {
            assert(row_offset(rows[w.0]) < row_offset(rows[i - 1]));
        }
        assert(row_offset(rows[i - 1]) < row_offset(rows[i]));
        assert(a.covers(row_offset(rows[i - 1]) as int));
        lemma_alive(rows, annos, i - 1, r.id);
    }
    r.id
}

/// The regions of a store that keeps annotations: each row lists exactly
/// the annotations of which a range reaches over its offset; the first row
/// lists an annotation; and no row without annotations follows another.
pub proof fn lemma_regions(
    rows: Seq<(Seq<u8>, Seq<u8>)>,
    annos: Seq<Mark>,
    values: Seq<Seq<u8>>,
)
    requires
        keeps(rows, annos),
        values.len() == rows.len(),
        forall|i: int| 0 <= i < rows.len() ==> lists_alive(#[trigger] values[i], rows, i),
    ensures
        forall|i: int, id: u32|
            0 <= i < rows.len() ==> (unjoined(#[trigger] values[i]).contains(id) <==> #[trigger] on(
                marked(annos),
                row_offset(rows[i]) as int,
                id,
            )),
        rows.len() > 0 ==> unjoined(values[0]).len() > 0,
        forall|i: int|
            0 <= i && i + 1 < rows.len() && unjoined(#[trigger] values[i]).len() == 0 ==> unjoined(
                values[i + 1],
            ).len() > 0,
{
    assert forall|i: int, id: u32| 0 <= i < rows.len() implies (unjoined(
        #[trigger] values[i],
    ).contains(id) <==> #[trigger] on(marked(annos), row_offset(rows[i]) as int, id)) by {
        assert(lists_alive(values[i], rows, i));
        lemma_alive(rows, annos, i, id);
    }
    if rows.len() > 0 {
        let id = lemma_row_or_before(rows, annos, 0);
        assert(lists_alive(values[0], rows, 0));
        assert(unjoined(values[0]).contains(id));
    }
    assert forall|i: int|
        0 <= i && i + 1 < rows.len() && unjoined(#[trigger] values[i]).len() == 0 implies unjoined(
        values[i + 1],
    ).len() > 0 by {
        let id = lemma_row_or_before(rows, annos, i + 1);
        assert(lists_alive(values[i], rows, i));
        assert(lists_alive(values[i + 1], rows, i + 1));
        if alive(rows, i, id) {
            assert(unjoined(values[i]).contains(id));
        } else {
            assert(unjoined(values[i + 1]).contains(id));
        }
    }
}

/// The annotations that are active from an offset on.
#[derive(Clone, Debug)]
pub struct Region {
    pub offset: u32,
    pub ids: Vec<u8>,
}

impl Region {
    /// The region that a row of regions holds.
    pub fn new(row: (Vec<u8>, Vec<u8>)) -> (region: Self)
        requires
            row.0@.len() == 4,
        ensures
            region.offset == unjoined(row.0@)[0],
            region.ids@ == row.1@,
    {
        let offset = get_offset(row.0.as_slice());
        Self { offset, ids: row.1 }
    }

    /// The annotations of the region.
    pub fn ids(&self) -> (ids: Vec<AnnotationId>)
        requires
            self.ids@.len() % 4 == 0,
        ensures
            ids@.len() == unjoined(self.ids@).len(),
            forall|i: int| 0 <= i < ids@.len() ==> (#[trigger] ids@[i]).0 == unjoined(self.ids@)[i],
    {
        let raw = keys(self.ids.as_slice());
        let mut ids: Vec<AnnotationId> = Vec::new();
        let mut i: usize = 0;
        while i < raw.len()
            invariant
                i <= raw@.len(),
                ids@.len() == i,
                forall|j: int| 0 <= j < i ==> (#[trigger] ids@[j]).0 == raw@[j],
            decreases raw@.len() - i,
        {
            ids.push(AnnotationId::new(raw[i]));
            i += 1;
        }
        ids
    }
}

} // verus!
