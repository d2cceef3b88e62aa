use duvet::error::Error;
use duvet::marker::{for_each, mark, merge_entry, parse, Finisher, Marker};
use duvet::schema::{join, keys, EntityId, FileId};
use std::collections::BTreeMap;
use std::ops::Range;

/// An ordered table that merges by the merge function of the library.
struct Table(BTreeMap<Vec<u8>, Vec<u8>>);

impl Table {
    fn new() -> Self {
        Table(BTreeMap::new())
    }

    fn mark(&mut self, file: FileId, bytes: Range<u32>, id: EntityId) {
        for (key, value) in mark(file, bytes, id.get()) {
            let merged = merge_entry(&key, self.0.get(&key).map(|v| &v[..]), &value).unwrap();
            self.0.insert(key, merged);
        }
    }

    fn rows(&self) -> Vec<(Vec<u8>, Vec<u8>)> {
        self.0.iter().map(|(k, v)| (k.clone(), v.clone())).collect()
    }

    fn entries(&self, file: FileId) -> Result<Vec<(Range<u32>, Vec<u32>)>, Error> {
        let entries = for_each(file, &self.rows())?;
        Ok(entries
            .iter()
            .map(|entry| {
                assert_eq!(entry.file, file);
                (entry.start..entry.end, entry.ids())
            })
            .collect())
    }
}

#[test]
fn overlapping_test() {
    let mut markers = Table::new();
    let file = FileId::new(1);
    let entity1 = EntityId::new(1);
    let entity2 = EntityId::new(2);

    markers.mark(file, 0..5, entity1);
    markers.mark(file, 0..7, entity1);
    markers.mark(file, 0..50, entity2);
    markers.mark(file, 51..53, entity1);

    let entries = markers.entries(file).unwrap();

    // ranges that touch and hold the same entities are one range
    assert_eq!(
        entries,
        vec![
            (0..7, vec![1, 2]),
            (7..50, vec![2]),
            (51..53, vec![1]),
        ]
    );
}

#[test]
fn files_are_consolidated_apart() {
    let mut markers = Table::new();
    markers.mark(FileId::new(1), 0..5, EntityId::new(1));
    markers.mark(FileId::new(2), 3..9, EntityId::new(1));
    markers.mark(FileId::new(2), 3..4, EntityId::new(8));
    assert_eq!(
        markers.entries(FileId::new(1)).unwrap(),
        vec![(0..5, vec![1])]
    );
    assert_eq!(
        markers.entries(FileId::new(2)).unwrap(),
        vec![(3..4, vec![1, 8]), (4..9, vec![1])]
    );
    assert_eq!(markers.entries(FileId::new(3)).unwrap(), vec![]);
}

#[test]
fn empty_marks_write_nothing() {
    assert!(mark(FileId::new(1), 5..5, 9).is_empty());
    assert!(mark(FileId::new(1), 6..5, 9).is_empty());
}

#[test]
fn a_mark_writes_its_record_under_both_ends() {
    let writes = mark(FileId::new(0x0102_0304), 0x10..0x0a0b_0c0d, 0xffee_ddcc);
    let record = vec![0xff, 0xee, 0xdd, 0xcc, 0x0a, 0x0b, 0x0c, 0x0d];
    assert_eq!(
        writes,
        vec![
            (vec![1, 2, 3, 4, 0, 0, 0, 0x10], record.clone()),
            (vec![1, 2, 3, 4, 0x0a, 0x0b, 0x0c, 0x0d], record),
        ]
    );
}

#[test]
fn records_are_eight_bytes_big_endian() {
    let marker = Marker {
        id: 0x0102_0304,
        end: 0x0a0b_0c0d,
    };
    assert_eq!(marker.as_bytes(), vec![1, 2, 3, 4, 0x0a, 0x0b, 0x0c, 0x0d]);
    assert_eq!(
        parse(&[1, 2, 3, 4, 0x0a, 0x0b, 0x0c, 0x0d, 0, 0, 0, 1, 0, 0, 0, 2]),
        Some(vec![
            marker,
            Marker { id: 1, end: 2 }
        ])
    );
    assert_eq!(parse(&[]), Some(vec![]));
    assert_eq!(parse(&[0, 0, 0, 1, 0, 0, 0]), None);
}

#[test]
fn keys_are_big_endian_and_order_as_their_numbers() {
    assert_eq!(join(&[1, 0x0100]), vec![0, 0, 0, 1, 0, 0, 1, 0]);
    assert_eq!(keys(&[0, 0, 0, 1, 0, 0, 1, 0]), vec![1, 0x0100]);
    assert_eq!(join(&[]), Vec::<u8>::new());
    let numbers = [0u32, 1, 255, 256, 65_535, 65_536, 0x00ff_ffff, 0x0100_0000, u32::MAX];
    for a in numbers {
        assert_eq!(keys(&join(&[a])), vec![a]);
        for b in numbers {
            assert_eq!(join(&[7, a]) < join(&[7, b]), a < b);
            assert_eq!(join(&[a, 9]) < join(&[b, 3]), a < b);
        }
    }
}

#[test]
fn merging_appends() {
    assert_eq!(merge_entry(&[1], None, &[7, 8]), Some(vec![7, 8]));
    assert_eq!(
        merge_entry(&[1], Some(&[1, 2, 3][..]), &[7, 8]),
        Some(vec![1, 2, 3, 7, 8])
    );
    assert_eq!(merge_entry(&[], Some(&[][..]), &[]), Some(vec![]));
}

#[test]
fn order_of_arrival_does_not_matter() {
    let marks = [(0u32..10u32, 1u32), (4..5, 2), (4..10, 1), (0..5, 3), (5..10, 3)];
    let file = FileId::new(4);
    let mut first = Table::new();
    for (range, id) in marks.iter() {
        first.mark(file, range.clone(), EntityId::new(*id));
    }
    let mut second = Table::new();
    for (range, id) in marks.iter().rev() {
        second.mark(file, range.clone(), EntityId::new(*id));
    }
    assert_ne!(first.rows(), second.rows());
    assert_eq!(first.entries(file), second.entries(file));
    assert_eq!(
        first.entries(file).unwrap(),
        vec![(0..4, vec![1, 3]), (4..5, vec![1, 2, 3]), (5..10, vec![1, 3])]
    );
}

#[test]
fn malformed_rows_are_refused() {
    let file = FileId::new(1);
    // a key that is no file and offset
    let rows = vec![(vec![0, 0, 0, 1, 0, 0], vec![])];
    assert!(matches!(for_each(file, &rows), Err(Error::Malformed)));
    // a value that is no list of records
    let rows = vec![(join(&[1, 0]), vec![0, 0, 0, 1, 0, 0, 0])];
    assert!(matches!(for_each(file, &rows), Err(Error::Malformed)));
    // and that whatever else is wrong
    let rows = vec![
        (join(&[1, 9]), Marker { id: 1, end: 3 }.as_bytes()),
        (vec![1], vec![]),
    ];
    assert!(matches!(for_each(file, &rows), Err(Error::Malformed)));
}

#[test]
fn rows_that_are_no_marks_violate_the_invariant() {
    let file = FileId::new(1);
    // a record that ends before the offset under which it lies
    let rows = vec![(join(&[1, 9]), Marker { id: 1, end: 3 }.as_bytes())];
    assert!(matches!(
        for_each(file, &rows),
        Err(Error::InvariantViolation)
    ));
    // a closing without an opening
    let rows = vec![(join(&[1, 9]), Marker { id: 1, end: 9 }.as_bytes())];
    assert!(matches!(
        for_each(file, &rows),
        Err(Error::InvariantViolation)
    ));
    // an opening without a closing
    let rows = vec![(join(&[1, 2]), Marker { id: 1, end: 9 }.as_bytes())];
    assert!(matches!(
        for_each(file, &rows),
        Err(Error::InvariantViolation)
    ));
    // the same in another file is passed over
    assert_eq!(for_each(FileId::new(2), &rows).unwrap().len(), 0);
}

#[test]
fn the_finisher_takes_groups_one_by_one() {
    let mut finisher = Finisher::new(FileId::new(3));
    let a = Marker { id: 1, end: 4 };
    let b = Marker { id: 2, end: 6 };
    finisher.on_markers(0, &[a]).unwrap();
    finisher.on_markers(2, &[b]).unwrap();
    assert_eq!(
        finisher.on_markers(5, &[a]),
        Err(Error::InvariantViolation)
    );
    finisher.on_markers(4, &[a]).unwrap();
    finisher.on_markers(6, &[b]).unwrap();
    let entries = finisher.flush().unwrap();
    let found: Vec<_> = entries
        .iter()
        .map(|e| (e.file, e.start..e.end, e.buf.clone()))
        .collect();
    assert_eq!(
        found,
        vec![
            (FileId::new(3), 0..2, vec![0, 0, 0, 1]),
            (FileId::new(3), 2..4, vec![0, 0, 0, 1, 0, 0, 0, 2]),
            (FileId::new(3), 4..6, vec![0, 0, 0, 2]),
        ]
    );
}
