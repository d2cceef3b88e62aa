use duvet::error::Error;
use duvet::marker::merge_entry;
use duvet::region::{finish_file, insert, references, Reference};
use duvet::schema::{join, EntityId, FileId};
use std::collections::BTreeMap;

fn store(marks: &[(u32, std::ops::Range<u32>, u32)]) -> Vec<(Vec<u8>, Vec<u8>)> {
    let mut table: BTreeMap<Vec<u8>, Vec<u8>> = BTreeMap::new();
    for (file, range, id) in marks.iter() {
        for (key, value) in insert(FileId::new(*file), range.clone(), EntityId::new(*id)) {
            let merged = merge_entry(&key, table.get(&key).map(|v| &v[..]), &value).unwrap();
            table.insert(key, merged);
        }
    }
    table.into_iter().collect()
}

#[test]
fn finishing_fans_out_to_every_entity() {
    let rows = store(&[(1, 0..10, 5), (1, 4..5, 6)]);
    let writes = finish_file(FileId::new(1), &rows).unwrap();
    let both = vec![0, 0, 0, 5, 0, 0, 0, 6];
    assert_eq!(
        writes,
        vec![
            (join(&[5, 1, 0, 4]), vec![0, 0, 0, 5]),
            (join(&[5, 1, 4, 5]), both.clone()),
            (join(&[6, 1, 4, 5]), both),
            (join(&[5, 1, 5, 10]), vec![0, 0, 0, 5]),
        ]
    );
}

#[test]
fn finishing_twice_writes_the_same() {
    let rows = store(&[(1, 0..10, 5), (1, 4..5, 6), (1, 4..20, 7)]);
    let first = finish_file(FileId::new(1), &rows).unwrap();
    let second = finish_file(FileId::new(1), &rows).unwrap();
    assert_eq!(first, second);
    let mut index: BTreeMap<Vec<u8>, Vec<u8>> = BTreeMap::new();
    index.extend(first.into_iter());
    let once = index.clone();
    index.extend(second.into_iter());
    assert_eq!(index, once);
}

#[test]
fn references_come_by_file_and_start() {
    let rows = store(&[(2, 7..9, 5), (1, 0..10, 5), (1, 4..5, 6), (1, 20..30, 5)]);
    let mut index: BTreeMap<Vec<u8>, Vec<u8>> = BTreeMap::new();
    index.extend(finish_file(FileId::new(2), &rows).unwrap());
    index.extend(finish_file(FileId::new(1), &rows).unwrap());
    let index: Vec<(Vec<u8>, Vec<u8>)> = index.into_iter().collect();

    let found = references(EntityId::new(5), &index).unwrap();
    let seen: Vec<_> = found
        .iter()
        .map(|r| (r.file, r.range(), r.entities()))
        .collect();
    let five = EntityId::new(5);
    let six = EntityId::new(6);
    assert_eq!(
        seen,
        vec![
            (FileId::new(1), 0..4, vec![five]),
            (FileId::new(1), 4..5, vec![five, six]),
            (FileId::new(1), 5..10, vec![five]),
            (FileId::new(1), 20..30, vec![five]),
            (FileId::new(2), 7..9, vec![five]),
        ]
    );
    for reference in found.iter() {
        assert!(reference.entities().contains(&five));
    }

    let found = references(six, &index).unwrap();
    assert_eq!(found.len(), 1);
    assert_eq!(found[0].start, 4);
    assert_eq!(found[0].end, 5);

    assert!(references(EntityId::new(9), &index).unwrap().is_empty());
}

#[test]
fn a_file_that_was_never_finished_has_no_references() {
    assert!(references(EntityId::new(1), &vec![]).unwrap().is_empty());
}

#[test]
fn malformed_index_rows_are_refused() {
    let rows = vec![(vec![0, 0, 0, 5, 1], vec![])];
    assert!(matches!(
        references(EntityId::new(5), &rows),
        Err(Error::Malformed)
    ));
    let rows = vec![(join(&[5, 1, 0, 4]), vec![0, 0, 0])];
    assert!(matches!(
        references(EntityId::new(5), &rows),
        Err(Error::Malformed)
    ));
    // rows of other entities are not looked at
    assert!(references(EntityId::new(6), &rows).unwrap().is_empty());
    assert!(Reference::load(&(join(&[5, 1, 0, 4]), vec![0, 0, 0, 5])).is_some());
    assert!(Reference::load(&(join(&[5, 1, 0]), vec![0, 0, 0, 5])).is_none());
}

#[test]
fn finishing_refuses_what_for_each_refuses() {
    let rows = vec![(join(&[1, 2]), vec![0, 0, 0, 1, 0, 0, 0, 9])];
    assert!(matches!(
        finish_file(FileId::new(1), &rows),
        Err(Error::InvariantViolation)
    ));
    let rows = vec![(join(&[1, 2]), vec![0, 0, 0, 1, 0, 0, 0])];
    assert!(matches!(
        finish_file(FileId::new(1), &rows),
        Err(Error::Malformed)
    ));
}
