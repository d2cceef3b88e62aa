use duvet::error::Error;
use duvet::marker::merge_entry;
use duvet::report::{finish, get_offset, insert, Region};
use duvet::schema::AnnotationId;
use std::collections::BTreeMap;
use std::ops::Range;

fn regions(marks: &[(u32, Range<u32>)]) -> Vec<Region> {
    let mut annos: BTreeMap<Vec<u8>, Vec<u8>> = BTreeMap::new();

    for (id, bytes) in marks.iter().cloned() {
        for (key, value) in insert(AnnotationId::new(id), bytes) {
            let merged = merge_entry(&key, annos.get(&key).map(|v| &v[..]), &value).unwrap();
            annos.insert(key, merged);
        }
    }

    let rows: Vec<(Vec<u8>, Vec<u8>)> = annos.into_iter().collect();
    finish(&rows)
        .unwrap()
        .into_iter()
        .map(Region::new)
        .collect()
}

fn ids(region: &Region) -> Vec<u32> {
    region.ids().iter().map(|id| id.get()).collect()
}

#[test]
fn checked() {
    let cases: Vec<Vec<(u32, Range<u32>)>> = vec![
        vec![],
        vec![(1, 0..2)],
        vec![(1, 0..2), (2, 2..4), (3, 0..5)],
        vec![(1, 0..2), (1, 4..6), (2, 9..9), (3, 20..10)],
        vec![(7, 3..8), (7, 3..5), (9, 5..8), (4, 0..100), (4, 100..101)],
        vec![(1, 0..u32::MAX), (2, 1..2), (3, 2..3), (3, 3..4)],
        vec![(5, 10..20), (6, 20..30), (7, 30..40), (8, 41..42)],
    ];
    for entries in cases.iter() {
        let regions = regions(entries);

        let mut last_count = 0;
        for region in regions.iter() {
            if last_count == 0 {
                assert!(!ids(region).is_empty(), "empty regions should not repeat");
            }
            last_count = ids(region).len();
        }
    }
}

#[test]
fn overlap() {
    let regions = regions(&[(1, 0..2), (2, 2..4), (3, 0..5)]);
    let found: Vec<(u32, Vec<u32>)> = regions.iter().map(|r| (r.offset, ids(r))).collect();
    assert_eq!(
        found,
        vec![
            (0, vec![1, 3]),
            (2, vec![2, 3]),
            (4, vec![3]),
            (5, vec![]),
        ]
    );
}

#[test]
fn an_annotation_lasts_to_the_latest_of_its_ends() {
    let regions = regions(&[(1, 0..5), (1, 2..9), (1, 2..3)]);
    let found: Vec<(u32, Vec<u32>)> = regions.iter().map(|r| (r.offset, ids(r))).collect();
    assert_eq!(
        found,
        vec![
            (0, vec![1]),
            (2, vec![1]),
            (3, vec![1]),
            (5, vec![1]),
            (9, vec![]),
        ]
    );
}

#[test]
fn annotations_write_under_start_and_end() {
    assert!(insert(AnnotationId::new(1), 3..3).is_empty());
    assert_eq!(
        insert(AnnotationId::new(0x0a0b), 1..0x0203),
        vec![
            (vec![0, 0, 0, 1], vec![0, 0, 0x0a, 0x0b, 0, 0, 2, 3]),
            (vec![0, 0, 2, 3], vec![0, 0, 0x0a, 0x0b, 0, 0, 2, 3]),
        ]
    );
    assert_eq!(get_offset(&[0, 0, 2, 3]), 0x0203);
}

#[test]
fn rows_out_of_order_are_refused() {
    let rows = vec![
        (vec![0, 0, 0, 2], vec![]),
        (vec![0, 0, 0, 1], vec![]),
    ];
    assert_eq!(finish(&rows).unwrap_err(), Error::Malformed);
    let rows = vec![(vec![0, 0, 0, 2], vec![]), (vec![0, 0, 0, 2], vec![])];
    assert_eq!(finish(&rows).unwrap_err(), Error::Malformed);
    let rows = vec![(vec![0, 0, 2], vec![])];
    assert_eq!(finish(&rows).unwrap_err(), Error::Malformed);
    let rows = vec![(vec![0, 0, 0, 2], vec![1, 2, 3])];
    assert_eq!(finish(&rows).unwrap_err(), Error::Malformed);
}
