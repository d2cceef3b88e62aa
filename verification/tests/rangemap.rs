use duvet::citation::rangemap::{Point, RangeMap};
use duvet::error::Error;
use duvet::mark::{consolidate, Mark};
use std::ops::Range;

fn map(ranges: &[(Range<u32>, u32)]) -> Vec<(Range<u32>, Vec<u32>)> {
    let mut map = RangeMap::new();

    for (range, id) in ranges.iter() {
        map.insert(range.start..range.end, *id);
    }

    map.iter().collect().unwrap()
}

fn marks(ranges: &[(Range<u32>, u32)]) -> Vec<Mark> {
    ranges
        .iter()
        .map(|(range, id)| Mark {
            start: range.start,
            end: range.end,
            id: *id,
        })
        .collect()
}

#[test]
fn empty() {
    assert_eq!(map(&[]), vec![]);
    assert_eq!(consolidate(&marks(&[])), vec![]);
}

#[test]
fn single() {
    assert_eq!(map(&[(0..4, 0)]), vec![(0..4, vec![0])]);
}

#[test]
fn nested() {
    assert_eq!(map(&[(0..10, 0), (4..5, 0)]), vec![(0..10, vec![0])]);
}

#[test]
fn contiguous() {
    assert_eq!(map(&[(0..4, 0), (4..10, 0)]), vec![(0..10, vec![0])]);
}

#[test]
fn contiguous_reverse() {
    assert_eq!(map(&[(4..10, 0), (0..4, 0)]), vec![(0..10, vec![0])]);
}

#[test]
fn non_contiguous() {
    assert_eq!(
        map(&[(0..4, 0), (6..10, 0)]),
        vec![(0..4, vec![0]), (6..10, vec![0])]
    );
}

#[test]
fn overlap_same_label() {
    assert_eq!(map(&[(0..6, 0), (4..10, 0)]), vec![(0..10, vec![0])]);
}

#[test]
fn multiple() {
    assert_eq!(
        map(&[(0..10, 0), (4..5, 1)]),
        vec![(0..4, vec![0]), (4..5, vec![0, 1]), (5..10, vec![0])]
    );
}

#[test]
fn multiple_reverse() {
    assert_eq!(
        map(&[(4..5, 1), (0..10, 0)]),
        vec![(0..4, vec![0]), (4..5, vec![0, 1]), (5..10, vec![0])]
    );
}

#[test]
fn empty_ranges_are_dropped() {
    assert_eq!(map(&[(4..4, 0), (9..2, 1)]), vec![]);
    let mut map = RangeMap::new();
    map.insert(7..7, 3);
    assert!(map.points.is_empty());
}

#[test]
fn same_start_counts_each_mark() {
    // two marks of one label open at one offset: the label stays active
    // until the later of them has closed
    assert_eq!(map(&[(0..5, 1), (0..7, 1)]), vec![(0..7, vec![1])]);
    assert_eq!(map(&[(0..7, 1), (3..7, 1)]), vec![(0..7, vec![1])]);
}

#[test]
fn touching_different_labels_stay_apart() {
    assert_eq!(
        map(&[(0..4, 0), (4..10, 1)]),
        vec![(0..4, vec![0]), (4..10, vec![1])]
    );
}

#[test]
fn same_range_two_labels() {
    assert_eq!(map(&[(2..9, 7), (2..9, 3)]), vec![(2..9, vec![3, 7])]);
}

#[test]
fn upper_end_of_offsets() {
    assert_eq!(
        map(&[(0..u32::MAX, 1), (u32::MAX - 1..u32::MAX, 2)]),
        vec![
            (0..u32::MAX - 1, vec![1]),
            (u32::MAX - 1..u32::MAX, vec![1, 2])
        ]
    );
}

#[test]
fn disjoint_marks_come_out_as_they_went_in() {
    let input = [(20..30, 2), (0..4, 0), (6..10, 1), (11..12, 0)];
    assert_eq!(
        map(&input),
        vec![
            (0..4, vec![0]),
            (6..10, vec![1]),
            (11..12, vec![0]),
            (20..30, vec![2])
        ]
    );
}

#[test]
fn order_of_insertion_does_not_matter() {
    let input = [(0..10, 0), (4..5, 1), (4..12, 2), (0..5, 1), (10..12, 0)];
    let expected = map(&input);
    let mut permuted = input.to_vec();
    for _ in 0..input.len() {
        permuted.rotate_left(1);
        assert_eq!(map(&permuted), expected);
        let mut reversed = permuted.clone();
        reversed.reverse();
        assert_eq!(map(&reversed), expected);
    }
    assert_eq!(consolidate(&marks(&input)), expected);
}

#[test]
fn sweeping_twice_gives_the_same() {
    let mut map = RangeMap::new();
    map.insert(0..10, 0);
    map.insert(4..5, 1);
    let first = map.iter().collect().unwrap();
    let second = map.iter().collect().unwrap();
    assert_eq!(first, second);
}

#[test]
fn output_is_maximal_non_empty_and_covers_the_input() {
    let input = [(3..9, 5), (0..4, 1), (9..12, 5), (8..10, 2), (20..21, 9)];
    let out = map(&input);
    for entry in out.iter() {
        assert!(entry.0.start < entry.0.end);
        assert!(!entry.1.is_empty());
    }
    for pair in out.windows(2) {
        assert!(pair[0].0.end <= pair[1].0.start);
        if pair[0].0.end == pair[1].0.start {
            assert_ne!(pair[0].1, pair[1].1);
        }
    }
    for at in 0..25u32 {
        let marked = input.iter().any(|(r, _)| r.start <= at && at < r.end);
        let covered = out.iter().any(|(r, _)| r.start <= at && at < r.end);
        assert_eq!(marked, covered);
    }
    assert_eq!(
        out,
        vec![
            (0..3, vec![1]),
            (3..4, vec![1, 5]),
            (4..8, vec![5]),
            (8..10, vec![2, 5]),
            (10..12, vec![5]),
            (20..21, vec![9])
        ]
    );
}

#[test]
fn lazy_sweep_hands_out_one_range_at_a_time() {
    let mut map = RangeMap::new();
    map.insert(0..10, 0);
    map.insert(4..5, 1);
    let mut it = map.iter();
    assert_eq!(it.next(), Ok(Some((0..4, vec![0]))));
    assert_eq!(it.next(), Ok(Some((4..5, vec![0, 1]))));
    assert_eq!(it.next(), Ok(Some((5..10, vec![0]))));
    assert_eq!(it.next(), Ok(None));
    assert_eq!(it.next(), Ok(None));
}

#[test]
fn cancelled_boundaries_leave_no_point() {
    let mut map = RangeMap::new();
    map.insert(0..4, 0);
    map.insert(4..10, 0);
    assert_eq!(
        map.points,
        vec![
            Point {
                offset: 0,
                id: 0,
                enabled: true
            },
            Point {
                offset: 10,
                id: 0,
                enabled: false
            }
        ]
    );
}

#[test]
fn unbalanced_points_are_a_violated_invariant() {
    // a closing without an opening
    let mut map = RangeMap::new();
    map.insert_point(3, 1, false);
    assert_eq!(map.iter().collect(), Err(Error::InvariantViolation));
    // an opening that never closes
    let mut map = RangeMap::new();
    map.insert_point(3, 1, true);
    assert_eq!(map.iter().collect(), Err(Error::InvariantViolation));
    // a closing too many, after a range that is in order
    let mut map = RangeMap::new();
    map.insert(0..5, 1);
    map.insert_point(7, 1, false);
    let mut it = map.iter();
    assert_eq!(it.next(), Ok(Some((0..5, vec![1]))));
    assert_eq!(it.next(), Err(Error::InvariantViolation));
}

#[test]
fn peeking_and_committing() {
    let mut map = RangeMap::new();
    map.insert(0..10, 0);
    map.insert(4..5, 0);
    map.insert(4..5, 1);
    let mut it = map.iter();
    // the first opening makes its label enter
    assert_eq!(it.peek_next(), Some((0, true)));
    assert_eq!(it.commit_next(), Ok(true));
    // a second mark of an active label changes nothing
    assert_eq!(it.peek_next(), Some((4, false)));
    assert_eq!(it.commit_next(), Ok(false));
    assert_eq!(it.peek_next(), Some((4, true)));
    assert_eq!(it.commit_next(), Ok(true));
    assert_eq!(it.peek_next(), Some((5, false)));
    assert_eq!(it.commit_next(), Ok(false));
    assert_eq!(it.peek_next(), Some((5, true)));
    assert_eq!(it.commit_next(), Ok(true));
    assert_eq!(it.peek_next(), Some((10, true)));
    assert_eq!(it.commit_next(), Ok(true));
    assert_eq!(it.peek_next(), None);
    assert!(it.stack.is_empty());

    let mut map = RangeMap::new();
    map.insert_point(3, 1, false);
    let mut it = map.iter();
    assert_eq!(it.peek_next(), Some((3, false)));
    assert_eq!(it.commit_next(), Err(Error::InvariantViolation));
    assert_eq!(it.pos, 0);
}
