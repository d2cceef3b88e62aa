use duvet::fs::{line_offsets, map_line_column, LineOffsets};
use duvet::error::Error;
use duvet::linemap;
use duvet::source;

const LINEMAP_TEXT: &str = "use core::{\n    fmt,\n    ops::{self, Range},\n};\nuse std::io::{self, BufRead};\n\n#[derive(Clone, Copy, Debug)]\npub struct LinesIter<'a> {\n    content: &'a str,\n}\n";

const SOURCE_TEXT: &str = "use byteorder::BigEndian as BE;\nuse core::{\n    fmt,\n    ops::{self, Range},\n};\n";

#[test]
fn linemap_sanity_checks() {
    let source = linemap::Source::parse(LINEMAP_TEXT.to_string());

    assert_eq!(
        source.line(1).as_ref().map(|l| l.as_str()),
        Some("use core::{\n")
    );
}

#[test]
fn linemap_parse_self_test() {
    let source = linemap::Source::parse(LINEMAP_TEXT.to_string());

    for line in 0..(source.lines.len() * 2) {
        for column in 0..2000 {
            let l = source.line(line);
            let offset = source.lincol_to_offset(line, column);
            if offset.is_some() {
                assert!(l.is_some());
            }
        }
    }
}

#[test]
fn source_sanity_checks() {
    let source = source::Source::parse(SOURCE_TEXT.to_string());

    assert_eq!(
        source.line(1).as_ref().map(|l| l.as_str()),
        Some("use byteorder::BigEndian as BE;\n")
    );
}

#[test]
fn source_parse_self_test() {
    let source = source::Source::parse(SOURCE_TEXT.to_string());

    for line in 0..(source.lines.len() as u32 * 2) {
        for _column in 0..2000 {
            let _ = source.line(line);
        }
    }
}

#[test]
fn lines_end_behind_line_feed_and_carriage_return() {
    let text = "one\ntwo\n\rthree\r\nfour";
    let mut it = linemap::LinesIter::new(text);
    let mut found = vec![];
    while let Some(line) = it.next() {
        found.push((line.line(), line.offset(), line.as_str().to_string()));
    }
    assert_eq!(
        found,
        vec![
            (1, 0, "one\n".to_string()),
            (2, 4, "two\n\r".to_string()),
            (3, 9, "three\r\n".to_string()),
            (4, 16, "four".to_string()),
        ]
    );
    assert!(linemap::LinesIter::new("").next().is_none());
}

#[test]
fn lines_of_text_that_is_not_ascii() {
    let text = "é\nüber\n\r€";
    let mut it = source::LinesIter::new(text);
    let mut found = vec![];
    while let Some(line) = it.next() {
        found.push((line.line(), line.range(), line.as_str().to_string()));
    }
    assert_eq!(
        found,
        vec![
            (1, 0..3, "é\n".to_string()),
            (2, 3..10, "über\n\r".to_string()),
            (3, 10..13, "€".to_string()),
        ]
    );
}

#[test]
fn the_table_of_lines() {
    let source = linemap::Source::parse("ab\n\ncd".to_string());
    let table: Vec<(usize, usize)> = source.lines.iter().map(|m| (m.offset, m.len)).collect();
    assert_eq!(table, vec![(0, 3), (3, 1), (4, 2)]);
    assert!(source.line(0).is_none());
    assert_eq!(source.line(3).map(|l| l.as_str().to_string()), Some("cd".to_string()));
    assert!(source.line(4).is_none());
    assert_eq!(source.lincol_to_offset(1, 2).map(|o| (o.offset, o.line)), Some((2, 1)));
    assert!(source.lincol_to_offset(1, 3).is_none());
    assert!(source.lincol_to_offset(2, 1).is_none());
    assert_eq!(source.lincol_to_offset(3, 1).map(|o| o.offset), Some(5));
    assert!(source.lincol_to_offset(9, 0).is_none());
    let map = source.lines[2];
    assert_eq!(map.range(), 4..6);
    assert_eq!(map.col_to_offset(1), Some(5));
    assert_eq!(map.col_to_offset(2), None);

    let source = source::Source::parse("ab\n\ncd".to_string());
    let table: Vec<(u32, u32)> = source.lines.iter().map(|m| (m.offset(), m.len())).collect();
    assert_eq!(table, vec![(0, 3), (3, 1), (4, 2)]);
    assert_eq!(source.lines[1].range(), 3..4);
    assert_eq!(source.lines[1].range_usize(), 3..4);
    assert!(!source.lines[1].is_empty());
    assert!(source.line(0).is_none());
    assert!(source.line(4).is_none());
}

#[test]
fn trimming_and_splitting_lines() {
    let source = source::Source::parse("first\nsecond\n\r\r\r\nthird\n\n\r".to_string());
    let line = source.line(2).unwrap();
    assert_eq!(line.as_str(), "second\n\r");
    let trimmed = line.trim_end();
    assert_eq!(trimmed.as_str(), "second");
    assert_eq!(trimmed.offset(), 6);
    assert_eq!(trimmed.line(), 2);
    // only carriage returns at the very end go, then only line feeds
    let line = source.line(3).unwrap();
    assert_eq!(line.as_str(), "\r\r\n");
    assert_eq!(line.trim_end().as_str(), "\r\r");

    let line = source.line(1).unwrap();
    let (a, b) = line.split_at_offset(2);
    assert_eq!(a.as_str(), "fi");
    assert_eq!(b.as_str(), "rst\n");
    assert_eq!((a.offset(), a.line()), (0, 1));
    assert_eq!((b.offset(), b.line()), (2, 1));
    assert_eq!(b.range(), 2..6);
    let line = source.line(2).unwrap();
    let (a, b) = line.split_at_offset(6);
    assert_eq!(a.as_str(), "");
    assert_eq!(b.as_str(), "second\n\r");
}

#[test]
fn columns_of_a_line() {
    let source = source::Source::parse("ab\nxéz\n".to_string());
    let first = LineOffsets(line_offsets(&source.line(1).unwrap()));
    let second = LineOffsets(line_offsets(&source.line(2).unwrap()));
    assert_eq!(first.0, vec![0, 0, 0, 0, 0, 0, 0, 1, 0, 0, 0, 2, 0, 0, 0, 3]);
    assert_eq!(first.len(), 4);
    // the second character of the second line takes two bytes
    assert_eq!(second.len(), 5);
    assert_eq!(
        (0..6).map(|c| second.get(c)).collect::<Vec<_>>(),
        vec![Some(3), Some(4), Some(6), Some(7), Some(8), None]
    );

    assert_eq!(map_line_column((0, 1), (0, 3), &first, &second), Ok(1..3));
    assert_eq!(map_line_column((0, 1), (1, 3), &first, &second), Ok(1..7));
    assert_eq!(
        map_line_column((0, 4), (1, 3), &first, &second),
        Err(Error::InvalidStartColumn)
    );
    assert_eq!(
        map_line_column((0, 1), (0, 4), &first, &second),
        Err(Error::InvalidEndColumn)
    );
    assert_eq!(
        map_line_column((0, 1), (1, 5), &first, &second),
        Err(Error::InvalidEndColumn)
    );
    assert_eq!(map_line_column((0, 3), (1, 4), &first, &second), Ok(3..8));
}
