use duvet::analysis;
use duvet::citation::idset::IdSet;
use duvet::citation::token;
use duvet::citation::types::{Type, TypeSet};
use duvet::coverage::{notify, Event};
use duvet::former;
use duvet::html::{level_id, Config};
use duvet::notification::{Level, Notification, Notifications, Simple};
use duvet::region::Reference;
use duvet::rust_source::{on_grouped_span, on_span, LineColumn, Span};
use duvet::schema::{join, EntityId, FileId, InstanceId, NotificationId};

#[test]
fn bits_of_an_id_set() {
    let mut set = IdSet::default();
    for index in 0..64 {
        assert!(!set.get(index));
    }
    set.enable(0);
    set.enable(63);
    set.set(17, true);
    set.set(18, false);
    for index in 0..64 {
        assert_eq!(set.get(index), index == 0 || index == 17 || index == 63);
    }
    set.disable(0);
    set.disable(1);
    set.set(63, false);
    for index in 0..64 {
        assert_eq!(set.get(index), index == 17);
    }
    let set = IdSet::from_iter(&[3, 5, 3, 62]);
    for index in 0..64 {
        assert_eq!(set.get(index), index == 3 || index == 5 || index == 62);
    }
}

#[test]
fn types_of_a_type_set() {
    let mut set = TypeSet(IdSet::default());
    set.enable(Type(4));
    set.set(Type(9), true);
    assert!(set.get(Type(4)));
    assert!(set.get(Type(9)));
    assert!(!set.get(Type(5)));
    set.disable(Type(4));
    assert!(!set.get(Type(4)));
}

#[test]
fn locations() {
    let l = token::Location::new(3, 8);
    assert_eq!((l.line, l.indent), (3, 8));
    let l = analysis::tokenizer::Location::new(0, 0);
    assert_eq!((l.line, l.indent), (0, 0));
    let a = analysis::tokenizer::Analysis::default();
    assert!(a.patterns.is_empty());
    assert_eq!(a.meta_prefix, "//=");
    assert_eq!(a.content_prefix, "//#");
}

#[test]
fn identifiers() {
    assert_eq!(InstanceId::default(), InstanceId::new(0));
    assert_eq!(EntityId::new(7).get(), 7);
    assert!(FileId::new(1) < FileId::new(2));
}

#[test]
fn levels() {
    assert_eq!(Level::default(), Level::Info);
    assert_eq!(former::Level::default(), former::Level::Info);
    assert!(Level::Fatal < Level::Error);
    assert_eq!(level_id(Level::Fatal), "f");
    assert_eq!(level_id(Level::Error), "e");
    assert_eq!(level_id(Level::Warning), "w");
    assert_eq!(level_id(Level::Success), "s");
    assert_eq!(level_id(Level::Info), "i");
    assert_eq!(Config::default().outdir, "target/cargo-duvet/report");
    let range = former::Byterange::default();
    assert_eq!((range.start, range.end), (0, 0));
}

#[test]
fn a_simple_notification_as_html_and_json() {
    let simple = Simple {
        code: None,
        title: "a < b & \"c\"".to_string(),
        description: None,
    };
    assert_eq!(
        simple.html(),
        "<div class=n-title>a &lt; b &amp; &quot;c&quot;</div>"
    );
    assert_eq!(simple.json(), "{\"title\":\"a < b & \\\"c\\\"\"}");
    let simple = Simple {
        code: Some("E\t1".to_string()),
        title: "it's".to_string(),
        description: Some("</x>".to_string()),
    };
    assert_eq!(
        simple.html(),
        "<div class=n-title>it&#x27;s</div><div class=n-desc>&lt;&#x2f;x&gt;</div>"
    );
    assert_eq!(
        simple.json(),
        "{\"title\":\"it's\",\"code\":\"E\\t1\",\"description\":\"</x>\"}"
    );
    assert_eq!(simple.tty(), "");
    assert_eq!(simple.text(), "");
    assert_eq!(Simple::html_from("t", Some("d")), "<div class=n-title>t</div><div class=n-desc>d</div>");
    assert_eq!(
        Simple::json_from("t", Some("c"), None),
        "{\"title\":\"t\",\"code\":\"c\"}"
    );
}

#[test]
fn notifications_are_numbered_as_they_come() {
    let mut notifications: Notifications<&'static str> = Notifications::new();
    let a = notifications.create(Level::Error, "first");
    let b = notifications.create(Level::Info, "second");
    assert_eq!(a, NotificationId::new(0));
    assert_eq!(b, NotificationId::new(1));
    assert_eq!(notifications.get(a), &(Level::Error, "first"));
    assert_eq!(notifications.get(b), &(Level::Info, "second"));
    let writes = duvet::notification::notify(FileId::new(1), 2..4, b);
    assert_eq!(writes[0].0, join(&[1, 2]));
    assert_eq!(writes[1].0, join(&[1, 4]));
    assert_eq!(writes[0].1, vec![0, 0, 0, 1, 0, 0, 0, 4]);
    assert!(duvet::notification::notify(FileId::new(1), 4..4, b).is_empty());
}

#[test]
fn notification_regions_are_written_by_file_and_range() {
    let mut finisher = duvet::marker::Finisher::new(FileId::new(2));
    let m = duvet::marker::Marker { id: 9, end: 7 };
    finisher.on_markers(3, &[m]).unwrap();
    finisher.on_markers(7, &[m]).unwrap();
    let entries = finisher.flush().unwrap();
    assert_eq!(
        duvet::notification::finish_file(&entries),
        vec![(join(&[2, 3, 7]), vec![0, 0, 0, 9])]
    );
}

fn reference(file: u32, start: u32, end: u32, entities: &[u32]) -> Reference {
    Reference {
        file: FileId::new(file),
        start,
        end,
        entities: join(entities),
    }
}

#[test]
fn coverage_of_an_entity() {
    let subject = EntityId::new(1);
    let targets = [EntityId::new(5), EntityId::new(6)];

    // no region at all
    assert_eq!(
        notify(subject, &vec![], &targets),
        vec![Event::EntityFailure(subject)]
    );

    // every region shared
    let references = vec![
        reference(1, 0, 4, &[1, 5]),
        reference(1, 4, 9, &[1, 2, 5, 6]),
    ];
    assert_eq!(
        notify(subject, &references, &targets),
        vec![
            Event::RegionSuccess {
                file: FileId::new(1),
                bytes: 0..4,
                entity: subject,
                references: vec![EntityId::new(5)]
            },
            Event::RegionSuccess {
                file: FileId::new(1),
                bytes: 4..9,
                entity: subject,
                references: vec![EntityId::new(5), EntityId::new(6)]
            },
            Event::EntitySuccess(subject),
        ]
    );

    // one region on its own
    let references = vec![reference(1, 0, 4, &[1, 5]), reference(2, 4, 9, &[1, 2])];
    assert_eq!(
        notify(subject, &references, &targets),
        vec![
            Event::RegionSuccess {
                file: FileId::new(1),
                bytes: 0..4,
                entity: subject,
                references: vec![EntityId::new(5)]
            },
            Event::RegionFailure {
                file: FileId::new(2),
                bytes: 4..9,
                entity: subject
            },
            Event::EntityFailure(subject),
        ]
    );

    // the subject does not cover itself
    let references = vec![reference(1, 0, 4, &[5])];
    assert_eq!(
        notify(EntityId::new(5), &references, &targets),
        vec![
            Event::RegionFailure {
                file: FileId::new(1),
                bytes: 0..4,
                entity: EntityId::new(5)
            },
            Event::EntityFailure(EntityId::new(5)),
        ]
    );
}

#[test]
fn places_of_spans() {
    let span = Span {
        start: LineColumn { line: 3, column: 4 },
        end: LineColumn { line: 5, column: 1 },
    };
    assert_eq!(on_span(span), Some(((2, 4), (4, 1))));
    assert_eq!(
        on_grouped_span(span),
        Some((((2, 4), (2, 5)), ((4, 0), (4, 1))))
    );
    let empty = Span {
        start: LineColumn { line: 3, column: 4 },
        end: LineColumn { line: 3, column: 4 },
    };
    assert_eq!(on_span(empty), None);
    assert_eq!(on_grouped_span(empty), None);
}

fn json_title(title: &str) -> String {
    let simple = Simple {
        code: None,
        title: title.to_string(),
        description: None,
    };
    let json = simple.json();
    let head = "{\"title\":\"";
    assert!(json.starts_with(head) && json.ends_with("\"}"));
    json[head.len()..json.len() - 2].to_string()
}

#[test]
fn what_stands_for_a_character_in_json_and_html() {
    for u in 0..0x2500u32 {
        let c = match char::from_u32(u) {
            Some(c) => c,
            None => unreachable!(),
        };
        let expected = match c {
            '"' => "\\\"".to_string(),
            '\\' => "\\\\".to_string(),
            '\u{8}' => "\\b".to_string(),
            '\t' => "\\t".to_string(),
            '\n' => "\\n".to_string(),
            '\u{c}' => "\\f".to_string(),
            '\r' => "\\r".to_string(),
            c if u < 0x20 => format!("\\u00{}{}", ['0', '1'][(u / 16) as usize], {
                let d = u % 16;
                if d < 10 {
                    (b'0' + d as u8) as char
                } else {
                    (b'a' + (d - 10) as u8) as char
                }
            })
            .replace(c, ""),
            c => c.to_string(),
        };
        assert_eq!(json_title(&c.to_string()), expected, "{:x}", u);

        let simple = Simple {
            code: None,
            title: c.to_string(),
            description: None,
        };
        let expected = match c {
            '"' => "&quot;".to_string(),
            '&' => "&amp;".to_string(),
            '\'' => "&#x27;".to_string(),
            '/' => "&#x2f;".to_string(),
            '<' => "&lt;".to_string(),
            '>' => "&gt;".to_string(),
            c => c.to_string(),
        };
        assert_eq!(
            simple.html(),
            format!("<div class=n-title>{}</div>", expected),
            "{:x}",
            u
        );
    }
    assert_eq!(json_title("\u{1}\u{b}\u{1f}\u{7f}é"), "\\u0001\\u000b\\u001f\u{7f}é");
}
