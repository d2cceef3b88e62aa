use duvet::citation::idset::IdSet;
use duvet::citation::tree::{parse, Op, Token, TokenIter, Tree, Word};
use duvet::citation::types::{Type, TypeSet, Types};
use duvet::error::Error;
use duvet::html::{line_regions, region_level, Piece};
use duvet::notification::{Level, Notifications};
use duvet::schema::NotificationId;

fn words(input: &str) -> Vec<Word> {
    let mut it = TokenIter::new(input);
    let mut found = vec![];
    while let Some(word) = it.next().unwrap() {
        found.push(word);
    }
    found
}

fn tokens(input: &str, types: &mut Types) -> Vec<Token> {
    words(input)
        .into_iter()
        .map(|word| match word {
            Word::Any => Token::Any,
            Word::All => Token::All,
            Word::Xor => Token::Xor,
            Word::Not => Token::Not,
            Word::OpenParen => Token::OpenParen,
            Word::CloseParen => Token::CloseParen,
            Word::Type(name) => Token::Type(types.intern(&name).unwrap()),
        })
        .collect()
}

fn eval(expr: &str, sets: &[(&[&str], bool)]) {
    let mut types = Types::new();
    let tokens = tokens(expr, &mut types);
    let tree = parse(&tokens).unwrap();

    for (set, result) in sets {
        let mut types_of = TypeSet(IdSet::default());
        for item in set.iter() {
            types_of.enable(types.resolve(item).expect("missing type"));
        }

        assert_eq!(tree.query(&types_of), *result, "set = {:?}", set);
    }
}

#[test]
fn simple() {
    assert_eq!(words("citation"), vec![Word::Type("citation".to_string())]);
    eval("citation", &[(&[], false), (&["citation"], true)]);
}

#[test]
fn any() {
    assert_eq!(
        words("ANY(citation test)"),
        vec![
            Word::Any,
            Word::OpenParen,
            Word::Type("citation".to_string()),
            Word::Type("test".to_string()),
            Word::CloseParen
        ]
    );
    eval(
        "ANY(citation test)",
        &[
            (&[], false),
            (&["citation"], true),
            (&["test"], true),
            (&["citation", "test"], true),
        ],
    );
}

#[test]
fn all() {
    eval(
        "ALL(citation test)",
        &[
            (&[], false),
            (&["citation"], false),
            (&["test"], false),
            (&["citation", "test"], true),
        ],
    );
}

#[test]
fn any_all() {
    eval(
        "ANY(ALL(citation test) exception)",
        &[
            (&[], false),
            (&["citation"], false),
            (&["test"], false),
            (&["exception"], true),
            (&["citation", "test"], true),
            (&["citation", "test", "exception"], true),
        ],
    );
}

#[test]
fn xor() {
    eval(
        "XOR(citation exception)",
        &[
            (&[], false),
            (&["citation"], true),
            (&["exception"], true),
            (&["citation", "exception"], false),
        ],
    );
}

#[test]
fn xor_any() {
    eval(
        "XOR(ANY(citation test) exception)",
        &[
            (&[], false),
            (&["citation"], true),
            (&["citation", "test"], true),
            (&["exception"], true),
            (&["citation", "exception"], false),
            (&["test", "exception"], false),
        ],
    );
}

#[test]
fn not() {
    eval("NOT(citation)", &[(&[], true), (&["citation"], false)]);
}

#[test]
fn words_of_an_expression() {
    assert_eq!(words("  "), vec![]);
    assert_eq!(
        words(" NOT ( a-b_c9 )x"),
        vec![
            Word::Not,
            Word::OpenParen,
            Word::Type("a-b_c9".to_string()),
            Word::CloseParen,
            Word::Type("x".to_string())
        ]
    );
    // an operator is read also where a name goes on behind it
    assert_eq!(
        words("ANYTHING"),
        vec![Word::Any, Word::Type("THING".to_string())]
    );
    let mut it = TokenIter::new("a $ b");
    assert_eq!(it.next(), Ok(Some(Word::Type("a".to_string()))));
    assert_eq!(it.next(), Err(Error::InvalidExpression));
    assert_eq!(it.cursor, "$ b");
}

#[test]
fn shapes_of_parsed_expressions() {
    let a = Token::Type(Type(0));
    let b = Token::Type(Type(1));
    assert!(matches!(parse(&[a]), Ok(Tree::Type(Type(0)))));
    assert!(matches!(parse(&[a, b]), Ok(Tree::All(args)) if args.len() == 2));
    assert!(matches!(
        parse(&[Token::Any, Token::OpenParen, a, Token::CloseParen]),
        Ok(Tree::Type(Type(0)))
    ));
    assert!(matches!(
        parse(&[Token::Not, Token::OpenParen, a, Token::CloseParen]),
        Ok(Tree::Not(_))
    ));
    assert!(matches!(
        parse(&[Token::Xor, Token::OpenParen, a, b, Token::CloseParen]),
        Ok(Tree::Xor(args)) if args.len() == 2
    ));
    // nothing to combine
    assert!(matches!(parse(&[]), Err(Error::InvalidExpression)));
    assert!(matches!(
        parse(&[Token::Any, Token::OpenParen, Token::CloseParen]),
        Err(Error::InvalidExpression)
    ));
    // closing what was not opened
    assert!(matches!(
        parse(&[a, Token::CloseParen]),
        Err(Error::InvalidExpression)
    ));
    // negating two
    assert!(matches!(
        parse(&[Token::Not, Token::OpenParen, a, b, Token::CloseParen]),
        Err(Error::InvalidExpression)
    ));
    assert!(matches!(
        Op::All.close_parse(vec![Tree::Type(Type(3))]),
        Tree::Type(Type(3))
    ));
    assert!(matches!(
        Op::Not.close_parse(vec![Tree::Type(Type(3))]),
        Tree::Not(_)
    ));
}

#[test]
fn types_are_known_by_their_place() {
    let mut types = Types::new();
    assert_eq!(types.intern("b"), Some(Type(0)));
    assert_eq!(types.intern("a"), Some(Type(1)));
    assert_eq!(types.intern("b"), Some(Type(0)));
    assert_eq!(types.resolve("a"), Some(Type(1)));
    assert_eq!(types.resolve("c"), None);
    assert_eq!(types.get(Type(1)).map(|s| s.as_str()), Some("a"));
    assert_eq!(types.get(Type(2)), None);
}

fn piece(start: u32, end: u32, region: Option<usize>) -> Piece {
    Piece { start, end, region }
}

#[test]
fn pieces_of_a_line() {
    // no region at all
    assert_eq!(line_regions(0..10, &[], 0), (vec![piece(0, 10, None)], 0));
    assert_eq!(line_regions(4..4, &[2..8], 0), (vec![], 0));
    // the regions come later
    assert_eq!(
        line_regions(0..10, &[12..20], 0),
        (vec![piece(0, 10, None)], 0)
    );
    // a region within the line
    assert_eq!(
        line_regions(0..10, &[2..5], 0),
        (
            vec![piece(0, 2, None), piece(2, 5, Some(0)), piece(5, 10, None)],
            1
        )
    );
    // a region that reaches over the end of the line stays for the next
    assert_eq!(
        line_regions(0..10, &[0..5, 0..12], 1),
        (vec![piece(0, 10, Some(1))], 1)
    );
    assert_eq!(
        line_regions(10..20, &[0..5, 0..20, 20..30], 1),
        (vec![piece(10, 20, Some(1))], 2)
    );
    // one that starts within the line and ends behind it is left for the
    // lines to come, and so is the line from there on
    assert_eq!(
        line_regions(0..10, &[0..5, 7..12], 0),
        (vec![piece(0, 5, Some(0)), piece(5, 10, None)], 1)
    );
    // one that started before the line and ends within it is passed over
    assert_eq!(
        line_regions(10..20, &[7..12, 12..20], 0),
        (vec![piece(10, 12, None), piece(12, 20, Some(1))], 2)
    );
    // a region that has passed
    assert_eq!(
        line_regions(10..20, &[0..5, 12..14], 0),
        (
            vec![piece(10, 12, None), piece(12, 14, Some(1)), piece(14, 20, None)],
            2
        )
    );
    // the whole line
    assert_eq!(
        line_regions(3..9, &[3..9], 0),
        (vec![piece(3, 9, Some(0))], 1)
    );
}

#[test]
fn the_level_of_a_region() {
    let mut notifications: Notifications<()> = Notifications::new();
    let error = notifications.create(Level::Error, ());
    let fatal = notifications.create(Level::Fatal, ());
    let success = notifications.create(Level::Success, ());
    assert_eq!(region_level(&notifications, &[]), None);
    assert_eq!(region_level(&notifications, &[fatal]), Some(Level::Fatal));
    assert_eq!(
        region_level(&notifications, &[error, fatal]),
        Some(Level::Error)
    );
    assert_eq!(
        region_level(&notifications, &[error, success, fatal]),
        Some(Level::Success)
    );
    assert_eq!(error, NotificationId::new(0));
}

#[test]
fn resolve_test() {
    let mut intern = Types::new();
    for name in ["hello", "world!"] {
        intern.intern(name);
    }

    let hello = intern.resolve("hello").unwrap();
    let world = intern.resolve("world!").unwrap();

    assert_ne!(hello, world);
    assert!(intern.resolve("other").is_none());
}
