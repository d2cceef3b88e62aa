use duvet::analysis::tokenizer::{Analysis, Location, Token};
use duvet::citation::token;
use duvet::text::{lines, same_text, split_once, strip_prefix, trim_end, trim_start};

fn analysis(meta: &str, content: &str) -> Analysis {
    Analysis {
        patterns: vec![],
        meta_prefix: meta.to_string(),
        content_prefix: content.to_string(),
    }
}

fn meta(line: u32, indent: u32, key: &str, value: &str) -> Token {
    Token::Meta {
        location: Location { line, indent },
        key: key.to_string(),
        value: value.to_string(),
    }
}

fn unnamed(line: u32, indent: u32, value: &str) -> Token {
    Token::UnnamedMeta {
        location: Location { line, indent },
        value: value.to_string(),
    }
}

fn content(line: u32, indent: u32, value: &str) -> Token {
    Token::Content {
        location: Location { line, indent },
        value: value.to_string(),
    }
}

const BASIC: &str = r#"
        //= thing goes here
        //= meta=foo
        //= meta2 = bar
        //# content goes
        //# here
        "#;

const ONLY_UNNAMED: &str = r#"
        //= this is meta
        //= this is other meta
        "#;

const DUPLICATE_META: &str = r#"
        //= meta=1
        //= meta=2
        "#;

const CONFIGURED: &str = r#"
        /*
         *= meta=goes here
         *# content goes here
         */
        "#;

#[test]
fn tokenizer_empty() {
    assert_eq!(Analysis::default().parse("").0, vec![]);
}

#[test]
fn tokenizer_basic() {
    assert_eq!(
        Analysis::default().parse(BASIC).0,
        vec![
            unnamed(1, 8, "thing goes here"),
            meta(2, 8, "meta", "foo"),
            meta(3, 8, "meta2", "bar"),
            content(4, 8, " content goes"),
            content(5, 8, " here"),
        ]
    );
}

#[test]
fn tokenizer_only_unnamed() {
    assert_eq!(
        Analysis::default().parse(ONLY_UNNAMED).0,
        vec![
            unnamed(1, 8, "this is meta"),
            unnamed(2, 8, "this is other meta"),
        ]
    );
}

#[test]
fn tokenizer_duplicate_meta() {
    assert_eq!(
        Analysis::default().parse(DUPLICATE_META).0,
        vec![meta(1, 8, "meta", "1"), meta(2, 8, "meta", "2")]
    );
}

#[test]
fn tokenizer_configured() {
    assert_eq!(
        analysis("*=", "*#").parse(CONFIGURED).0,
        vec![
            meta(2, 9, "meta", "goes here"),
            content(3, 9, " content goes here"),
        ]
    );
}

#[test]
fn tokenizer_edges() {
    // a value may hold equals signs; a key may be empty
    assert_eq!(
        Analysis::default().parse("//= a = b = c\n//==x\n//=\n//#\n\t//#é\r\n//").0,
        vec![
            meta(0, 0, "a", "b = c"),
            meta(1, 0, "", "x"),
            unnamed(2, 0, ""),
            content(3, 0, ""),
            content(4, 1, "é"),
        ]
    );
    // the indent counts bytes
    assert_eq!(
        Analysis::default().parse("\u{2003} //# x").0,
        vec![content(0, 4, " x")]
    );
}

fn citation_tokens(meta: &'static str, content: &'static str, text: &'static str) -> Vec<token::Token> {
    let tokenizer = token::Tokenizer {
        meta_prefix: meta,
        content_prefix: content,
    };
    let mut it = tokenizer.tokenize(text);
    let mut found = vec![];
    while let Some(token) = it.next() {
        found.push(token);
    }
    assert!(it.next().is_none());
    found
}

#[test]
fn citation_tokens_count_lines_from_one() {
    assert_eq!(citation_tokens("//=", "//#", ""), vec![]);
    assert_eq!(
        citation_tokens("//=", "//#", BASIC),
        vec![
            token::Token::UnnamedMeta {
                location: token::Location { line: 2, indent: 8 },
                value: "thing goes here".to_string()
            },
            token::Token::Meta {
                location: token::Location { line: 3, indent: 8 },
                key: "meta".to_string(),
                value: "foo".to_string()
            },
            token::Token::Meta {
                location: token::Location { line: 4, indent: 8 },
                key: "meta2".to_string(),
                value: "bar".to_string()
            },
            token::Token::Content {
                location: token::Location { line: 5, indent: 8 },
                value: " content goes".to_string()
            },
            token::Token::Content {
                location: token::Location { line: 6, indent: 8 },
                value: " here".to_string()
            },
        ]
    );
    assert_eq!(
        citation_tokens("*=", "*#", CONFIGURED),
        vec![
            token::Token::Meta {
                location: token::Location { line: 3, indent: 9 },
                key: "meta".to_string(),
                value: "goes here".to_string()
            },
            token::Token::Content {
                location: token::Location { line: 4, indent: 9 },
                value: " content goes here".to_string()
            },
        ]
    );
}

#[test]
fn pieces_of_text() {
    assert_eq!(trim_start(" \t\u{a0}x y "), "x y ");
    assert_eq!(trim_start("   "), "");
    assert_eq!(trim_start(""), "");
    assert_eq!(trim_end(" x y \n\u{2003}"), " x y");
    assert_eq!(trim_end("  "), "");
    assert_eq!(strip_prefix("//= x", "//="), Some(" x"));
    assert_eq!(strip_prefix("//= x", ""), Some("//= x"));
    assert_eq!(strip_prefix("//", "//="), None);
    assert_eq!(strip_prefix("é=", "é"), Some("="));
    assert_eq!(strip_prefix("/-= x", "//="), None);
    assert_eq!(split_once("a=b=c", '='), ("a", Some("b=c")));
    assert_eq!(split_once("=", '='), ("", Some("")));
    assert_eq!(split_once("abc", '='), ("abc", None));
    assert!(same_text("é", "é"));
    assert!(!same_text("e", "é"));
    assert!(!same_text("ab", "abc"));
}

#[test]
fn lines_of_a_text() {
    assert_eq!(lines(""), Vec::<&str>::new());
    assert_eq!(lines("a"), vec!["a"]);
    assert_eq!(lines("a\n"), vec!["a"]);
    assert_eq!(lines("a\n\n"), vec!["a", ""]);
    assert_eq!(lines("\n"), vec![""]);
    assert_eq!(lines("a\r\nb\rc\r\r\n\r"), vec!["a", "b\rc\r", "\r"]);
    assert_eq!(lines("é\nü"), vec!["é", "ü"]);
    for text in ["", "x", "x\n", "\r\n", "a\r\n\r\nb", "a\n\rb\r", "\n\n\n", "\r"] {
        assert_eq!(lines(text), text.lines().collect::<Vec<_>>());
    }
}

fn ietf_tokens(text: &str) -> Vec<duvet::ietf::Token> {
    let mut tokenizer = duvet::ietf::Tokenizer::new(text);
    let mut found = vec![];
    while let Some(token) = tokenizer.next() {
        found.push(token);
    }
    found
}

fn section(id: &str, title: &str, line: usize) -> duvet::ietf::Token {
    duvet::ietf::Token::Section {
        id: id.to_string(),
        title: title.to_string(),
        line,
    }
}

#[test]
fn headings_of_a_document() {
    let text = "1.  Introduction\n\n   Some text\n   \nplain\n1.2.3 Title here  \nA.1.  In an appendix\nAppendix B.  More\nA. No number\n2019 was\n1.no space";
    assert_eq!(
        ietf_tokens(text),
        vec![
            section("1", "Introduction", 0),
            duvet::ietf::Token::Break { line: 1 },
            duvet::ietf::Token::Content {
                value: "   Some text".to_string(),
                line: 2
            },
            duvet::ietf::Token::Break { line: 3 },
            section("1.2.3", "Title here", 5),
            section("A.1", "In an appendix", 6),
            section("B", "More", 7),
            section("2019", "was", 9),
        ]
    );
    assert_eq!(ietf_tokens(""), vec![]);
    assert_eq!(
        duvet::ietf::match_section("10.2.\u{a0} \tX "),
        Some(("10.2.", "X "))
    );
    assert_eq!(duvet::ietf::match_section("10.2."), None);
    assert_eq!(duvet::ietf::match_section("B.X y"), None);
    assert_eq!(duvet::ietf::match_section("... x"), Some(("...", "x")));
    assert_eq!(
        duvet::ietf::match_appendix("Appendix C. \tTitle"),
        Some(("C.", "Title"))
    );
    assert_eq!(duvet::ietf::match_appendix("Appendix c. Title"), None);
    assert_eq!(duvet::ietf::match_appendix("Appendix C.Title"), None);
    assert_eq!(duvet::ietf::match_appendix("Appendix C"), None);
    assert_eq!(duvet::text::trim_end_matches("1.2...", '.'), "1.2");
    assert_eq!(duvet::text::trim_end_matches("...", '.'), "");
}

#[test]
fn white_space_is_what_unicode_says() {
    for u in 0..=0x10ffffu32 {
        if let Some(c) = char::from_u32(u) {
            assert_eq!(duvet::text::is_whitespace(c), c.is_whitespace(), "{:x}", u);
        }
    }
}
