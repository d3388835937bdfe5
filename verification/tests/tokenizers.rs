use std::borrow::Cow;

use recon::crawler::Crawler;
use recon::lexer::Lexer;

fn crawl(text: &str) -> Vec<String> {
    let mut crawler = Crawler::new(text);
    let mut out = Vec::new();
    while let Some(token) = crawler.next_token() {
        out.push(token.into_owned());
    }
    out
}

fn lex(text: &str) -> Vec<String> {
    let mut lexer = Lexer::new(text);
    let mut out = Vec::new();
    while let Some(token) = lexer.next_token() {
        out.push(token.into_owned());
    }
    out
}

#[test]
fn crawler_splits_on_whitespace() {
    assert_eq!(crawl("the cat sat"), vec!["the", "cat", "sat"]);
    assert_eq!(crawl("  the\tcat\n\nsat  "), vec!["the", "cat", "sat"]);
}

#[test]
fn crawler_of_empty_text_yields_nothing() {
    assert_eq!(crawl(""), Vec::<String>::new());
    assert_eq!(crawl(" \n\t "), Vec::<String>::new());
    let mut crawler = Crawler::new("");
    assert!(crawler.next_token().is_none());
    assert!(crawler.next_token().is_none());
}

#[test]
fn crawler_strips_punctuation_without_splitting() {
    assert_eq!(crawl("hello, world!"), vec!["hello", "world"]);
    assert_eq!(crawl("don't stop"), vec!["dont", "stop"]);
    assert_eq!(crawl("a-b-c x.y"), vec!["abc", "xy"]);
}

#[test]
fn crawler_keeps_an_empty_token_for_a_span_of_punctuation() {
    assert_eq!(crawl("a -- b"), vec!["a", "", "b"]);
    assert_eq!(crawl("..."), vec![""]);
}

#[test]
fn crawler_borrows_clean_spans_and_copies_the_others() {
    let text = "plain punct! caf\u{e9}";
    let mut crawler = Crawler::new(text);
    let first = crawler.next_token().unwrap();
    assert!(matches!(first, Cow::Borrowed("plain")));
    let second = crawler.next_token().unwrap();
    assert!(matches!(second, Cow::Owned(_)));
    assert_eq!(second, "punct");
    let third = crawler.next_token().unwrap();
    assert!(matches!(third, Cow::Borrowed("caf\u{e9}")));
    assert!(crawler.next_token().is_none());
}

#[test]
fn crawler_handles_multibyte_text() {
    assert_eq!(crawl("na\u{ef}ve \u{4e2d}\u{6587}\u{3000}r\u{e9}sum\u{e9}\u{2014}x"), vec![
        "na\u{ef}ve",
        "\u{4e2d}\u{6587}",
        "r\u{e9}sum\u{e9}x"
    ]);
}

#[test]
fn crawler_len_counts_every_token() {
    assert_eq!(Crawler::new("the cat sat").len(), 3);
    assert_eq!(Crawler::new("").len(), 0);
    assert_eq!(Crawler::new("a -- b").len(), 3);
    let mut crawler = Crawler::new("one two three");
    crawler.next_token();
    assert_eq!(crawler.len(), 3);
    assert_eq!(crawl("x  y\nz").len(), Crawler::new("x  y\nz").len());
}

#[test]
fn crawler_peek_and_skip() {
    let mut crawler = Crawler::new("  ab");
    assert_eq!(crawler.peek_char(), Some(' '));
    crawler.skip_whitespace();
    assert_eq!(crawler.peek_char(), Some('a'));
    crawler.next_token();
    assert_eq!(crawler.peek_char(), None);
}

#[test]
fn lexer_keeps_apostrophes() {
    assert_eq!(lex("don't stop, believin'!"), vec!["don't", "stop", "believin'"]);
    assert_eq!(lex("..."), vec![""]);
    assert_eq!(lex(""), Vec::<String>::new());
}

#[test]
fn lexer_drops_every_other_character_of_a_word() {
    assert_eq!(lex("foo\u{2014}bar baz"), vec!["foobar", "baz"]);
    assert_eq!(lex("a\u{20ac}b \u{20ac} c"), vec!["ab", "", "c"]);
    assert_eq!(Lexer::new("\u{20ac} x").next_token().unwrap(), "");
}

#[test]
fn lexer_borrows_spans_of_kept_characters() {
    let mut lexer = Lexer::new("don't (stop)");
    assert!(matches!(lexer.next_token().unwrap(), Cow::Borrowed("don't")));
    let second = lexer.next_token().unwrap();
    assert!(matches!(second, Cow::Owned(_)));
    assert_eq!(second, "stop");
    assert!(lexer.next_token().is_none());
}

#[test]
fn lexer_peek_and_skip() {
    let mut lexer = Lexer::new("\n'x");
    lexer.skip_whitespace();
    assert_eq!(lexer.peek_char(), Some('\''));
}

#[test]
fn whitespace_is_the_unicode_white_space() {
    let white: Vec<u32> = (0x09..=0x0D)
        .chain([0x20, 0x85, 0xA0, 0x1680])
        .chain(0x2000..=0x200A)
        .chain([0x2028, 0x2029, 0x202F, 0x205F, 0x3000])
        .collect();
    assert_eq!(white.len(), 25);
    for code in 0..=0x3100u32 {
        let Some(c) = char::from_u32(code) else {
            continue;
        };
        let text = format!("a{c}b");
        let split = crawl(&text).len() == 2;
        assert_eq!(split, white.contains(&code), "U+{code:04X}");
        assert_eq!(Crawler::new(&text).len(), if split { 2 } else { 1 });
    }
    assert_eq!(crawl("a\u{180e}b\u{200b}c\u{feff}d"), vec!["abcd"]);
}

#[test]
fn ascii_terms_are_made_of_digits_and_letters() {
    for code in 0..0x80u32 {
        let c = char::from_u32(code).unwrap();
        let kept = c.is_ascii_digit() || c.is_ascii_uppercase() || c.is_ascii_lowercase();
        assert_eq!(recon::text::keeps(c, false), kept);
        assert_eq!(recon::text::keeps(c, true), kept || c == '\'');
    }
}
