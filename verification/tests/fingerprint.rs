//! Fingerprinting: whitespace splitting, punctuation stripping, case
//! folding, apostrophes, and link handling.

use dr9k::text::{Message, Unit};

fn w(s: &str) -> Unit {
    Unit::Word(s.to_string())
}

#[test]
fn basic() {
    assert_eq!(
        Message::from("a,    b,   c, and   d and    \t e").units,
        vec![w("a"), w("b"), w("c"), w("and"), w("d"), w("and"), w("e")]
    );
}

#[test]
fn punctuation_and_case_are_ignored() {
    assert_eq!(Message::from("Hello, World!!"), Message::from("hello world"));
}

#[test]
fn case_folding_is_not_ascii_only() {
    assert_eq!(Message::from("\u{c9}COLE"), Message::from("\u{e9}cole"));
}

#[test]
fn apostrophes_are_removed() {
    assert_eq!(Message::from("don't"), Message::from("dont"));
    assert_eq!(Message::from("don't").units, vec![w("dont")]);
}

#[test]
fn interior_punctuation_is_kept() {
    assert_eq!(Message::from("a.b").units, vec![w("a.b")]);
    assert_ne!(Message::from("a.b"), Message::from("a b"));
}

#[test]
fn empty_content_has_empty_fingerprint() {
    assert_eq!(Message::from("").units, Vec::<Unit>::new());
    assert_eq!(Message::from("  \t \n ").units, Vec::<Unit>::new());
    assert_eq!(Message::from("!!! ??"), Message::from(""));
}

#[test]
fn links_are_kept_verbatim() {
    assert_eq!(
        Message::from("check https://example.com/a").units,
        vec![w("check"), Unit::Link("https://example.com/a".to_string())]
    );
}

#[test]
fn whitespace_around_link_is_ignored() {
    assert_eq!(
        Message::from("check https://example.com/a"),
        Message::from("check  https://example.com/a  ")
    );
}

#[test]
fn link_case_is_significant() {
    assert_ne!(
        Message::from("https://example.com/A"),
        Message::from("https://example.com/a")
    );
}

#[test]
fn link_requires_scheme() {
    assert_eq!(
        Message::from("see example.com now").units,
        vec![w("see"), w("example.com"), w("now")]
    );
}

#[test]
fn word_and_link_of_same_text_differ() {
    assert_ne!(
        Unit::Word("x".to_string()),
        Unit::Link("x".to_string())
    );
}
