use tf_idf_indexer::lexer::{Lexer, tokenize};

fn chars(s: &str) -> Vec<char> {
    s.chars().collect()
}

fn tokens(s: &str) -> Vec<String> {
    tokenize(&chars(s)).iter().map(|t| t.iter().collect()).collect()
}

#[test]
fn mixed_input_token_sequence() {
    assert_eq!(tokens("1999 text text1999 &"), vec!["1999", "text", "text1999", "&"]);
}

#[test]
fn digit_led_run_splits_before_letters() {
    assert_eq!(tokens("1999text"), vec!["1999", "text"]);
}

#[test]
fn alphabetic_led_run_swallows_digits() {
    assert_eq!(tokens("text1999"), vec!["text1999"]);
}

#[test]
fn whitespace_of_any_length_and_kind_collapses() {
    assert_eq!(tokens("a b"), vec!["a", "b"]);
    assert_eq!(tokens("a \t\r\n b"), vec!["a", "b"]);
    assert_eq!(tokens("a\u{a0}\u{2003}b"), vec!["a", "b"]);
    assert_eq!(tokens("  a  "), vec!["a"]);
}

#[test]
fn whitespace_only_yields_no_tokens() {
    assert_eq!(tokens(""), Vec::<String>::new());
    assert_eq!(tokens(" \t\n"), Vec::<String>::new());
}

#[test]
fn other_characters_are_single_tokens() {
    assert_eq!(tokens("&&"), vec!["&", "&"]);
    assert_eq!(tokens("a,b"), vec!["a", ",", "b"]);
    assert_eq!(tokens("\u{1f980}\u{1f600}"), vec!["\u{1f980}", "\u{1f600}"]);
}

#[test]
fn lexer_is_lazy_and_ends_with_none() {
    let content = chars("12 ab");
    let mut lx = Lexer::new(&content);
    let t1 = lx.next_token().expect("first token");
    assert_eq!(t1.iter().collect::<String>(), "12");
    let t2 = lx.next_token().expect("second token");
    assert_eq!(t2.iter().collect::<String>(), "ab");
    assert!(lx.next_token().is_none());
    assert!(lx.next_token().is_none());
}
