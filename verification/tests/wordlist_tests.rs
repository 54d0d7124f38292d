use spellcheck::wordlist::parse_word_list;

#[test]
fn words_are_trimmed() {
    let words = parse_word_list("  cat \n\tdog ");
    assert_eq!(words, vec!["cat".to_string(), "dog".to_string()]);
}

#[test]
fn trailing_newline_adds_no_word() {
    let words = parse_word_list("cat\ndog\n");
    assert_eq!(words, vec!["cat".to_string(), "dog".to_string()]);
}

#[test]
fn empty_content_yields_no_words() {
    let words = parse_word_list("");
    assert!(words.is_empty());
}

#[test]
fn blank_lines_yield_empty_words() {
    let words = parse_word_list("cat\n\ndog");
    assert_eq!(
        words,
        vec!["cat".to_string(), "".to_string(), "dog".to_string()]
    );
}

#[test]
fn carriage_returns_are_trimmed() {
    let words = parse_word_list("cat\r\ndog\r\n");
    assert_eq!(words, vec!["cat".to_string(), "dog".to_string()]);
}

#[test]
fn duplicates_are_kept_in_order() {
    let words = parse_word_list("dog\ncat\ndog");
    assert_eq!(
        words,
        vec!["dog".to_string(), "cat".to_string(), "dog".to_string()]
    );
}

#[test]
fn loading_twice_is_identical() {
    let content = " alpha \nbeta\n\tgamma\n";
    let first = parse_word_list(content);
    let second = parse_word_list(content);
    assert_eq!(first, second);
}

#[test]
fn unicode_whitespace_is_trimmed() {
    let words = parse_word_list("\u{a0}cat\u{3000}\nd og");
    assert_eq!(words, vec!["cat".to_string(), "d og".to_string()]);
}
