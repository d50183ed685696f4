use docrank::lexer::{tokenize, Lexer};

fn lexer_chars(s: &str) -> Vec<char> {
    s.chars().collect()
}

fn lexer_strings(tokens: Vec<&[char]>) -> Vec<String> {
    tokens.into_iter().map(|t| t.iter().collect()).collect()
}

fn lexer_tokens(s: &str) -> Vec<String> {
    let text = lexer_chars(s);
    lexer_strings(tokenize(&text))
}

#[test]
fn lexer_splits_words_numbers_and_punctuation() {
    assert_eq!(lexer_tokens("abc123 45 #"), vec!["abc123", "45", "#"]);
}

#[test]
fn lexer_splits_a_number_from_the_word_after_it() {
    assert_eq!(lexer_tokens("123abc"), vec!["123", "abc"]);
}

#[test]
fn lexer_keeps_digits_inside_a_word() {
    assert_eq!(lexer_tokens("a1b2 c3"), vec!["a1b2", "c3"]);
}

#[test]
fn lexer_takes_punctuation_one_character_at_a_time() {
    assert_eq!(lexer_tokens("a->b();"), vec!["a", "-", ">", "b", "(", ")", ";"]);
    assert_eq!(lexer_tokens("=="), vec!["=", "="]);
}

#[test]
fn lexer_finds_nothing_in_empty_or_blank_text() {
    assert_eq!(lexer_tokens(""), Vec::<String>::new());
    assert_eq!(lexer_tokens(" \t\r\n  "), Vec::<String>::new());
}

#[test]
fn lexer_skips_whitespace_of_every_kind() {
    assert_eq!(lexer_tokens("\n\tfoo \u{a0} bar\u{2003}7\n"), vec!["foo", "bar", "7"]);
}

#[test]
fn lexer_knows_letters_and_digits_beyond_ascii() {
    assert_eq!(lexer_tokens("na\u{ef}ve \u{442}\u{435}\u{441}\u{442}1 \u{663}\u{664}x"), vec![
        "na\u{ef}ve",
        "\u{442}\u{435}\u{441}\u{442}1",
        "\u{663}\u{664}",
        "x"
    ]);
}

#[test]
fn lexer_next_token_returns_none_only_at_the_end() {
    let text = lexer_chars("  glClear(7) ");
    let mut lexer = Lexer::new(&text);
    assert_eq!(lexer.next_token(), Some(&text[2..9]));
    assert_eq!(lexer.next_token(), Some(&text[9..10]));
    assert_eq!(lexer.next_token(), Some(&text[10..11]));
    assert_eq!(lexer.next_token(), Some(&text[11..12]));
    assert_eq!(lexer.remaining(), 1);
    assert_eq!(lexer.next_token(), None);
    assert_eq!(lexer.remaining(), 0);
    assert_eq!(lexer.next_token(), None);
}

#[test]
fn lexer_is_restartable() {
    let text = lexer_chars("one two");
    let mut first = Lexer::new(&text);
    let a = first.next_token();
    let mut second = Lexer::new(&text);
    let b = second.next_token();
    assert_eq!(a, b);
    assert_eq!(a, Some(&text[0..3]));
}

#[test]
fn lexer_trim_left_drops_leading_whitespace_only() {
    let text = lexer_chars(" \n x y ");
    let mut lexer = Lexer::new(&text);
    lexer.trim_left();
    assert_eq!(lexer.remaining(), 4);
    lexer.trim_left();
    assert_eq!(lexer.remaining(), 4);
    assert_eq!(lexer.chop(1), &text[3..4]);
}

#[test]
fn lexer_chop_takes_a_prefix() {
    let text = lexer_chars("hello");
    let mut lexer = Lexer::new(&text);
    assert_eq!(lexer.chop(0), &text[0..0]);
    assert_eq!(lexer.chop(2), &text[0..2]);
    assert_eq!(lexer.remaining(), 3);
    assert_eq!(lexer.chop(3), &text[2..5]);
    assert_eq!(lexer.remaining(), 0);
}

#[test]
fn lexer_chop_while_takes_the_longest_prefix() {
    let text = lexer_chars("aaab");
    let mut lexer = Lexer::new(&text);
    assert_eq!(lexer.chop_while(|c| *c == 'a'), &text[0..3]);
    assert_eq!(lexer.chop_while(|c| *c == 'a'), &text[3..3]);
    assert_eq!(lexer.chop_while(|_| true), &text[3..4]);
    assert_eq!(lexer.chop_while(|_| true), &text[4..4]);
}
