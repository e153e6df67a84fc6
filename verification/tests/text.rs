use lisp_lsp::grammar::RunKind;
use lisp_lsp::text::{
    char_width, chars_of, digit, ident_continue, ident_start, line_break, operator, space,
};

fn all_chars() -> Vec<char> {
    (0..=0x10FFFFu32).filter_map(char::from_u32).collect()
}

#[test]
fn width_is_the_length_of_the_encoding() {
    for c in all_chars() {
        assert_eq!(char_width(c), c.len_utf8());
    }
    assert_eq!(char_width('a'), 1);
    assert_eq!(char_width('\u{E9}'), 2);
    assert_eq!(char_width('\u{3042}'), 3);
    assert_eq!(char_width('\u{1F600}'), 4);
}

#[test]
fn white_space_is_what_unicode_calls_white_space() {
    for c in all_chars() {
        assert_eq!(space(c), c.is_whitespace(), "{:?}", c);
    }
}

#[test]
fn line_breaks_are_seven_characters() {
    let breaks: Vec<char> = all_chars().into_iter().filter(|c| line_break(*c)).collect();
    assert_eq!(breaks, vec!['\n', '\u{0B}', '\u{0C}', '\r', '\u{85}', '\u{2028}', '\u{2029}']);
    assert!(breaks.iter().all(|c| space(*c)));
}

#[test]
fn digits_and_identifier_characters_are_ascii() {
    for c in all_chars() {
        assert_eq!(digit(c), c.is_ascii_digit());
        assert_eq!(ident_start(c), c.is_ascii_alphabetic() || c == '_');
        assert_eq!(ident_continue(c), c.is_ascii_alphanumeric() || c == '_');
        assert_eq!(operator(c), "+-*/=".contains(c));
    }
}

#[test]
fn run_kinds_accept_their_characters() {
    assert!(RunKind::Digits.accepts('7'));
    assert!(!RunKind::Digits.accepts('a'));
    assert!(RunKind::IdentTail.accepts('a'));
    assert!(RunKind::IdentTail.accepts('7'));
    assert!(RunKind::IdentTail.accepts('_'));
    assert!(!RunKind::IdentTail.accepts('-'));
    assert!(RunKind::CommentBody.accepts('('));
    assert!(RunKind::CommentBody.accepts('\t'));
    assert!(!RunKind::CommentBody.accepts('\n'));
    assert!(!RunKind::CommentBody.accepts('\u{2028}'));
}

#[test]
fn chars_of_copies_the_characters() {
    assert_eq!(chars_of(""), Vec::<char>::new());
    assert_eq!(chars_of("a\u{3042}\n"), vec!['a', '\u{3042}', '\n']);
}
