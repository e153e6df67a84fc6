use lisp_lsp::parser::{lexer, LexError, Span, Token};

fn kinds(source: &str) -> Vec<Token> {
    let (tokens, errors) = lexer(source);
    assert!(errors.is_empty());
    tokens.into_iter().map(|entry| entry.0).collect()
}

fn ident(text: &str) -> Token {
    Token::Ident(text.into())
}

fn number(text: &str) -> Token {
    Token::Number(text.into())
}

fn rejected(found: &str, span: Span) -> LexError {
    LexError { span, found: found.into() }
}

const FACTORIAL: &str = r#"
        ; comment
        (defun fact (n)
          (if (= n 0)
              1
              (* n (fact (- n 1)))))

        (print (fact 5)) ; => 120
        "#;

#[test]
fn parse_token() {
    assert_eq!(kinds("("), vec![Token::LParen]);
    assert_eq!(kinds(")"), vec![Token::RParen]);
    assert_eq!(kinds("; comment\n"), vec![Token::Comment]);
    assert_eq!(kinds("; comment"), vec![Token::Comment]);
    assert_eq!(kinds("12345"), vec![Token::Number("12345".into())]);
    assert_eq!(kinds("abc"), vec![Token::Ident("abc".into())]);

    let tokens = kinds(FACTORIAL);
    assert_eq!(
        tokens,
        vec![
            Token::Comment,
            Token::LParen,
            ident("defun"),
            ident("fact"),
            Token::LParen,
            ident("n"),
            Token::RParen,
            Token::LParen,
            ident("if"),
            Token::LParen,
            ident("="),
            ident("n"),
            number("0"),
            Token::RParen,
            number("1"),
            Token::LParen,
            ident("*"),
            ident("n"),
            Token::LParen,
            ident("fact"),
            Token::LParen,
            ident("-"),
            ident("n"),
            number("1"),
            Token::RParen,
            Token::RParen,
            Token::RParen,
            Token::RParen,
            Token::RParen,
            Token::LParen,
            ident("print"),
            Token::LParen,
            ident("fact"),
            number("5"),
            Token::RParen,
            Token::RParen,
            Token::Comment,
        ]
    );
}

#[test]
fn empty_text_has_no_tokens_and_no_errors() {
    assert_eq!(lexer(""), (vec![], vec![]));
}

#[test]
fn white_space_alone_has_no_tokens_and_no_errors() {
    assert_eq!(lexer(" \t\r\n\u{0B}\u{0C}\u{85}\u{A0}\u{3000}\u{2028}"), (vec![], vec![]));
}

#[test]
fn sum_expression_gives_the_tokens_of_the_grammar() {
    let (tokens, errors) = lexer("(+ 1 2)");
    assert_eq!(
        tokens,
        vec![
            (Token::LParen, 0..1),
            (ident("+"), 1..2),
            (number("1"), 3..4),
            (number("2"), 5..6),
            (Token::RParen, 6..7),
        ]
    );
    assert!(errors.is_empty());
}

#[test]
fn tokens_need_no_white_space_between_them() {
    assert_eq!(
        lexer("(a)(b)").0,
        vec![
            (Token::LParen, 0..1),
            (ident("a"), 1..2),
            (Token::RParen, 2..3),
            (Token::LParen, 3..4),
            (ident("b"), 4..5),
            (Token::RParen, 5..6),
        ]
    );
}

#[test]
fn comment_at_the_end_of_the_text_runs_to_the_end() {
    assert_eq!(lexer("; comment"), (vec![(Token::Comment, 0..9)], vec![]));
    assert_eq!(lexer("(a) ; b c"), (
        vec![
            (Token::LParen, 0..1),
            (ident("a"), 1..2),
            (Token::RParen, 2..3),
            (Token::Comment, 4..9),
        ],
        vec![],
    ));
}

#[test]
fn comment_ends_before_the_line_break() {
    assert_eq!(lexer("; comment\n"), (vec![(Token::Comment, 0..9)], vec![]));
    assert_eq!(
        lexer("; one\n  ; two\nx"),
        (vec![(Token::Comment, 0..5), (Token::Comment, 8..13), (ident("x"), 14..15)], vec![])
    );
}

#[test]
fn comment_ends_at_every_kind_of_line_break() {
    for line_break in ["\n", "\u{0B}", "\u{0C}", "\r", "\u{85}", "\u{2028}", "\u{2029}", "\r\n"] {
        let source = format!(";c{line_break}x");
        let after = 2 + line_break.len();
        assert_eq!(
            lexer(&source),
            (vec![(Token::Comment, 0..2), (ident("x"), after..after + 1)], vec![])
        );
    }
}

#[test]
fn comment_may_hold_any_character_but_a_line_break() {
    let source = "; (1 \u{3042} # \u{1F600}\t)\n)";
    assert_eq!(lexer(source), (vec![(Token::Comment, 0..17), (Token::RParen, 18..19)], vec![]));
}

#[test]
fn empty_comment_is_a_token() {
    assert_eq!(lexer(";"), (vec![(Token::Comment, 0..1)], vec![]));
    assert_eq!(lexer(";\n;"), (vec![(Token::Comment, 0..1), (Token::Comment, 2..3)], vec![]));
}

#[test]
fn decimal_with_fraction_is_one_number() {
    assert_eq!(lexer("3.14"), (vec![(number("3.14"), 0..4)], vec![]));
    assert_eq!(lexer("0.5"), (vec![(number("0.5"), 0..3)], vec![]));
    assert_eq!(lexer("10.000"), (vec![(number("10.000"), 0..6)], vec![]));
}

#[test]
fn point_without_digits_behind_it_is_not_part_of_the_number() {
    assert_eq!(lexer("1."), (vec![(number("1"), 0..1)], vec![rejected(".", 1..2)]));
    assert_eq!(
        lexer("1.x"),
        (vec![(number("1"), 0..1), (ident("x"), 2..3)], vec![rejected(".", 1..2)])
    );
    assert_eq!(
        lexer("1.2.3"),
        (vec![(number("1.2"), 0..3), (number("3"), 4..5)], vec![rejected(".", 3..4)])
    );
    assert_eq!(lexer(".5"), (vec![(number("5"), 1..2)], vec![rejected(".", 0..1)]));
}

#[test]
fn zero_does_not_lead_a_longer_number() {
    assert_eq!(lexer("0"), (vec![(number("0"), 0..1)], vec![]));
    assert_eq!(
        lexer("007"),
        (vec![(number("0"), 0..1), (number("0"), 1..2), (number("7"), 2..3)], vec![])
    );
    assert_eq!(lexer("100"), (vec![(number("100"), 0..3)], vec![]));
}

#[test]
fn number_ends_where_an_identifier_starts() {
    assert_eq!(lexer("12abc"), (vec![(number("12"), 0..2), (ident("abc"), 2..5)], vec![]));
}

#[test]
fn identifier_holds_letters_digits_and_underscores() {
    assert_eq!(lexer("_a1_B2"), (vec![(ident("_a1_B2"), 0..6)], vec![]));
    assert_eq!(lexer("a-b"), (
        vec![(ident("a"), 0..1), (ident("-"), 1..2), (ident("b"), 2..3)],
        vec![],
    ));
}

#[test]
fn each_operator_is_an_identifier_by_itself() {
    assert_eq!(
        lexer("+-*/="),
        (
            vec![
                (ident("+"), 0..1),
                (ident("-"), 1..2),
                (ident("*"), 2..3),
                (ident("/"), 3..4),
                (ident("="), 4..5),
            ],
            vec![],
        )
    );
}

#[test]
fn rejected_character_is_skipped_and_reported() {
    assert_eq!(
        lexer("(a # b)"),
        (
            vec![
                (Token::LParen, 0..1),
                (ident("a"), 1..2),
                (ident("b"), 5..6),
                (Token::RParen, 6..7),
            ],
            vec![rejected("#", 3..4)],
        )
    );
}

#[test]
fn each_rejected_character_is_reported_by_itself() {
    assert_eq!(
        lexer("#\"x!"),
        (
            vec![(ident("x"), 2..3)],
            vec![rejected("#", 0..1), rejected("\"", 1..2), rejected("!", 3..4)],
        )
    );
}

#[test]
fn rejected_character_of_several_bytes_is_skipped_whole() {
    assert_eq!(
        lexer("\u{3042} abc"),
        (vec![(ident("abc"), 4..7)], vec![rejected("\u{3042}", 0..3)])
    );
    assert_eq!(
        lexer("a\u{E9}\u{1F600}b"),
        (
            vec![(ident("a"), 0..1), (ident("b"), 7..8)],
            vec![rejected("\u{E9}", 1..3), rejected("\u{1F600}", 3..7)],
        )
    );
}

#[test]
fn spans_count_bytes_behind_white_space_of_several_bytes() {
    assert_eq!(lexer("\u{3000}x\u{A0}y"), (vec![(ident("x"), 3..4), (ident("y"), 6..7)], vec![]));
}

#[test]
fn lexing_twice_gives_the_same_result() {
    for source in [FACTORIAL, "(+ 1 2)", "1.2.3 # \u{3042}", ""] {
        assert_eq!(lexer(source), lexer(source));
    }
}

#[test]
fn spans_ascend_and_lie_within_the_text() {
    for source in [FACTORIAL, "(a # b) 1.5 ; c\r\n\u{3042}x", "007"] {
        let (tokens, _) = lexer(source);
        let mut low = 0;
        for (_, span) in &tokens {
            assert!(low <= span.start);
            assert!(span.start < span.end);
            assert!(span.end <= source.len());
            low = span.end;
        }
    }
}

#[test]
fn token_texts_and_the_text_between_them_give_back_the_source() {
    for source in [FACTORIAL, "(a # b) 1.5 ; c\r\n\u{3042}x", "  12abc+3.14  ", ""] {
        let (tokens, _) = lexer(source);
        let mut rebuilt = String::new();
        let mut from = 0;
        for (token, span) in &tokens {
            rebuilt.push_str(&source[from..span.start]);
            match token {
                Token::Number(text) | Token::Ident(text) => rebuilt.push_str(text),
                _ => rebuilt.push_str(&source[span.start..span.end]),
            }
            from = span.end;
        }
        rebuilt.push_str(&source[from..]);
        assert_eq!(rebuilt, source);
    }
}

#[test]
fn errors_lie_in_the_gaps_between_tokens() {
    let source = "(a # b) 1. ; c\n\u{3042}x";
    let (tokens, errors) = lexer(source);
    assert_eq!(errors, vec![rejected("#", 3..4), rejected(".", 9..10), rejected("\u{3042}", 15..18)]);
    for error in &errors {
        assert_eq!(&source[error.span.start..error.span.end], error.found);
        for (_, span) in &tokens {
            assert!(error.span.end <= span.start || span.end <= error.span.start);
        }
    }
}

#[test]
fn tokens_and_errors_can_be_copied() {
    let error = rejected("#", 3..4);
    assert_eq!(error.clone(), error);
    for token in [Token::LParen, Token::RParen, Token::Comment, number("3.14"), ident("abc")] {
        assert_eq!(token.clone(), token);
    }
}

#[test]
fn error_describes_the_rejected_character() {
    assert_eq!(rejected("#", 3..4).description(), "unexpected character #");
    let (_, errors) = lexer("(\u{3042})");
    assert_eq!(errors.len(), 1);
    assert_eq!(errors[0].description(), "unexpected character \u{3042}");
}
