use lisp_lsp::parser::{classify, parse, ImCompleteSemanticToken, LexError, Token, TokenCategory};
use lisp_lsp::position::{Position, Snapshot};
use lisp_lsp::semantic::{
    encode_token, narrow, relative_to, same_text, semantic_tokens_full, Legend, SemanticToken,
};

fn coloured(start: usize, length: usize, token_type: TokenCategory) -> ImCompleteSemanticToken {
    ImCompleteSemanticToken { start, length, token_type }
}

fn sent(
    delta_line: u32,
    delta_start: u32,
    length: u32,
    token_type: u32,
) -> SemanticToken {
    SemanticToken { delta_line, delta_start, length, token_type, token_modifiers_bitset: 0 }
}

fn names(list: &[&str]) -> Vec<String> {
    list.iter().map(|name| name.to_string()).collect()
}

/// comment is 0, number is 1, variable is 2.
fn full_legend() -> Legend {
    Legend::from_names(&names(&["comment", "number", "variable"]))
}

fn place(line: usize, column: usize) -> Position {
    Position { line, column }
}

#[test]
fn parentheses_have_no_category() {
    assert_eq!(classify(&Token::LParen, &(0..1)), None);
    assert_eq!(classify(&Token::RParen, &(4..5)), None);
}

#[test]
fn comments_numbers_and_identifiers_have_a_category() {
    assert_eq!(classify(&Token::Comment, &(2..9)), Some(coloured(2, 7, TokenCategory::Comment)));
    assert_eq!(
        classify(&Token::Number("3.14".into()), &(10..14)),
        Some(coloured(10, 4, TokenCategory::Number))
    );
    assert_eq!(
        classify(&Token::Ident("abc".into()), &(0..3)),
        Some(coloured(0, 3, TokenCategory::Variable))
    );
}

#[test]
fn span_that_ends_before_it_starts_has_length_zero() {
    let backwards = std::ops::Range { start: 5, end: 2 };
    assert_eq!(classify(&Token::Comment, &backwards), Some(coloured(5, 0, TokenCategory::Comment)));
}

#[test]
fn parse_gives_the_coloured_tokens_in_order() {
    let result = parse("(+ 1 2) ; sum");
    assert_eq!(
        result.semantic_tokens,
        vec![
            coloured(1, 1, TokenCategory::Variable),
            coloured(3, 1, TokenCategory::Number),
            coloured(5, 1, TokenCategory::Number),
            coloured(8, 5, TokenCategory::Comment),
        ]
    );
    assert!(result.parse_errors.is_empty());
}

#[test]
fn parse_reports_rejected_characters_and_goes_on() {
    let result = parse("a # 1");
    assert_eq!(
        result.semantic_tokens,
        vec![coloured(0, 1, TokenCategory::Variable), coloured(4, 1, TokenCategory::Number)]
    );
    assert_eq!(result.parse_errors, vec![LexError { span: 2..3, found: "#".into() }]);
}

#[test]
fn parse_of_nothing_gives_nothing() {
    let result = parse("");
    assert!(result.semantic_tokens.is_empty());
    assert!(result.parse_errors.is_empty());
}

#[test]
fn texts_are_compared_character_by_character() {
    assert!(same_text("", ""));
    assert!(same_text("comment", "comment"));
    assert!(same_text("\u{3042}x", "\u{3042}x"));
    assert!(!same_text("comment", "comments"));
    assert!(!same_text("comment", "commenu"));
    assert!(!same_text("a", ""));
}

#[test]
fn categories_go_by_the_names_of_the_protocol() {
    assert_eq!(TokenCategory::Comment.as_str(), "comment");
    assert_eq!(TokenCategory::Number.as_str(), "number");
    assert_eq!(TokenCategory::Variable.as_str(), "variable");
    assert_eq!(TokenCategory::from_name("comment"), Some(TokenCategory::Comment));
    assert_eq!(TokenCategory::from_name("number"), Some(TokenCategory::Number));
    assert_eq!(TokenCategory::from_name("variable"), Some(TokenCategory::Variable));
    assert_eq!(TokenCategory::from_name("keyword"), None);
    assert_eq!(TokenCategory::from_name("Comment"), None);
    assert_eq!(TokenCategory::from_name(""), None);
}

#[test]
fn new_legend_numbers_nothing() {
    let legend = Legend::new();
    assert_eq!(legend.index_of(TokenCategory::Comment), None);
    assert_eq!(legend.index_of(TokenCategory::Number), None);
    assert_eq!(legend.index_of(TokenCategory::Variable), None);
}

#[test]
fn assign_numbers_one_category() {
    let mut legend = Legend::new();
    legend.assign(TokenCategory::Number, 4);
    assert_eq!(legend.index_of(TokenCategory::Number), Some(4));
    assert_eq!(legend.index_of(TokenCategory::Comment), None);
    legend.assign(TokenCategory::Number, 9);
    legend.assign(TokenCategory::Variable, 0);
    assert_eq!(legend.index_of(TokenCategory::Number), Some(9));
    assert_eq!(legend.index_of(TokenCategory::Variable), Some(0));
    assert_eq!(legend.index_of(TokenCategory::Comment), None);
}

#[test]
fn legend_numbers_categories_by_their_place_in_the_list() {
    let legend = Legend::from_names(&names(&["keyword", "variable", "string", "comment"]));
    assert_eq!(legend.index_of(TokenCategory::Variable), Some(1));
    assert_eq!(legend.index_of(TokenCategory::Comment), Some(3));
    assert_eq!(legend.index_of(TokenCategory::Number), None);
}

#[test]
fn legend_takes_the_last_place_of_a_name_given_twice() {
    let legend = Legend::from_names(&names(&["number", "comment", "number"]));
    assert_eq!(legend.index_of(TokenCategory::Number), Some(2));
    assert_eq!(legend.index_of(TokenCategory::Comment), Some(1));
}

#[test]
fn legend_of_no_names_numbers_nothing() {
    assert_eq!(Legend::from_names(&Vec::new()), Legend::new());
}

#[test]
fn narrow_keeps_what_fits_in_32_bits() {
    assert_eq!(narrow(0), Some(0));
    assert_eq!(narrow(4_294_967_295), Some(u32::MAX));
    if usize::BITS > 32 {
        assert_eq!(narrow(4_294_967_295 + 1), None);
        assert_eq!(narrow(usize::MAX), None);
    }
}

#[test]
fn place_in_the_same_line_is_relative_in_the_column() {
    assert_eq!(relative_to(place(0, 0), place(0, 0)), Some(place(0, 0)));
    assert_eq!(relative_to(place(0, 5), place(0, 0)), Some(place(0, 5)));
    assert_eq!(relative_to(place(3, 9), place(3, 4)), Some(place(0, 5)));
}

#[test]
fn place_in_a_later_line_keeps_its_column() {
    assert_eq!(relative_to(place(1, 0), place(0, 5)), Some(place(1, 0)));
    assert_eq!(relative_to(place(7, 2), place(3, 40)), Some(place(4, 2)));
}

#[test]
fn place_before_the_previous_one_has_no_relative_place() {
    assert_eq!(relative_to(place(0, 4), place(0, 5)), None);
    assert_eq!(relative_to(place(2, 9), place(3, 0)), None);
}

#[test]
fn three_tokens_in_two_lines_are_sent_relative_to_each_other() {
    // Places (0, 0), (0, 5) and (1, 0).
    let snapshot = Snapshot::new("abcd efg\nhi");
    let tokens = vec![
        coloured(0, 4, TokenCategory::Variable),
        coloured(5, 3, TokenCategory::Variable),
        coloured(9, 2, TokenCategory::Variable),
    ];
    assert_eq!(
        semantic_tokens_full(&snapshot, &full_legend(), &tokens),
        vec![sent(0, 0, 4, 2), sent(0, 5, 3, 2), sent(1, 0, 2, 2)]
    );
}

#[test]
fn first_token_is_sent_with_its_own_place() {
    let snapshot = Snapshot::new("\n\n   x");
    let tokens = vec![coloured(5, 1, TokenCategory::Variable)];
    assert_eq!(semantic_tokens_full(&snapshot, &full_legend(), &tokens), vec![sent(2, 3, 1, 2)]);
}

#[test]
fn column_behind_a_character_of_three_bytes_counts_it_once() {
    let source = "\u{3042} abc";
    let result = parse(source);
    assert_eq!(result.semantic_tokens, vec![coloured(4, 3, TokenCategory::Variable)]);
    let snapshot = Snapshot::new(source);
    assert_eq!(snapshot.column_of(4), Ok(2));
    assert_eq!(
        semantic_tokens_full(&snapshot, &full_legend(), &result.semantic_tokens),
        vec![sent(0, 2, 3, 2)]
    );
}

#[test]
fn token_beyond_the_snapshot_is_left_out() {
    let snapshot = Snapshot::new("ab cd");
    let tokens = vec![
        coloured(0, 2, TokenCategory::Variable),
        coloured(40, 2, TokenCategory::Variable),
        coloured(3, 2, TokenCategory::Variable),
    ];
    assert_eq!(
        semantic_tokens_full(&snapshot, &full_legend(), &tokens),
        vec![sent(0, 0, 2, 2), sent(0, 3, 2, 2)]
    );
}

#[test]
fn tokens_of_an_older_and_longer_text_are_left_out_where_they_do_not_fit() {
    let tokens = parse("(first second third)").semantic_tokens;
    let snapshot = Snapshot::new("(first)");
    assert_eq!(
        semantic_tokens_full(&snapshot, &full_legend(), &tokens),
        vec![sent(0, 1, 5, 2), sent(0, 6, 6, 2)]
    );
}

#[test]
fn token_of_a_category_without_a_number_is_left_out() {
    let snapshot = Snapshot::new("a 1 ; c");
    let tokens = parse("a 1 ; c").semantic_tokens;
    let legend = Legend::from_names(&names(&["comment", "variable"]));
    // The number is not sent under the number 0, it is not sent at all.
    assert_eq!(
        semantic_tokens_full(&snapshot, &legend, &tokens),
        vec![sent(0, 0, 1, 1), sent(0, 4, 3, 0)]
    );
    assert_eq!(semantic_tokens_full(&snapshot, &Legend::new(), &tokens), vec![]);
}

#[test]
fn token_that_lies_before_the_one_sent_before_it_is_left_out() {
    let snapshot = Snapshot::new("ab cd\nef");
    let tokens = vec![
        coloured(3, 2, TokenCategory::Variable),
        coloured(0, 2, TokenCategory::Variable),
        coloured(6, 2, TokenCategory::Variable),
    ];
    assert_eq!(
        semantic_tokens_full(&snapshot, &full_legend(), &tokens),
        vec![sent(0, 3, 2, 2), sent(1, 0, 2, 2)]
    );
}

#[test]
fn token_whose_length_does_not_fit_in_32_bits_is_left_out() {
    if usize::BITS > 32 {
        let snapshot = Snapshot::new("ab cd");
        let tokens = vec![
            coloured(0, 4_294_967_296, TokenCategory::Variable),
            coloured(3, 2, TokenCategory::Variable),
        ];
        assert_eq!(semantic_tokens_full(&snapshot, &full_legend(), &tokens), vec![sent(0, 3, 2, 2)]);
    }
}

#[test]
fn token_whose_number_does_not_fit_in_32_bits_is_left_out() {
    if usize::BITS > 32 {
        let snapshot = Snapshot::new("ab 12");
        let mut legend = full_legend();
        legend.assign(TokenCategory::Variable, 4_294_967_296);
        let tokens = parse("ab 12").semantic_tokens;
        assert_eq!(semantic_tokens_full(&snapshot, &legend, &tokens), vec![sent(0, 3, 2, 1)]);
    }
}

#[test]
fn no_tokens_give_nothing_to_send() {
    assert_eq!(semantic_tokens_full(&Snapshot::new("abc"), &full_legend(), &Vec::new()), vec![]);
}

#[test]
fn one_token_is_encoded_with_its_place() {
    let snapshot = Snapshot::new("ab\ncd ef");
    let token = coloured(6, 2, TokenCategory::Variable);
    assert_eq!(
        encode_token(&snapshot, &full_legend(), &token, place(1, 0)),
        Some((sent(0, 3, 2, 2), place(1, 3)))
    );
    assert_eq!(
        encode_token(&snapshot, &full_legend(), &token, place(0, 1)),
        Some((sent(1, 3, 2, 2), place(1, 3)))
    );
    assert_eq!(encode_token(&snapshot, &full_legend(), &token, place(1, 4)), None);
    assert_eq!(encode_token(&snapshot, &Legend::new(), &token, place(0, 0)), None);
}

const FACTORIAL: &str = "\n; comment\r\n(defun fact (n)\n  (if (= n 0)\n      1\n      (* n (fact (- n 1)))))\n\n(print (fact 5)) ; => 120 \u{3042}\n";

#[test]
fn every_token_of_a_text_is_sent_against_its_own_snapshot() {
    let tokens = parse(FACTORIAL).semantic_tokens;
    let data = semantic_tokens_full(&Snapshot::new(FACTORIAL), &full_legend(), &tokens);
    assert_eq!(data.len(), tokens.len());
    assert_eq!(data.len(), 19);
    assert!(data.iter().all(|token| token.token_modifiers_bitset == 0));
    assert_eq!(data[0], sent(1, 0, 9, 0));
    assert_eq!(data[1], sent(1, 1, 5, 2));
    assert_eq!(data[2], sent(0, 6, 4, 2));
    assert_eq!(data[18], sent(0, 4, 12, 0));
}

#[test]
fn adding_up_what_was_sent_gives_back_the_places() {
    let tokens = parse(FACTORIAL).semantic_tokens;
    let snapshot = Snapshot::new(FACTORIAL);
    let data = semantic_tokens_full(&snapshot, &full_legend(), &tokens);
    let mut line = 0;
    let mut column = 0;
    let mut places = Vec::new();
    for token in &data {
        line += token.delta_line as usize;
        column = if token.delta_line == 0 {
            column + token.delta_start as usize
        } else {
            token.delta_start as usize
        };
        places.push(place(line, column));
    }
    let expected: Vec<Position> =
        tokens.iter().map(|token| snapshot.position_of(token.start).unwrap()).collect();
    assert_eq!(places, expected);
}
