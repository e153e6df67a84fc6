//! The tolerant lexer and the classification of its tokens.

use crate::grammar::{
    lemma_mismatches_ascend, lemma_number_end, lemma_spans_ascend, lemma_texts_match,
    lemma_token_end, lex_mismatches, lex_tokens, mismatches_ascend, mismatches_from,
    number_end, run_end, spans_ascend, texts_match, token_at, tokens_from, Mismatch, RunKind,
    SpannedToken, TokenView,
};
use crate::text::{
    byte_len, byte_offset, char_width, chars_of, digit, ident_continue, ident_start,
    lemma_byte_offset_order, lemma_byte_offset_step, lemma_encode_injective,
    lemma_encode_subrange, lemma_offset_is_boundary, line_break, operator, space,
};
use vstd::prelude::*;
use vstd::string::*;
use vstd::utf8::encode_utf8;

verus! {

/// A half-open range of byte offsets into the source text.
pub type Span = core::ops::Range<usize>;

/// A lexical unit. Numbers and identifiers carry the text they were read
/// from.
#[derive(Debug, PartialEq, Eq)]
pub enum Token {
    LParen,
    RParen,
    Comment,
    Number(String),
    Ident(String),
}

impl Clone for Token {
    fn clone(&self) -> (copy: Self)
        ensures
            copy == *self,
    {
        match self {
            Token::LParen => Token::LParen,
            Token::RParen => Token::RParen,
            Token::Comment => Token::Comment,
            Token::Number(text) => Token::Number(text.clone()),
            Token::Ident(text) => Token::Ident(text.clone()),
        }
    }
}

impl View for Token {
    type V = TokenView;

    open spec fn view(&self) -> TokenView {
        match self {
            Token::LParen => TokenView::LParen,
            Token::RParen => TokenView::RParen,
            Token::Comment => TokenView::Comment,
            Token::Number(text) => TokenView::Number(text@),
            Token::Ident(text) => TokenView::Ident(text@),
        }
    }
}

/// A character that no rule of the grammar accepts, as a text of that one
/// character, and where it stands. Lexing skips such a character and goes
/// on.
#[derive(Debug, PartialEq, Eq)]
pub struct LexError {
    pub span: Span,
    pub found: String,
}

impl Clone for LexError {
    fn clone(&self) -> (copy: Self)
        ensures
            copy == *self,
    {
        LexError { span: self.span.start..self.span.end, found: self.found.clone() }
    }
}

/// What is said of a rejected character: that it was not expected, and the
/// character itself.
pub open spec fn description_of(found: Seq<char>) -> Seq<char> {
    "unexpected character "@ + found
}

impl LexError {
    /// A description of the error for a reader.
    pub fn description(&self) -> (text: String)
        ensures
            text@ == description_of(self.found@),
    {
        let mut text = "unexpected character ".to_owned();
        text.append(self.found.as_str());
        text
    }
}

impl View for LexError {
    type V = Mismatch;

    open spec fn view(&self) -> Mismatch {
        Mismatch { found: self.found@, start: self.span.start as nat, end: self.span.end as nat }
    }
}

/// An entry of the lexer's output as a mathematical value.
pub open spec fn spanned(entry: (Token, Span)) -> SpannedToken {
    SpannedToken { token: entry.0@, start: entry.1.start as nat, end: entry.1.end as nat }
}

/// The lexer's token list as a mathematical value.
pub open spec fn spanned_all(entries: Seq<(Token, Span)>) -> Seq<SpannedToken> {
    entries.map_values(|entry: (Token, Span)| spanned(entry))
}

/// The lexer's error list as a mathematical value.
pub open spec fn mismatch_views(errors: Seq<LexError>) -> Seq<Mismatch> {
    errors.map_values(|error: LexError| error@)
}

/// Appending an entry to the token list appends its value to the list's
/// value.
proof fn lemma_push_token(entries: Seq<(Token, Span)>, entry: (Token, Span), rest: Seq<SpannedToken>)
    ensures
        spanned_all(entries.push(entry)) + rest == spanned_all(entries) + (seq![spanned(entry)]
            + rest),
{
    assert(spanned_all(entries.push(entry)) =~= spanned_all(entries).push(spanned(entry)));
    assert(spanned_all(entries.push(entry)) + rest =~= spanned_all(entries) + (seq![
        spanned(entry),
    ] + rest));
}

/// Appending an error to the error list appends its value to the list's
/// value.
proof fn lemma_push_error(errors: Seq<LexError>, error: LexError, rest: Seq<Mismatch>)
    ensures
        mismatch_views(errors.push(error)) + rest == mismatch_views(errors) + (seq![error@] + rest),
{
    assert(mismatch_views(errors.push(error)) =~= mismatch_views(errors).push(error@));
    assert(mismatch_views(errors.push(error)) + rest =~= mismatch_views(errors) + (seq![error@]
        + rest));
}

impl RunKind {
    /// Decides [`RunKind::includes`].
    pub fn accepts(self, c: char) -> (b: bool)
        ensures
            b == self.includes(c),
    {
        match self {
            RunKind::Digits => digit(c),
            RunKind::IdentTail => ident_continue(c),
            RunKind::CommentBody => !line_break(c),
        }
    }
}

/// The part of `source` between two byte offsets that are the offsets of the
/// character indices `i` and `j`.
fn slice_between<'a>(
    source: &'a str,
    start: usize,
    end: usize,
    Ghost(i): Ghost<int>,
    Ghost(j): Ghost<int>,
) -> (part: &'a str)
    requires
        0 <= i <= j <= source@.len(),
        start == byte_offset(source@, i),
        end == byte_offset(source@, j),
    ensures
        part@ == source@.subrange(i, j),
{
    proof {
        lemma_offset_is_boundary(source@, j);
        lemma_encode_subrange(source@, 0, j);
        lemma_byte_offset_order(source@, 0, j);
    }
    let (head, _) = source.split_at(end);
    proof {
        assert(source@.subrange(0, j) =~= source@.take(j));
        lemma_encode_injective(head@, source@.take(j));
        assert(head@.take(i) =~= source@.take(i));
        lemma_offset_is_boundary(head@, i);
        lemma_encode_subrange(head@, i, j);
        assert(head@.take(j) =~= head@);
    }
    let (_, part) = head.split_at(start);
    proof {
        lemma_encode_injective(part@, head@.subrange(i, j));
        assert(head@.subrange(i, j) =~= source@.subrange(i, j));
    }
    part
}

/// Scans over the longest run of characters of `kind` that starts at `start`.
/// Returns the index just past the run and the byte offset of that index.
fn scan_run(chars: &Vec<char>, start: usize, start_pos: usize, kind: RunKind) -> (r: (
    usize,
    usize,
))
    requires
        start <= chars.len(),
        start_pos == byte_offset(chars@, start as int),
        byte_len(chars@) <= usize::MAX,
    ensures
        r.0 == run_end(chars@, start as int, kind),
        r.1 == byte_offset(chars@, r.0 as int),
        start <= r.0 <= chars.len(),
{
    let mut i: usize = start;
    let mut pos: usize = start_pos;
    while i < chars.len() && kind.accepts(chars[i])
        invariant
            start <= i <= chars.len(),
            pos == byte_offset(chars@, i as int),
            byte_len(chars@) <= usize::MAX,
            run_end(chars@, i as int, kind) == run_end(chars@, start as int, kind),
        decreases chars.len() - i,
    {
        proof {
            lemma_byte_offset_step(chars@, i as int);
            lemma_byte_offset_order(chars@, i + 1, i + 1);
        }
        pos = pos + char_width(chars[i]);
        i = i + 1;
    }
    (i, pos)
}

/// Scans over the number that starts with the digit at `start`. Returns the
/// index just past the number and the byte offset of that index.
fn scan_number(chars: &Vec<char>, start: usize, start_pos: usize) -> (r: (usize, usize))
    requires
        start < chars.len(),
        start_pos == byte_offset(chars@, start as int),
        byte_len(chars@) <= usize::MAX,
    ensures
        r.0 == number_end(chars@, start as int),
        r.1 == byte_offset(chars@, r.0 as int),
        start < r.0 <= chars.len(),
{
    proof {
        lemma_byte_offset_step(chars@, start as int);
        lemma_byte_offset_order(chars@, start + 1, start + 1);
        lemma_number_end(chars@, start as int);
    }
    let first = chars[start];
    let after_first: usize = start_pos + char_width(first);
    let (whole, whole_pos) = if first == '0' {
        (start + 1, after_first)
    } else {
        scan_run(chars, start + 1, after_first, RunKind::Digits)
    };
    if whole < chars.len() && chars[whole] == '.' && whole + 1 < chars.len() && digit(
        chars[whole + 1],
    ) {
        proof {
            lemma_byte_offset_step(chars@, whole as int);
            lemma_byte_offset_step(chars@, whole + 1);
            lemma_byte_offset_order(chars@, whole + 2, whole + 2);
        }
        let fraction_pos: usize = whole_pos + char_width(chars[whole]) + char_width(
            chars[whole + 1],
        );
        scan_run(chars, whole + 2, fraction_pos, RunKind::Digits)
    } else {
        (whole, whole_pos)
    }
}

/// Applies the rules of the grammar at index `i`, which holds no white
/// space. Returns the token found there, the index just past it and the byte
/// offset of that index, or `None` where no rule matches.
fn scan_token(source: &str, chars: &Vec<char>, i: usize, pos: usize) -> (r: Option<
    (Token, usize, usize),
>)
    requires
        chars@ == source@,
        i < chars.len(),
        pos == byte_offset(chars@, i as int),
        byte_len(chars@) <= usize::MAX,
    ensures
        match r {
            Some((token, end, end_pos)) => {
                &&& token_at(chars@, i as int) == Some((token@, end as int))
                &&& i < end <= chars.len()
                &&& end_pos == byte_offset(chars@, end as int)
            },
            None => token_at(chars@, i as int) is None,
        },
{
    proof {
        lemma_byte_offset_step(chars@, i as int);
        lemma_byte_offset_order(chars@, i + 1, i + 1);
        lemma_token_end(chars@, i as int);
    }
    let c = chars[i];
    let next_pos: usize = pos + char_width(c);
    if c == '(' {
        Some((Token::LParen, i + 1, next_pos))
    } else if c == ')' {
        Some((Token::RParen, i + 1, next_pos))
    } else if c == ';' {
        let (end, end_pos) = scan_run(chars, i + 1, next_pos, RunKind::CommentBody);
        Some((Token::Comment, end, end_pos))
    } else if digit(c) {
        let (end, end_pos) = scan_number(chars, i, pos);
        let text = slice_between(source, pos, end_pos, Ghost(i as int), Ghost(end as int));
        Some((Token::Number(text.to_owned()), end, end_pos))
    } else if ident_start(c) {
        let (end, end_pos) = scan_run(chars, i + 1, next_pos, RunKind::IdentTail);
        let text = slice_between(source, pos, end_pos, Ghost(i as int), Ghost(end as int));
        Some((Token::Ident(text.to_owned()), end, end_pos))
    } else if operator(c) {
        let text = slice_between(source, pos, next_pos, Ghost(i as int), Ghost(i + 1));
        Some((Token::Ident(text.to_owned()), i + 1, next_pos))
    } else {
        None
    }
}

/// Splits `source` into tokens.
///
/// White space between tokens is skipped. A character at which no rule of
/// the grammar matches is skipped too and recorded in the second list;
/// lexing then goes on behind it, so every text yields a result. Both lists
/// are in the order of the text, and every span is in byte offsets into
/// `source`.
pub fn lexer(source: &str) -> (out: (Vec<(Token, Span)>, Vec<LexError>))
    ensures
        spanned_all(out.0@) == lex_tokens(source@),
        mismatch_views(out.1@) == lex_mismatches(source@),
        spans_ascend(spanned_all(out.0@), 0, byte_len(source@)),
        texts_match(spanned_all(out.0@), encode_utf8(source@)),
        mismatches_ascend(mismatch_views(out.1@), encode_utf8(source@), 0, byte_len(source@)),
{
    let chars = chars_of(source);
    let total = source.as_bytes().len();
    let mut tokens: Vec<(Token, Span)> = Vec::new();
    let mut errors: Vec<LexError> = Vec::new();
    let mut i: usize = 0;
    let mut pos: usize = 0;
    proof {
        lemma_byte_offset_order(source@, 0, 0);
        assert(spanned_all(tokens@) =~= Seq::<SpannedToken>::empty());
        assert(mismatch_views(errors@) =~= Seq::<Mismatch>::empty());
        assert(spanned_all(tokens@) + tokens_from(source@, 0) =~= lex_tokens(source@));
        assert(mismatch_views(errors@) + mismatches_from(source@, 0) =~= lex_mismatches(
            source@,
        ));
    }
    while i < chars.len()
        invariant
            chars@ == source@,
            byte_len(chars@) == total,
            i <= chars.len(),
            pos == byte_offset(chars@, i as int),
            spanned_all(tokens@) + tokens_from(chars@, i as int) == lex_tokens(chars@),
            mismatch_views(errors@) + mismatches_from(chars@, i as int) == lex_mismatches(chars@),
        decreases chars.len() - i,
    {
        proof {
            lemma_byte_offset_step(chars@, i as int);
            lemma_byte_offset_order(chars@, i + 1, i + 1);
        }
        let c = chars[i];
        if space(c) {
            pos = pos + char_width(c);
            i = i + 1;
        } else {
            match scan_token(source, &chars, i, pos) {
                Some((token, end, end_pos)) => {
                    let entry = (token, pos..end_pos);
                    proof {
                        lemma_push_token(tokens@, entry, tokens_from(chars@, end as int));
                    }
                    tokens.push(entry);
                    pos = end_pos;
                    i = end;
                },
                None => {
                    let next_pos: usize = pos + char_width(c);
                    let found = slice_between(source, pos, next_pos, Ghost(i as int), Ghost(i + 1));
                    let rejected = LexError { span: pos..next_pos, found: found.to_owned() };
                    proof {
                        lemma_push_error(errors@, rejected, mismatches_from(chars@, i + 1));
                    }
                    errors.push(rejected);
                    pos = next_pos;
                    i = i + 1;
                },
            }
        }
    }
    proof {
        lemma_spans_ascend(source@);
        lemma_texts_match(source@);
        lemma_mismatches_ascend(source@);
        assert(spanned_all(tokens@) + tokens_from(chars@, i as int) =~= spanned_all(tokens@));
        assert(mismatch_views(errors@) + mismatches_from(chars@, i as int) =~= mismatch_views(
            errors@,
        ));
    }
    (tokens, errors)
}

/// Lexing is a function of the text: whatever two runs of [`lexer`] on the
/// same text return, they return the same tokens and the same errors.
pub proof fn lemma_lexing_is_repeatable(
    source: Seq<char>,
    first: (Vec<(Token, Span)>, Vec<LexError>),
    second: (Vec<(Token, Span)>, Vec<LexError>),
)
    requires
        spanned_all(first.0@) == lex_tokens(source),
        mismatch_views(first.1@) == lex_mismatches(source),
        spanned_all(second.0@) == lex_tokens(source),
        mismatch_views(second.1@) == lex_mismatches(source),
    ensures
        spanned_all(first.0@) == spanned_all(second.0@),
        mismatch_views(first.1@) == mismatch_views(second.1@),
        first.0@.len() == second.0@.len(),
        first.1@.len() == second.1@.len(),
{
    assert(spanned_all(first.0@).len() == first.0@.len());
    assert(spanned_all(second.0@).len() == second.0@.len());
    assert(mismatch_views(first.1@).len() == first.1@.len());
    assert(mismatch_views(second.1@).len() == second.1@.len());
}

/// The categories by which an editor colours tokens.
#[derive(Debug, Clone, Copy, PartialEq, Eq, Structural)]
pub enum TokenCategory {
    Comment,
    Number,
    Variable,
}

/// A token that an editor colours: where it starts, how many bytes it
/// covers, and its category. Its line and column are still to be found.
#[derive(Debug, Clone, Copy, PartialEq, Eq, Structural)]
pub struct ImCompleteSemanticToken {
    pub start: usize,
    pub length: usize,
    pub token_type: TokenCategory,
}

/// A coloured token as a mathematical value.
pub struct Highlight {
    pub start: nat,
    pub length: nat,
    pub category: TokenCategory,
}

impl View for ImCompleteSemanticToken {
    type V = Highlight;

    open spec fn view(&self) -> Highlight {
        Highlight {
            start: self.start as nat,
            length: self.length as nat,
            category: self.token_type,
        }
    }
}

/// What [`parse`] returns: the tokens that an editor colours, and the
/// characters that lexing rejected.
#[derive(Debug)]
pub struct ParseResult {
    pub semantic_tokens: Vec<ImCompleteSemanticToken>,
    pub parse_errors: Vec<LexError>,
}

/// The category of a token: none for parentheses, which are not coloured.
pub open spec fn category_of(token: TokenView) -> Option<TokenCategory> {
    match token {
        TokenView::LParen => None,
        TokenView::RParen => None,
        TokenView::Comment => Some(TokenCategory::Comment),
        TokenView::Number(_) => Some(TokenCategory::Number),
        TokenView::Ident(_) => Some(TokenCategory::Variable),
    }
}

/// The coloured token that a token between the byte offsets `start` and
/// `end` gives, if it gives one.
pub open spec fn highlight_of(token: TokenView, start: nat, end: nat) -> Option<Highlight> {
    match category_of(token) {
        Some(category) => Some(
            Highlight {
                start,
                length: if start <= end {
                    (end - start) as nat
                } else {
                    0
                },
                category,
            },
        ),
        None => None,
    }
}

/// The coloured tokens that a list of tokens gives, in the same order.
pub open spec fn highlights_of(tokens: Seq<SpannedToken>) -> Seq<Highlight>
    decreases tokens.len(),
{
    if tokens.len() == 0 {
        Seq::empty()
    } else {
        let earlier = highlights_of(tokens.drop_last());
        let last = tokens.last();
        match highlight_of(last.token, last.start, last.end) {
            Some(highlight) => earlier.push(highlight),
            None => earlier,
        }
    }
}

/// A list of coloured tokens as a mathematical value.
pub open spec fn highlight_views(tokens: Seq<ImCompleteSemanticToken>) -> Seq<Highlight> {
    tokens.map_values(|token: ImCompleteSemanticToken| token@)
}

/// Sorts a token into its category. Parentheses give nothing; a comment, a
/// number or an identifier gives a coloured token that starts where the
/// span starts and is as long as the span.
pub fn classify(token: &Token, span: &Span) -> (r: Option<ImCompleteSemanticToken>)
    ensures
        match r {
            Some(coloured) => highlight_of(token@, span.start as nat, span.end as nat) == Some(
                coloured@,
            ),
            None => highlight_of(token@, span.start as nat, span.end as nat) is None,
        },
{
    let length: usize = if span.start <= span.end {
        span.end - span.start
    } else {
        0
    };
    match token {
        Token::LParen => None,
        Token::RParen => None,
        Token::Comment => Some(
            ImCompleteSemanticToken {
                start: span.start,
                length,
                token_type: TokenCategory::Comment,
            },
        ),
        Token::Number(_) => Some(
            ImCompleteSemanticToken { start: span.start, length, token_type: TokenCategory::Number },
        ),
        Token::Ident(_) => Some(
            ImCompleteSemanticToken {
                start: span.start,
                length,
                token_type: TokenCategory::Variable,
            },
        ),
    }
}

/// Lexes `source` and sorts its tokens into categories.
///
/// The coloured tokens are those of the comments, numbers and identifiers of
/// `source`, in the order of the text; the errors are those of [`lexer`].
pub fn parse(source: &str) -> (result: ParseResult)
    ensures
        highlight_views(result.semantic_tokens@) == highlights_of(lex_tokens(source@)),
        mismatch_views(result.parse_errors@) == lex_mismatches(source@),
{
    let (tokens, parse_errors) = lexer(source);
    let mut semantic_tokens: Vec<ImCompleteSemanticToken> = Vec::new();
    let mut k: usize = 0;
    assert(spanned_all(tokens@).take(0) =~= Seq::<SpannedToken>::empty());
    assert(highlight_views(semantic_tokens@) =~= Seq::<Highlight>::empty());
    while k < tokens.len()
        invariant
            k <= tokens.len(),
            highlight_views(semantic_tokens@) == highlights_of(spanned_all(tokens@).take(k as int)),
        decreases tokens.len() - k,
    {
        let ghost done = spanned_all(tokens@).take(k as int);
        let ghost next = spanned_all(tokens@).take(k + 1);
        assert(next.drop_last() =~= done);
        assert(next.last() == spanned(tokens@[k as int]));
        let entry = &tokens[k];
        match classify(&entry.0, &entry.1) {
            Some(coloured) => {
                let ghost earlier = semantic_tokens@;
                semantic_tokens.push(coloured);
                assert(highlight_views(semantic_tokens@) =~= highlight_views(earlier).push(
                    coloured@,
                ));
            },
            None => {},
        }
        k = k + 1;
    }
    assert(spanned_all(tokens@).take(k as int) =~= spanned_all(tokens@));
    ParseResult { semantic_tokens, parse_errors }
}

/// Whether every coloured token of `tokens` ends at or before the byte
/// offset `high`, and each ends at or before the start of the next one.
pub open spec fn highlights_ascend(tokens: Seq<Highlight>, high: nat) -> bool {
    &&& forall|k: int|
        0 <= k < tokens.len() ==> (#[trigger] tokens[k]).start + tokens[k].length <= high
    &&& forall|k: int, l: int|
        0 <= k < l < tokens.len() ==> (#[trigger] tokens[k]).start + tokens[k].length <= (
        #[trigger] tokens[l]).start
}

/// Tokens in ascending order give coloured tokens in ascending order.
pub proof fn lemma_highlights_ascend(tokens: Seq<SpannedToken>, low: nat, high: nat)
    requires
        spans_ascend(tokens, low, high),
    ensures
        highlights_ascend(highlights_of(tokens), high),
        highlights_of(tokens).len() <= tokens.len(),
    decreases tokens.len(),
{
    if tokens.len() > 0 {
        let earlier = tokens.drop_last();
        let last = tokens.last();
        assert(spans_ascend(earlier, low, last.start)) by {
            assert forall|k: int| 0 <= k < earlier.len() implies low <= (#[trigger] earlier[k]).start
                < earlier[k].end <= last.start by {
                assert(earlier[k] == tokens[k]);
                assert(tokens[k].end <= tokens[tokens.len() - 1].start);
            }
            assert forall|k: int, l: int| 0 <= k < l < earlier.len() implies (
            #[trigger] earlier[k]).end <= (#[trigger] earlier[l]).start by {
                assert(earlier[k] == tokens[k]);
                assert(earlier[l] == tokens[l]);
            }
        }
        lemma_highlights_ascend(earlier, low, last.start);
        assert(tokens[tokens.len() - 1] == last);
    }
}

/// The coloured tokens of a text lie within it, in ascending order and
/// without overlap.
pub proof fn lemma_parsed_highlights_ascend(source: Seq<char>)
    ensures
        highlights_ascend(highlights_of(lex_tokens(source)), byte_len(source)),
{
    lemma_spans_ascend(source);
    lemma_highlights_ascend(lex_tokens(source), 0, byte_len(source));
}

} // verus!
