//! The lexical grammar, as mathematical functions on a sequence of
//! characters.
//!
//! At each position that holds no white space the rules are tried in this
//! order, and the first that matches gives the token:
//!
//! 1. `(` is an opening parenthesis;
//! 2. `)` is a closing parenthesis;
//! 3. `;` starts a comment, which runs up to the next line break or to the
//!    end of the text, the line break not included;
//! 4. a digit starts a number: `0`, or a non-zero digit and the digits that
//!    follow it, and then, if present, a `.` with the digits after it (at
//!    least one);
//! 5. a letter or `_` starts an identifier, which runs over the letters,
//!    digits and `_` that follow;
//! 6. one of `+ - * / =` is an identifier by itself.
//!
//! A character at which no rule matches is skipped and reported.

use crate::text::{
    byte_len, byte_offset, is_digit, is_ident_continue, is_ident_start, is_line_break,
    is_operator, is_space, lemma_byte_offset_order, lemma_encode_subrange,
};
use vstd::prelude::*;
use vstd::utf8::encode_utf8;

verus! {

/// A token as a mathematical value: its kind and, for numbers and
/// identifiers, the characters that it was read from.
pub enum TokenView {
    LParen,
    RParen,
    Comment,
    Number(Seq<char>),
    Ident(Seq<char>),
}

/// A token with the half-open range of byte offsets that it covers.
pub struct SpannedToken {
    pub token: TokenView,
    pub start: nat,
    pub end: nat,
}

/// A character at which no rule matched, as a text of that one character,
/// with the half-open range of byte offsets that it covers.
pub struct Mismatch {
    pub found: Seq<char>,
    pub start: nat,
    pub end: nat,
}

/// The kinds of character runs that the grammar scans over.
#[derive(Clone, Copy, Debug, PartialEq, Eq)]
pub enum RunKind {
    /// Decimal digits.
    Digits,
    /// Letters, digits and `_`.
    IdentTail,
    /// Anything but a line break.
    CommentBody,
}

impl RunKind {
    /// Whether `c` belongs to runs of this kind.
    pub open spec fn includes(self, c: char) -> bool {
        match self {
            RunKind::Digits => is_digit(c),
            RunKind::IdentTail => is_ident_continue(c),
            RunKind::CommentBody => !is_line_break(c),
        }
    }
}

/// Index just past the longest run of characters of `kind` that starts at
/// index `i`.
pub open spec fn run_end(s: Seq<char>, i: int, kind: RunKind) -> int
    decreases s.len() - i,
{
    if 0 <= i < s.len() && kind.includes(s[i]) {
        run_end(s, i + 1, kind)
    } else {
        i
    }
}

/// Index just past the number that starts with the digit at index `i`.
pub open spec fn number_end(s: Seq<char>, i: int) -> int {
    let whole = if s[i] == '0' {
        i + 1
    } else {
        run_end(s, i + 1, RunKind::Digits)
    };
    if whole + 1 < s.len() && s[whole] == '.' && is_digit(s[whole + 1]) {
        run_end(s, whole + 2, RunKind::Digits)
    } else {
        whole
    }
}

/// The token that starts at index `i` and the index just past it, or `None`
/// where no rule matches.
pub open spec fn token_at(s: Seq<char>, i: int) -> Option<(TokenView, int)>
    recommends
        0 <= i < s.len(),
{
    let c = s[i];
    if c == '(' {
        Some((TokenView::LParen, i + 1))
    } else if c == ')' {
        Some((TokenView::RParen, i + 1))
    } else if c == ';' {
        Some((TokenView::Comment, run_end(s, i + 1, RunKind::CommentBody)))
    } else if is_digit(c) {
        Some((TokenView::Number(s.subrange(i, number_end(s, i))), number_end(s, i)))
    } else if is_ident_start(c) {
        let end = run_end(s, i + 1, RunKind::IdentTail);
        Some((TokenView::Ident(s.subrange(i, end)), end))
    } else if is_operator(c) {
        Some((TokenView::Ident(s.subrange(i, i + 1)), i + 1))
    } else {
        None
    }
}

/// Index at which scanning goes on after the character at index `i` has been
/// dealt with: past the white space, the token or the rejected character
/// there.
pub open spec fn next_index(s: Seq<char>, i: int) -> int {
    if is_space(s[i]) {
        i + 1
    } else {
        match token_at(s, i) {
            Some((_, end)) => end,
            None => i + 1,
        }
    }
}

/// The tokens of `s` from index `i` on, in the order of the text.
pub open spec fn tokens_from(s: Seq<char>, i: int) -> Seq<SpannedToken>
    decreases s.len() - i,
    via tokens_from_decreases
{
    if i < 0 || i >= s.len() {
        Seq::empty()
    } else if is_space(s[i]) {
        tokens_from(s, i + 1)
    } else {
        match token_at(s, i) {
            Some((token, end)) => seq![
                SpannedToken { token, start: byte_offset(s, i), end: byte_offset(s, end) },
            ] + tokens_from(s, end),
            None => tokens_from(s, i + 1),
        }
    }
}

#[via_fn]
proof fn tokens_from_decreases(s: Seq<char>, i: int) {
    if 0 <= i < s.len() {
        lemma_token_end(s, i);
    }
}

/// The rejected characters of `s` from index `i` on, in the order of the
/// text.
pub open spec fn mismatches_from(s: Seq<char>, i: int) -> Seq<Mismatch>
    decreases s.len() - i,
    via mismatches_from_decreases
{
    if i < 0 || i >= s.len() {
        Seq::empty()
    } else if is_space(s[i]) {
        mismatches_from(s, i + 1)
    } else {
        match token_at(s, i) {
            Some((_, end)) => mismatches_from(s, end),
            None => seq![
                Mismatch {
                    found: s.subrange(i, i + 1),
                    start: byte_offset(s, i),
                    end: byte_offset(s, i + 1),
                },
            ] + mismatches_from(s, i + 1),
        }
    }
}

#[via_fn]
proof fn mismatches_from_decreases(s: Seq<char>, i: int) {
    if 0 <= i < s.len() {
        lemma_token_end(s, i);
    }
}

/// All tokens of the text `s`.
pub open spec fn lex_tokens(s: Seq<char>) -> Seq<SpannedToken> {
    tokens_from(s, 0)
}

/// All rejected characters of the text `s`.
pub open spec fn lex_mismatches(s: Seq<char>) -> Seq<Mismatch> {
    mismatches_from(s, 0)
}

/// A run ends within the text, holds only characters of its kind, and cannot
/// be made longer.
pub proof fn lemma_run_end(s: Seq<char>, i: int, kind: RunKind)
    requires
        0 <= i <= s.len(),
    ensures
        i <= run_end(s, i, kind) <= s.len(),
        forall|k: int| i <= k < run_end(s, i, kind) ==> kind.includes(#[trigger] s[k]),
        run_end(s, i, kind) < s.len() ==> !kind.includes(s[run_end(s, i, kind)]),
    decreases s.len() - i,
{
    if i < s.len() && kind.includes(s[i]) {
        lemma_run_end(s, i + 1, kind);
    }
}

/// A number is not empty and ends within the text.
pub proof fn lemma_number_end(s: Seq<char>, i: int)
    requires
        0 <= i < s.len(),
    ensures
        i < number_end(s, i) <= s.len(),
{
    lemma_run_end(s, i + 1, RunKind::Digits);
    let whole = if s[i] == '0' {
        i + 1
    } else {
        run_end(s, i + 1, RunKind::Digits)
    };
    if whole + 1 < s.len() {
        lemma_run_end(s, whole + 2, RunKind::Digits);
    }
}

/// A token is not empty and ends within the text.
pub proof fn lemma_token_end(s: Seq<char>, i: int)
    requires
        0 <= i < s.len(),
    ensures
        token_at(s, i) matches Some((_, end)) ==> i < end <= s.len(),
        i < next_index(s, i) <= s.len(),
{
    lemma_run_end(s, i + 1, RunKind::CommentBody);
    lemma_run_end(s, i + 1, RunKind::IdentTail);
    lemma_number_end(s, i);
}

/// The text that a token carries: the characters of a number or an
/// identifier, nothing for the other kinds.
pub open spec fn carried_text(token: TokenView) -> Option<Seq<char>> {
    match token {
        TokenView::Number(text) => Some(text),
        TokenView::Ident(text) => Some(text),
        _ => None,
    }
}

/// Whether every token of `tokens` is not empty and lies within the byte
/// offsets `low` to `high`, and each ends before the next one starts.
pub open spec fn spans_ascend(tokens: Seq<SpannedToken>, low: nat, high: nat) -> bool {
    &&& forall|k: int|
        0 <= k < tokens.len() ==> low <= (#[trigger] tokens[k]).start < tokens[k].end <= high
    &&& forall|k: int, l: int|
        0 <= k < l < tokens.len() ==> (#[trigger] tokens[k]).end <= (#[trigger] tokens[l]).start
}

/// Whether every number and identifier of `tokens` carries exactly the text
/// that `bytes` holds between the token's byte offsets.
pub open spec fn texts_match(tokens: Seq<SpannedToken>, bytes: Seq<u8>) -> bool {
    forall|k: int|
        0 <= k < tokens.len() ==> match carried_text((#[trigger] tokens[k]).token) {
            Some(text) => encode_utf8(text) == bytes.subrange(
                tokens[k].start as int,
                tokens[k].end as int,
            ),
            None => true,
        }
}

/// The bytes that stand for a token when a text is put together again: for a
/// number or an identifier the encoding of the text it carries, for the
/// other kinds what `bytes` holds between the token's byte offsets.
pub open spec fn token_bytes(token: SpannedToken, bytes: Seq<u8>) -> Seq<u8> {
    match carried_text(token.token) {
        Some(text) => encode_utf8(text),
        None => bytes.subrange(token.start as int, token.end as int),
    }
}

/// The text put together again from byte offset `from` on: the bytes between
/// the tokens taken from `bytes`, and each token given by [`token_bytes`].
pub open spec fn rebuilt(bytes: Seq<u8>, tokens: Seq<SpannedToken>, from: int) -> Seq<u8>
    decreases tokens.len(),
{
    if tokens.len() == 0 {
        bytes.subrange(from, bytes.len() as int)
    } else {
        bytes.subrange(from, tokens[0].start as int) + token_bytes(tokens[0], bytes) + rebuilt(
            bytes,
            tokens.drop_first(),
            tokens[0].end as int,
        )
    }
}

/// The token that starts at index `i` carries the characters from `i` up to
/// its end, if it carries any.
pub proof fn lemma_token_text(s: Seq<char>, i: int)
    requires
        0 <= i < s.len(),
    ensures
        token_at(s, i) matches Some((token, end)) ==> match carried_text(token) {
            Some(text) => text == s.subrange(i, end),
            None => true,
        },
{
}

/// From any index on, the tokens lie within the rest of the text, in
/// ascending order and without overlap, and numbers and identifiers carry
/// the text at their spans.
pub proof fn lemma_tokens_from(s: Seq<char>, i: int)
    requires
        0 <= i <= s.len(),
    ensures
        spans_ascend(tokens_from(s, i), byte_offset(s, i), byte_len(s)),
        texts_match(tokens_from(s, i), encode_utf8(s)),
    decreases s.len() - i,
{
    lemma_byte_offset_order(s, i, i);
    if i < s.len() {
        lemma_token_end(s, i);
        lemma_token_text(s, i);
        let next = next_index(s, i);
        lemma_tokens_from(s, next);
        lemma_byte_offset_order(s, i, next);
        lemma_encode_subrange(s, i, next);
        let rest = tokens_from(s, next);
        if !is_space(s[i]) && token_at(s, i) is Some {
            let all = tokens_from(s, i);
            assert(all =~= seq![all[0]] + rest);
            assert forall|k: int| 0 < k < all.len() implies #[trigger] all[k] == rest[k - 1] by {}
            assert(spans_ascend(all, byte_offset(s, i), byte_len(s))) by {
                assert forall|k: int, l: int| 0 <= k < l < all.len() implies (#[trigger] all[k]).end
                    <= (#[trigger] all[l]).start by {
                    assert(all[l] == rest[l - 1]);
                    if k > 0 {
                        assert(all[k] == rest[k - 1]);
                    }
                }
            }
            assert(texts_match(all, encode_utf8(s))) by {
                assert forall|k: int| 0 <= k < all.len() implies match carried_text(
                    (#[trigger] all[k]).token,
                ) {
                    Some(text) => encode_utf8(text) == encode_utf8(s).subrange(
                        all[k].start as int,
                        all[k].end as int,
                    ),
                    None => true,
                } by {
                    if k > 0 {
                        assert(all[k] == rest[k - 1]);
                    }
                }
            }
        }
    }
}

/// Whether every rejected character of `rejected` is one character that
/// `bytes` holds between its byte offsets, which lie between `low` and
/// `high`, and each ends before the next one starts.
pub open spec fn mismatches_ascend(
    rejected: Seq<Mismatch>,
    bytes: Seq<u8>,
    low: nat,
    high: nat,
) -> bool {
    &&& forall|k: int|
        0 <= k < rejected.len() ==> {
            &&& low <= (#[trigger] rejected[k]).start < rejected[k].end <= high
            &&& rejected[k].found.len() == 1
            &&& encode_utf8(rejected[k].found) == bytes.subrange(
                rejected[k].start as int,
                rejected[k].end as int,
            )
        }
    &&& forall|k: int, l: int|
        0 <= k < l < rejected.len() ==> (#[trigger] rejected[k]).end <= (
        #[trigger] rejected[l]).start
}

/// From any index on, each rejected character is reported with the bytes
/// that it covers, and the reports come in ascending order.
pub proof fn lemma_mismatches_from(s: Seq<char>, i: int)
    requires
        0 <= i <= s.len(),
    ensures
        mismatches_ascend(mismatches_from(s, i), encode_utf8(s), byte_offset(s, i), byte_len(s)),
    decreases s.len() - i,
{
    lemma_byte_offset_order(s, i, i);
    if i < s.len() {
        lemma_token_end(s, i);
        let next = next_index(s, i);
        lemma_mismatches_from(s, next);
        lemma_byte_offset_order(s, i, next);
        lemma_encode_subrange(s, i, i + 1);
        let rest = mismatches_from(s, next);
        if !is_space(s[i]) && token_at(s, i) is None {
            let all = mismatches_from(s, i);
            assert(all =~= seq![all[0]] + rest);
            assert forall|k: int| 0 < k < all.len() implies #[trigger] all[k] == rest[k - 1] by {}
            assert forall|k: int, l: int| 0 <= k < l < all.len() implies (#[trigger] all[k]).end <= (
            #[trigger] all[l]).start by {
                assert(all[l] == rest[l - 1]);
                if k > 0 {
                    assert(all[k] == rest[k - 1]);
                }
            }
            assert forall|k: int| 0 <= k < all.len() implies {
                &&& byte_offset(s, i) <= (#[trigger] all[k]).start < all[k].end <= byte_len(s)
                &&& all[k].found.len() == 1
                &&& encode_utf8(all[k].found) == encode_utf8(s).subrange(
                    all[k].start as int,
                    all[k].end as int,
                )
            } by {
                if k > 0 {
                    assert(all[k] == rest[k - 1]);
                }
            }
        }
    }
}

/// Errors are sound: every rejected character of a text is reported once,
/// with the bytes that it covers, in the order of the text.
pub proof fn lemma_mismatches_ascend(s: Seq<char>)
    ensures
        mismatches_ascend(lex_mismatches(s), encode_utf8(s), 0, byte_len(s)),
{
    lemma_mismatches_from(s, 0);
    lemma_byte_offset_order(s, 0, 0);
}

/// Spans are sound: every token of a text is not empty and lies within the
/// text's bytes, and the tokens come in ascending order without overlap.
pub proof fn lemma_spans_ascend(s: Seq<char>)
    ensures
        spans_ascend(lex_tokens(s), 0, byte_len(s)),
{
    lemma_tokens_from(s, 0);
    lemma_byte_offset_order(s, 0, 0);
}

/// No text is lost at span boundaries: every number and identifier carries
/// exactly the bytes of the text between its byte offsets.
pub proof fn lemma_texts_match(s: Seq<char>)
    ensures
        texts_match(lex_tokens(s), encode_utf8(s)),
{
    lemma_tokens_from(s, 0);
}

/// Putting tokens together again from an earlier byte offset only adds the
/// bytes between that offset and the later one.
proof fn lemma_rebuilt_earlier(bytes: Seq<u8>, tokens: Seq<SpannedToken>, from: int, later: int)
    requires
        0 <= from <= later <= bytes.len(),
        spans_ascend(tokens, later as nat, bytes.len()),
    ensures
        rebuilt(bytes, tokens, from) == bytes.subrange(from, later) + rebuilt(bytes, tokens, later),
{
    if tokens.len() == 0 {
        assert(bytes.subrange(from, bytes.len() as int) =~= bytes.subrange(from, later)
            + bytes.subrange(later, bytes.len() as int));
    } else {
        let first = tokens[0];
        assert(bytes.subrange(from, first.start as int) =~= bytes.subrange(from, later)
            + bytes.subrange(later, first.start as int));
        assert(rebuilt(bytes, tokens, from) =~= bytes.subrange(from, later) + rebuilt(
            bytes,
            tokens,
            later,
        ));
    }
}

/// From any index on, the tokens and the bytes between them give back the
/// rest of the text.
proof fn lemma_rebuilt_from(s: Seq<char>, i: int)
    requires
        0 <= i <= s.len(),
    ensures
        rebuilt(encode_utf8(s), tokens_from(s, i), byte_offset(s, i) as int) == encode_utf8(
            s,
        ).subrange(byte_offset(s, i) as int, byte_len(s) as int),
    decreases s.len() - i,
{
    let bytes = encode_utf8(s);
    lemma_byte_offset_order(s, i, i);
    if i < s.len() {
        lemma_token_end(s, i);
        let next = next_index(s, i);
        lemma_rebuilt_from(s, next);
        lemma_tokens_from(s, next);
        lemma_tokens_from(s, i);
        lemma_byte_offset_order(s, i, next);
        let here = byte_offset(s, i) as int;
        let there = byte_offset(s, next) as int;
        let rest = tokens_from(s, next);
        if !is_space(s[i]) && token_at(s, i) is Some {
            let all = tokens_from(s, i);
            assert(all.drop_first() =~= rest);
            assert(all[0].start == here && all[0].end == there);
            assert(token_bytes(all[0], bytes) == bytes.subrange(here, there));
            assert(bytes.subrange(here, here) =~= Seq::<u8>::empty());
            assert(rebuilt(bytes, all, here) =~= bytes.subrange(here, byte_len(s) as int));
        } else {
            lemma_rebuilt_earlier(bytes, rest, here, there);
            assert(rebuilt(bytes, rest, here) =~= bytes.subrange(here, byte_len(s) as int));
        }
    }
}

/// Round trip: the texts that numbers and identifiers carry, put between
/// the bytes that surround them, give back the text that was lexed.
pub proof fn lemma_round_trip(s: Seq<char>)
    ensures
        rebuilt(encode_utf8(s), lex_tokens(s), 0) == encode_utf8(s),
{
    lemma_rebuilt_from(s, 0);
    lemma_byte_offset_order(s, 0, 0);
    assert(encode_utf8(s).subrange(0, byte_len(s) as int) =~= encode_utf8(s));
}

/// A run of comment characters reaches the end of the text if no line break
/// follows.
proof fn lemma_comment_runs_to_end(s: Seq<char>, i: int)
    requires
        0 <= i <= s.len(),
        forall|k: int| i <= k < s.len() ==> !is_line_break(#[trigger] s[k]),
    ensures
        run_end(s, i, RunKind::CommentBody) == s.len(),
    decreases s.len() - i,
{
    if i < s.len() {
        assert(RunKind::CommentBody.includes(s[i]));
        lemma_comment_runs_to_end(s, i + 1);
    }
}

/// A `;` that no line break follows starts a comment that runs to the end of
/// the text: it is the only token from there on, and nothing is rejected.
pub proof fn lemma_trailing_comment(s: Seq<char>, i: int)
    requires
        0 <= i < s.len(),
        s[i] == ';',
        forall|k: int| i < k < s.len() ==> !is_line_break(#[trigger] s[k]),
    ensures
        tokens_from(s, i) == seq![
            SpannedToken { token: TokenView::Comment, start: byte_offset(s, i), end: byte_len(s) },
        ],
        mismatches_from(s, i) == Seq::<Mismatch>::empty(),
{
    lemma_comment_runs_to_end(s, i + 1);
    lemma_byte_offset_order(s, i, i);
    assert(!is_space(s[i]));
    assert(token_at(s, i) == Some((TokenView::Comment, s.len() as int)));
    assert(tokens_from(s, s.len() as int) =~= Seq::<SpannedToken>::empty());
    assert(tokens_from(s, i) =~= seq![
        SpannedToken { token: TokenView::Comment, start: byte_offset(s, i), end: byte_len(s) },
    ]);
    assert(mismatches_from(s, s.len() as int) =~= Seq::<Mismatch>::empty());
    assert(mismatches_from(s, i) == mismatches_from(s, s.len() as int));
}

} // verus!
