//! The legend that a client and the server agree on, and the list of
//! coloured tokens in the form in which it is sent: each token's line and
//! column relative to the token before it.

use crate::grammar::lex_tokens;
use crate::lines::{column_at, lemma_place_bounds, lemma_places_ascend, line_at};
use crate::parser::{
    highlight_views, highlights_ascend, highlights_of, lemma_parsed_highlights_ascend,
    ImCompleteSemanticToken, TokenCategory,
};
use crate::position::{Position, Snapshot};
use crate::text::{byte_len, lemma_byte_offset_order, lemma_encode_injective};
use vstd::prelude::*;
use vstd::string::*;

verus! {

/// Whether two texts hold the same characters.
pub fn same_text(a: &str, b: &str) -> (same: bool)
    ensures
        same == (a@ == b@),
{
    let x = a.as_bytes();
    let y = b.as_bytes();
    if x.len() != y.len() {
        return false;
    }
    let mut i: usize = 0;
    while i < x.len()
        invariant
            i <= x.len(),
            x.len() == y.len(),
            x@ == a.spec_bytes(),
            y@ == b.spec_bytes(),
            forall|j: int| 0 <= j < i ==> x@[j] == y@[j],
        decreases x.len() - i,
    {
        if x[i] != y[i] {
            return false;
        }
        i = i + 1;
    }
    proof {
        assert(x@ =~= y@);
        lemma_encode_injective(a@, b@);
    }
    true
}

impl TokenCategory {
    /// The name under which the protocol knows this category.
    pub open spec fn name(self) -> Seq<char> {
        match self {
            TokenCategory::Comment => "comment"@,
            TokenCategory::Number => "number"@,
            TokenCategory::Variable => "variable"@,
        }
    }

    /// The category that goes by `name`, if there is one.
    pub open spec fn named(name: Seq<char>) -> Option<TokenCategory> {
        if name == TokenCategory::Comment.name() {
            Some(TokenCategory::Comment)
        } else if name == TokenCategory::Number.name() {
            Some(TokenCategory::Number)
        } else if name == TokenCategory::Variable.name() {
            Some(TokenCategory::Variable)
        } else {
            None
        }
    }

    /// The name under which the protocol knows this category.
    pub fn as_str(self) -> (name: &'static str)
        ensures
            name@ == self.name(),
    {
        match self {
            TokenCategory::Comment => "comment",
            TokenCategory::Number => "number",
            TokenCategory::Variable => "variable",
        }
    }

    /// The category that goes by `name`, if there is one.
    pub fn from_name(name: &str) -> (category: Option<TokenCategory>)
        ensures
            category == TokenCategory::named(name@),
    {
        if same_text(name, "comment") {
            Some(TokenCategory::Comment)
        } else if same_text(name, "number") {
            Some(TokenCategory::Number)
        } else if same_text(name, "variable") {
            Some(TokenCategory::Variable)
        } else {
            None
        }
    }
}

/// No two categories go by the same name, and each is the one that is found
/// under its name.
pub proof fn lemma_names_differ(a: TokenCategory, b: TokenCategory)
    ensures
        a.name() == b.name() <==> a == b,
        TokenCategory::named(a.name()) == Some(a),
{
    reveal_strlit("comment");
    reveal_strlit("number");
    reveal_strlit("variable");
    assert("comment"@.len() == 7);
    assert("number"@.len() == 6);
    assert("variable"@.len() == 8);
}

/// Index of the last of the first `count` names that is `name`, if one is.
pub open spec fn last_index_of(names: Seq<String>, count: int, name: Seq<char>) -> Option<usize>
    decreases count,
{
    if count <= 0 {
        None
    } else if names[count - 1]@ == name {
        Some((count - 1) as usize)
    } else {
        last_index_of(names, count - 1, name)
    }
}

/// The numbers that stand for the categories in what is sent to a client.
/// A category that the client did not ask for has none.
#[derive(Debug, Clone, Copy, PartialEq, Eq, Structural)]
pub struct Legend {
    comment: Option<usize>,
    number: Option<usize>,
    variable: Option<usize>,
}

impl Legend {
    /// The number that stands for `category`, if it has one.
    pub closed spec fn spec_index_of(&self, category: TokenCategory) -> Option<usize> {
        match category {
            TokenCategory::Comment => self.comment,
            TokenCategory::Number => self.number,
            TokenCategory::Variable => self.variable,
        }
    }

    /// A legend in which no category has a number.
    pub fn new() -> (legend: Legend)
        ensures
            forall|category: TokenCategory| legend.spec_index_of(category) is None,
    {
        Legend { comment: None, number: None, variable: None }
    }

    /// Gives `category` the number `index`, in place of the one it had.
    pub fn assign(&mut self, category: TokenCategory, index: usize)
        ensures
            final(self).spec_index_of(category) == Some(index),
            forall|other: TokenCategory|
                other != category ==> final(self).spec_index_of(other) == old(self).spec_index_of(
                    other,
                ),
    {
        match category {
            TokenCategory::Comment => { self.comment = Some(index); },
            TokenCategory::Number => { self.number = Some(index); },
            TokenCategory::Variable => { self.variable = Some(index); },
        }
    }

    /// The legend for the list of category names that a client sent: each
    /// category stands under the index at which the list names it, under
    /// the last such index if it names it more than once, and has no number
    /// if the list does not name it. Names of other categories only take
    /// up their index.
    pub fn from_names(names: &Vec<String>) -> (legend: Legend)
        ensures
            forall|category: TokenCategory|
                legend.spec_index_of(category) == last_index_of(
                    names@,
                    names.len() as int,
                    category.name(),
                ),
    {
        let mut legend = Legend::new();
        let mut i: usize = 0;
        while i < names.len()
            invariant
                i <= names.len(),
                forall|category: TokenCategory|
                    legend.spec_index_of(category) == last_index_of(
                        names@,
                        i as int,
                        category.name(),
                    ),
            decreases names.len() - i,
        {
            proof {
                assert forall|a: TokenCategory, b: TokenCategory|
                    (a.name() == b.name() <==> a == b) && TokenCategory::named(a.name()) == Some(
                        a,
                    ) by {
                    lemma_names_differ(a, b);
                }
            }
            match TokenCategory::from_name(names[i].as_str()) {
                Some(category) => {
                    legend.assign(category, i);
                },
                None => {},
            }
            i = i + 1;
        }
        legend
    }

    /// The number that stands for `category`, if it has one.
    pub fn index_of(&self, category: TokenCategory) -> (index: Option<usize>)
        ensures
            index == self.spec_index_of(category),
    {
        match category {
            TokenCategory::Comment => self.comment,
            TokenCategory::Number => self.number,
            TokenCategory::Variable => self.variable,
        }
    }
}

/// A coloured token as it is sent to a client: its line relative to the
/// line of the token before it, its column relative to that token's column
/// if both are in one line and to the start of the line otherwise, its
/// length, the number of its category, and no modifiers.
#[derive(Debug, Clone, Copy, PartialEq, Eq, Structural)]
pub struct SemanticToken {
    pub delta_line: u32,
    pub delta_start: u32,
    pub length: u32,
    pub token_type: u32,
    pub token_modifiers_bitset: u32,
}

/// Whether the place `line`, `column` lies at or behind the place
/// `prev_line`, `prev_column`.
pub open spec fn follows(line: int, column: int, prev_line: int, prev_column: int) -> bool {
    line > prev_line || (line == prev_line && column >= prev_column)
}

/// The line of a place relative to the place before it.
pub open spec fn delta_line(line: int, prev_line: int) -> int {
    line - prev_line
}

/// The column of a place relative to the place before it: the difference of
/// the columns if both are in one line, the column itself otherwise.
pub open spec fn delta_start(line: int, column: int, prev_line: int, prev_column: int) -> int {
    if line == prev_line {
        column - prev_column
    } else {
        column
    }
}

/// Whether `token` can be sent, with the token before it at `prev_line`,
/// `prev_column`: it starts within `text`, its category has a number in
/// `legend`, its place lies at or behind that of the token before, and all
/// that is sent of it fits in 32 bits.
pub open spec fn is_sent(
    text: Seq<char>,
    legend: Legend,
    token: ImCompleteSemanticToken,
    prev_line: int,
    prev_column: int,
) -> bool {
    let line = line_at(text, token.start as int) as int;
    let column = column_at(text, token.start as int);
    &&& token.start <= byte_len(text)
    &&& legend.spec_index_of(token.token_type) matches Some(index)
    &&& index <= u32::MAX
    &&& token.length <= u32::MAX
    &&& follows(line, column, prev_line, prev_column)
    &&& delta_line(line, prev_line) <= u32::MAX
    &&& delta_start(line, column, prev_line, prev_column) <= u32::MAX
}

/// What is sent for `token`, with the token before it at `prev_line`,
/// `prev_column`, where `token` can be sent.
pub open spec fn sent_for(
    text: Seq<char>,
    legend: Legend,
    token: ImCompleteSemanticToken,
    prev_line: int,
    prev_column: int,
) -> SemanticToken {
    let line = line_at(text, token.start as int) as int;
    let column = column_at(text, token.start as int);
    SemanticToken {
        delta_line: delta_line(line, prev_line) as u32,
        delta_start: delta_start(line, column, prev_line, prev_column) as u32,
        length: token.length as u32,
        token_type: legend.spec_index_of(token.token_type)->0 as u32,
        token_modifiers_bitset: 0,
    }
}

/// What is sent for the tokens from index `k` on, with the last token sent
/// before them at `prev_line`, `prev_column`. A token that cannot be sent
/// is left out, and the next one is taken relative to the last one sent.
pub open spec fn encoded_from(
    text: Seq<char>,
    legend: Legend,
    tokens: Seq<ImCompleteSemanticToken>,
    k: int,
    prev_line: int,
    prev_column: int,
) -> Seq<SemanticToken>
    decreases tokens.len() - k,
{
    if k < 0 || k >= tokens.len() {
        Seq::empty()
    } else if is_sent(text, legend, tokens[k], prev_line, prev_column) {
        seq![sent_for(text, legend, tokens[k], prev_line, prev_column)] + encoded_from(
            text,
            legend,
            tokens,
            k + 1,
            line_at(text, tokens[k].start as int) as int,
            column_at(text, tokens[k].start as int),
        )
    } else {
        encoded_from(text, legend, tokens, k + 1, prev_line, prev_column)
    }
}

/// What is sent for a list of tokens: the first token that can be sent is
/// taken relative to line 0, column 0, so it stands with its own place.
pub open spec fn encoded(
    text: Seq<char>,
    legend: Legend,
    tokens: Seq<ImCompleteSemanticToken>,
) -> Seq<SemanticToken> {
    encoded_from(text, legend, tokens, 0, 0, 0)
}

/// The place `current` relative to the place `previous`: the difference of
/// the lines, and the difference of the columns if both are in one line, the
/// column of `current` otherwise. There is none if `current` lies before
/// `previous`.
pub fn relative_to(current: Position, previous: Position) -> (delta: Option<Position>)
    ensures
        delta is Some <==> follows(
            current.line as int,
            current.column as int,
            previous.line as int,
            previous.column as int,
        ),
        delta matches Some(d) ==> {
            &&& d.line == delta_line(current.line as int, previous.line as int)
            &&& d.column == delta_start(
                current.line as int,
                current.column as int,
                previous.line as int,
                previous.column as int,
            )
        },
{
    if current.line > previous.line {
        Some(Position { line: current.line - previous.line, column: current.column })
    } else if current.line == previous.line && current.column >= previous.column {
        Some(Position { line: 0, column: current.column - previous.column })
    } else {
        None
    }
}

/// The value `n` in 32 bits, if it fits.
pub fn narrow(n: usize) -> (r: Option<u32>)
    ensures
        r is Some <==> n <= u32::MAX,
        r matches Some(v) ==> v == n,
{
    if n <= 0xFFFF_FFFF {
        Some(n as u32)
    } else {
        None
    }
}

/// What is sent for `token`, with the last token sent before it at
/// `previous`, together with the place of `token`; nothing if `token`
/// cannot be sent.
pub fn encode_token(
    snapshot: &Snapshot,
    legend: &Legend,
    token: &ImCompleteSemanticToken,
    previous: Position,
) -> (r: Option<(SemanticToken, Position)>)
    ensures
        r is Some <==> is_sent(
            snapshot@,
            *legend,
            *token,
            previous.line as int,
            previous.column as int,
        ),
        r matches Some((sent, place)) ==> {
            &&& sent == sent_for(
                snapshot@,
                *legend,
                *token,
                previous.line as int,
                previous.column as int,
            )
            &&& place.line == line_at(snapshot@, token.start as int)
            &&& place.column == column_at(snapshot@, token.start as int)
        },
{
    let place = match snapshot.position_of(token.start) {
        Ok(place) => place,
        Err(_) => { return None; },
    };
    let index = match legend.index_of(token.token_type) {
        Some(index) => index,
        None => { return None; },
    };
    let delta = match relative_to(place, previous) {
        Some(delta) => delta,
        None => { return None; },
    };
    let delta_line = match narrow(delta.line) {
        Some(value) => value,
        None => { return None; },
    };
    let delta_start = match narrow(delta.column) {
        Some(value) => value,
        None => { return None; },
    };
    let length = match narrow(token.length) {
        Some(value) => value,
        None => { return None; },
    };
    let token_type = match narrow(index) {
        Some(value) => value,
        None => { return None; },
    };
    Some(
        (
            SemanticToken { delta_line, delta_start, length, token_type, token_modifiers_bitset: 0 },
            place,
        ),
    )
}

/// Puts the coloured tokens of a document into the form in which they are
/// sent.
///
/// Each token's place is looked up in `snapshot` and given relative to the
/// token sent before it; the first one is given relative to line 0, column
/// 0. A token is left out, and the tokens behind it are unaffected, if it
/// starts beyond the end of `snapshot`, if `legend` has no number for its
/// category, if its place lies before that of the token sent before it, or
/// if a value to be sent does not fit in 32 bits.
pub fn semantic_tokens_full(
    snapshot: &Snapshot,
    legend: &Legend,
    tokens: &Vec<ImCompleteSemanticToken>,
) -> (data: Vec<SemanticToken>)
    ensures
        data@ == encoded(snapshot@, *legend, tokens@),
        data.len() <= tokens.len(),
        forall|k: int| 0 <= k < data.len() ==> (#[trigger] data[k]).token_modifiers_bitset == 0,
{
    let mut data: Vec<SemanticToken> = Vec::new();
    let mut previous = Position { line: 0, column: 0 };
    let mut k: usize = 0;
    assert(data@ + encoded_from(snapshot@, *legend, tokens@, 0, 0, 0) =~= encoded(
        snapshot@,
        *legend,
        tokens@,
    ));
    while k < tokens.len()
        invariant
            k <= tokens.len(),
            data.len() <= k,
            data@ + encoded_from(
                snapshot@,
                *legend,
                tokens@,
                k as int,
                previous.line as int,
                previous.column as int,
            ) == encoded(snapshot@, *legend, tokens@),
            forall|j: int| 0 <= j < data.len() ==> (#[trigger] data[j]).token_modifiers_bitset == 0,
        decreases tokens.len() - k,
    {
        match encode_token(snapshot, legend, &tokens[k], previous) {
            Some((sent, place)) => {
                let ghost earlier = data@;
                let ghost rest = encoded_from(
                    snapshot@,
                    *legend,
                    tokens@,
                    k + 1,
                    place.line as int,
                    place.column as int,
                );
                data.push(sent);
                assert(data@ + rest =~= earlier + (seq![sent] + rest));
                previous = place;
            },
            None => {},
        }
        k = k + 1;
    }
    assert(data@ + Seq::<SemanticToken>::empty() =~= data@);
    data
}

/// The places, as line and column, that a client finds for what was sent,
/// by adding up from the place `line`, `column`: a line is the line before
/// plus the relative line; a column is the column before plus the relative
/// column if the relative line is zero, the relative column itself
/// otherwise.
pub open spec fn decoded(data: Seq<SemanticToken>, line: int, column: int) -> Seq<(int, int)>
    decreases data.len(),
{
    if data.len() == 0 {
        Seq::empty()
    } else {
        let next_line = line + data[0].delta_line;
        let next_column = if data[0].delta_line == 0 {
            column + data[0].delta_start
        } else {
            data[0].delta_start as int
        };
        seq![(next_line, next_column)] + decoded(data.drop_first(), next_line, next_column)
    }
}

/// The places in `text`, as line and column, of those tokens from index `k`
/// on that are sent, with the last token sent before them at `prev_line`,
/// `prev_column`.
pub open spec fn sent_places_from(
    text: Seq<char>,
    legend: Legend,
    tokens: Seq<ImCompleteSemanticToken>,
    k: int,
    prev_line: int,
    prev_column: int,
) -> Seq<(int, int)>
    decreases tokens.len() - k,
{
    if k < 0 || k >= tokens.len() {
        Seq::empty()
    } else if is_sent(text, legend, tokens[k], prev_line, prev_column) {
        let line = line_at(text, tokens[k].start as int) as int;
        let column = column_at(text, tokens[k].start as int);
        seq![(line, column)] + sent_places_from(text, legend, tokens, k + 1, line, column)
    } else {
        sent_places_from(text, legend, tokens, k + 1, prev_line, prev_column)
    }
}

/// Adding up what was sent gives back the places of the tokens that were
/// sent, from any index and any place before it on.
pub proof fn lemma_decoded_from(
    text: Seq<char>,
    legend: Legend,
    tokens: Seq<ImCompleteSemanticToken>,
    k: int,
    prev_line: int,
    prev_column: int,
)
    requires
        0 <= k <= tokens.len(),
        0 <= prev_line,
        0 <= prev_column,
    ensures
        decoded(encoded_from(text, legend, tokens, k, prev_line, prev_column), prev_line, prev_column)
            == sent_places_from(text, legend, tokens, k, prev_line, prev_column),
    decreases tokens.len() - k,
{
    if k < tokens.len() {
        let token = tokens[k];
        if is_sent(text, legend, token, prev_line, prev_column) {
            lemma_place_bounds(text, token.start as int);
            let line = line_at(text, token.start as int) as int;
            let column = column_at(text, token.start as int);
            let sent = sent_for(text, legend, token, prev_line, prev_column);
            let rest = encoded_from(text, legend, tokens, k + 1, line, column);
            lemma_decoded_from(text, legend, tokens, k + 1, line, column);
            let all = seq![sent] + rest;
            assert(all.drop_first() =~= rest);
            assert(all[0] == sent);
            assert(prev_line + sent.delta_line == line);
        } else {
            lemma_decoded_from(text, legend, tokens, k + 1, prev_line, prev_column);
        }
    }
}

/// A client that adds up what was sent, starting at line 0, column 0, finds
/// the places in the text of exactly the tokens that were sent.
pub proof fn lemma_decoded(
    text: Seq<char>,
    legend: Legend,
    tokens: Seq<ImCompleteSemanticToken>,
)
    ensures
        decoded(encoded(text, legend, tokens), 0, 0) == sent_places_from(
            text,
            legend,
            tokens,
            0,
            0,
            0,
        ),
{
    lemma_decoded_from(text, legend, tokens, 0, 0, 0);
}

/// Whether every category has a number in `legend` that fits in 32 bits.
pub open spec fn numbers_all(legend: Legend) -> bool {
    forall|category: TokenCategory|
        (#[trigger] legend.spec_index_of(category)) matches Some(index) && index <= u32::MAX
}

/// Where the tokens lie within the text in ascending order, the text is no
/// longer than 32 bits can say and the legend numbers all categories, every
/// token from index `k` on is sent, provided the last place before lies at
/// or before the byte offset `from`, which no token from `k` on precedes.
proof fn lemma_all_sent_from(
    text: Seq<char>,
    legend: Legend,
    tokens: Seq<ImCompleteSemanticToken>,
    k: int,
    from: int,
)
    requires
        0 <= k <= tokens.len(),
        highlights_ascend(highlight_views(tokens), byte_len(text)),
        byte_len(text) <= u32::MAX,
        numbers_all(legend),
        0 <= from,
        k < tokens.len() ==> from <= tokens[k].start,
    ensures
        encoded_from(
            text,
            legend,
            tokens,
            k,
            line_at(text, from) as int,
            column_at(text, from),
        ).len() == tokens.len() - k,
    decreases tokens.len() - k,
{
    if k < tokens.len() {
        let views = highlight_views(tokens);
        let token = tokens[k];
        assert(views[k] == token@);
        assert(views[k].start + views[k].length <= byte_len(text));
        lemma_places_ascend(text, from, token.start as int);
        lemma_place_bounds(text, token.start as int);
        lemma_place_bounds(text, from);
        assert(legend.spec_index_of(token.token_type) is Some);
        assert(is_sent(text, legend, token, line_at(text, from) as int, column_at(text, from)));
        if k + 1 < tokens.len() {
            assert(views[k + 1] == tokens[k + 1]@);
            assert(views[k].start + views[k].length <= views[k + 1].start);
        }
        lemma_all_sent_from(text, legend, tokens, k + 1, token.start as int);
    }
}

/// The first place of a text is line 0, column 0.
proof fn lemma_first_place(text: Seq<char>)
    ensures
        line_at(text, 0) == 0,
        column_at(text, 0) == 0,
{
    if text.len() > 0 {
        lemma_byte_offset_order(text, 0, 1);
    }
}

/// Nothing is left out of what a text gives: where `tokens` are the
/// coloured tokens of `source`, `source` is no longer than 32 bits can say
/// and the legend numbers all categories, what is sent for `tokens` against
/// a snapshot of `source` holds every one of them.
pub proof fn lemma_parsed_tokens_all_sent(
    source: Seq<char>,
    legend: Legend,
    tokens: Seq<ImCompleteSemanticToken>,
)
    requires
        highlight_views(tokens) == highlights_of(lex_tokens(source)),
        byte_len(source) <= u32::MAX,
        numbers_all(legend),
    ensures
        encoded(source, legend, tokens).len() == tokens.len(),
{
    lemma_parsed_highlights_ascend(source);
    lemma_first_place(source);
    lemma_all_sent_from(source, legend, tokens, 0, 0);
}

} // verus!
