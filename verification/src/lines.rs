//! Lines and columns of a text, as mathematical functions on its sequence
//! of characters.
//!
//! A line ends with a line break: LF, VT, FF, CR, NEL, LINE SEPARATOR or
//! PARAGRAPH SEPARATOR, where a CR with an LF right behind it forms one line
//! break together with that LF. The line break belongs to the line that it
//! ends. Lines and columns count from zero, and a column counts characters.

use crate::text::{byte_len, byte_offset, is_line_break, lemma_byte_offset_order};
use vstd::prelude::*;

verus! {

/// Index of the character in whose encoding the byte offset `b` lies,
/// searched from index `k` on; the number of characters if `b` lies behind
/// all of them.
pub open spec fn char_index_from(s: Seq<char>, k: int, b: int) -> int
    decreases s.len() - k,
{
    if 0 <= k < s.len() && byte_offset(s, k + 1) <= b {
        char_index_from(s, k + 1, b)
    } else {
        k
    }
}

/// Index of the character in whose encoding the byte offset `b` lies; the
/// number of characters where `b` is the length of the encoding.
pub open spec fn char_index_at(s: Seq<char>, b: int) -> int {
    char_index_from(s, 0, b)
}

/// Whether a line ends with the character at index `j`: it is a line break,
/// and not a CR with an LF right behind it.
pub open spec fn ends_line(s: Seq<char>, j: int) -> bool {
    &&& 0 <= j < s.len()
    &&& is_line_break(s[j])
    &&& !(s[j] == '\r' && j + 1 < s.len() && s[j + 1] == '\n')
}

/// Number of lines that end before the character index `k`.
pub open spec fn breaks_before(s: Seq<char>, k: int) -> nat
    decreases k,
{
    if k <= 0 {
        0
    } else if ends_line(s, k - 1) {
        breaks_before(s, k - 1) + 1
    } else {
        breaks_before(s, k - 1)
    }
}

/// Index of the first character of the line in which the character index
/// `k` lies.
pub open spec fn line_start(s: Seq<char>, k: int) -> int
    decreases k,
{
    if k <= 0 {
        0
    } else if ends_line(s, k - 1) {
        k
    } else {
        line_start(s, k - 1)
    }
}

/// Index reached from index `k` by going on until `n` more lines have ended;
/// the number of characters if fewer lines end.
pub open spec fn seek_line(s: Seq<char>, n: int, k: int) -> int
    decreases s.len() - k,
{
    if n <= 0 || k < 0 || k >= s.len() {
        k
    } else if ends_line(s, k) {
        seek_line(s, n - 1, k + 1)
    } else {
        seek_line(s, n, k + 1)
    }
}

/// Number of line breaks in the whole text.
pub open spec fn line_breaks(s: Seq<char>) -> nat {
    breaks_before(s, s.len() as int)
}

/// Zero-based index of the line in which the byte offset `b` lies.
pub open spec fn line_at(s: Seq<char>, b: int) -> nat {
    breaks_before(s, char_index_at(s, b))
}

/// Zero-based column of the byte offset `b`: the number of characters
/// between the start of its line and the character in which it lies.
pub open spec fn column_at(s: Seq<char>, b: int) -> int {
    char_index_at(s, b) - line_start(s, char_index_at(s, b))
}

/// The character index found for a byte offset is the one in whose encoding
/// the offset lies.
pub proof fn lemma_char_index_from(s: Seq<char>, k: int, b: int)
    requires
        0 <= k <= s.len(),
        byte_offset(s, k) <= b <= byte_len(s),
    ensures
        k <= char_index_from(s, k, b) <= s.len(),
        byte_offset(s, char_index_from(s, k, b)) <= b,
        char_index_from(s, k, b) < s.len() ==> b < byte_offset(s, char_index_from(s, k, b) + 1),
    decreases s.len() - k,
{
    if k < s.len() && byte_offset(s, k + 1) <= b {
        lemma_char_index_from(s, k + 1, b);
    }
}

/// The character index of a byte offset within the text: the offset lies in
/// the encoding of that character, or at the end of the text.
pub proof fn lemma_char_index_at(s: Seq<char>, b: int)
    requires
        0 <= b <= byte_len(s),
    ensures
        0 <= char_index_at(s, b) <= s.len(),
        byte_offset(s, char_index_at(s, b)) <= b,
        char_index_at(s, b) < s.len() ==> b < byte_offset(s, char_index_at(s, b) + 1),
{
    lemma_byte_offset_order(s, 0, 0);
    lemma_char_index_from(s, 0, b);
}

/// The byte offset at which a character starts gives back that character's
/// index.
pub proof fn lemma_char_index_of_offset(s: Seq<char>, j: int)
    requires
        0 <= j <= s.len(),
    ensures
        char_index_at(s, byte_offset(s, j) as int) == j,
{
    let b = byte_offset(s, j) as int;
    lemma_byte_offset_order(s, j, j);
    lemma_char_index_at(s, b);
    let k = char_index_at(s, b);
    if k < j {
        lemma_byte_offset_order(s, k + 1, j);
    } else if j < k {
        lemma_byte_offset_order(s, j, k);
    }
}

/// A later byte offset lies in the same character or in a later one.
pub proof fn lemma_char_index_monotonic(s: Seq<char>, a: int, b: int)
    requires
        0 <= a <= b <= byte_len(s),
    ensures
        char_index_at(s, a) <= char_index_at(s, b),
{
    lemma_char_index_at(s, a);
    lemma_char_index_at(s, b);
    let ka = char_index_at(s, a);
    let kb = char_index_at(s, b);
    if kb < ka {
        lemma_byte_offset_order(s, kb + 1, ka);
    }
}

/// The number of lines that have ended grows with the character index.
pub proof fn lemma_breaks_monotonic(s: Seq<char>, j: int, k: int)
    requires
        j <= k,
    ensures
        breaks_before(s, j) <= breaks_before(s, k),
    decreases k - j,
{
    if j < k {
        lemma_breaks_monotonic(s, j, k - 1);
    }
}

/// The start of a line lies at or before each index of the line, right
/// behind a line end or at the start of the text, and no line ends between
/// it and the index.
pub proof fn lemma_line_start(s: Seq<char>, k: int)
    requires
        0 <= k <= s.len(),
    ensures
        0 <= line_start(s, k) <= k,
        line_start(s, k) == 0 || ends_line(s, line_start(s, k) - 1),
        forall|j: int| line_start(s, k) <= j < k ==> !ends_line(s, j),
        breaks_before(s, line_start(s, k)) == breaks_before(s, k),
    decreases k,
{
    if k > 0 && !ends_line(s, k - 1) {
        lemma_line_start(s, k - 1);
    }
}

/// Seeking over `n + m` line ends is seeking over `n` and then over `m`.
pub proof fn lemma_seek_compose(s: Seq<char>, n: int, m: int, k: int)
    requires
        0 <= n,
        0 <= m,
        0 <= k <= s.len(),
    ensures
        seek_line(s, n + m, k) == seek_line(s, m, seek_line(s, n, k)),
    decreases s.len() - k,
{
    if n > 0 && k < s.len() {
        if ends_line(s, k) {
            lemma_seek_compose(s, n - 1, m, k + 1);
        } else {
            lemma_seek_compose(s, n, m, k + 1);
        }
    }
}

/// Seeking over one line end from within a line leads right behind the end
/// of that line.
pub proof fn lemma_seek_one(s: Seq<char>, a: int, k: int)
    requires
        0 <= a <= k < s.len(),
        forall|j: int| a <= j < k ==> !ends_line(s, j),
        ends_line(s, k),
    ensures
        seek_line(s, 1, a) == k + 1,
    decreases k - a,
{
    if a < k {
        lemma_seek_one(s, a + 1, k);
    } else {
        assert(seek_line(s, 0, k + 1) == k + 1);
    }
}

/// Seeking from the start of the text over as many line ends as lie before
/// an index leads to the start of that index's line.
pub proof fn lemma_seek_line_start(s: Seq<char>, k: int)
    requires
        0 <= k <= s.len(),
    ensures
        seek_line(s, breaks_before(s, k) as int, 0) == line_start(s, k),
        line_start(s, k) <= k,
        breaks_before(s, k) <= line_breaks(s),
    decreases k,
{
    lemma_breaks_monotonic(s, k, s.len() as int);
    lemma_line_start(s, k);
    if k > 0 {
        lemma_seek_line_start(s, k - 1);
        if ends_line(s, k - 1) {
            let before = breaks_before(s, k - 1) as int;
            lemma_seek_compose(s, before, 1, 0);
            lemma_line_start(s, k - 1);
            lemma_seek_one(s, line_start(s, k - 1), k - 1);
        }
    }
}

/// Two indices before which equally many lines end lie in the same line.
pub proof fn lemma_same_line(s: Seq<char>, j: int, k: int)
    requires
        0 <= j <= k <= s.len(),
        breaks_before(s, j) == breaks_before(s, k),
    ensures
        line_start(s, j) == line_start(s, k),
    decreases k - j,
{
    if j < k {
        lemma_breaks_monotonic(s, j, k - 1);
        lemma_breaks_monotonic(s, k - 1, k);
        lemma_same_line(s, j, k - 1);
    }
}

/// Lines and columns are bounded by the number of characters, and so by the
/// number of bytes.
pub proof fn lemma_place_bounds(s: Seq<char>, b: int)
    requires
        0 <= b <= byte_len(s),
    ensures
        line_at(s, b) <= s.len() <= byte_len(s),
        0 <= column_at(s, b) <= s.len(),
{
    lemma_char_index_at(s, b);
    let k = char_index_at(s, b);
    lemma_line_start(s, k);
    lemma_breaks_bound(s, k);
    lemma_byte_offset_order(s, 0, s.len() as int);
}

/// No more lines end before an index than there are characters before it.
pub proof fn lemma_breaks_bound(s: Seq<char>, k: int)
    requires
        0 <= k,
    ensures
        breaks_before(s, k) <= k,
    decreases k,
{
    if k > 0 {
        lemma_breaks_bound(s, k - 1);
    }
}

/// Places grow with byte offsets: a later offset lies in a later line, or in
/// the same line at the same or a later column.
pub proof fn lemma_places_ascend(s: Seq<char>, a: int, b: int)
    requires
        0 <= a <= b <= byte_len(s),
    ensures
        line_at(s, a) < line_at(s, b) || (line_at(s, a) == line_at(s, b) && column_at(s, a)
            <= column_at(s, b)),
{
    lemma_char_index_at(s, a);
    lemma_char_index_at(s, b);
    lemma_char_index_monotonic(s, a, b);
    let ka = char_index_at(s, a);
    let kb = char_index_at(s, b);
    lemma_breaks_monotonic(s, ka, kb);
    if breaks_before(s, ka) == breaks_before(s, kb) {
        lemma_same_line(s, ka, kb);
    }
}

/// A column counts characters, whatever their width in bytes: the place of
/// the byte offset at which the character with index `j` starts is the line
/// of that character, and as many columns as there are characters between
/// the start of that line and `j`.
pub proof fn lemma_column_counts_characters(s: Seq<char>, j: int)
    requires
        0 <= j <= s.len(),
    ensures
        line_at(s, byte_offset(s, j) as int) == breaks_before(s, j),
        column_at(s, byte_offset(s, j) as int) == j - line_start(s, j),
{
    lemma_char_index_of_offset(s, j);
}

} // verus!
