//! Snapshots of a document, and the mapping of byte offsets in them to
//! lines and columns.
//!
//! A snapshot keeps its text in a rope of the `ropey` crate. What that crate
//! returns is taken on trust here, in the contracts of this file's
//! `assume_specification` items; everything else is proved from them. The
//! contracts hold for `ropey` with its default features, under which it
//! knows every line break of [`crate::lines`].

use crate::lines::{
    char_index_at, column_at, lemma_char_index_at, lemma_seek_line_start, line_at,
    line_breaks, seek_line,
};
use crate::text::byte_len;
use vstd::prelude::*;

verus! {

/// `ropey::Rope`, a text held as a tree of chunks.
#[verifier::external_type_specification]
#[verifier::external_body]
pub struct ExRope(ropey::Rope);

/// `ropey::Error`, which says which index was out of bounds.
#[verifier::external_type_specification]
#[verifier::external_body]
pub struct ExRopeError(ropey::Error);

/// The characters that a rope holds, in order.
pub uninterp spec fn rope_text(rope: ropey::Rope) -> Seq<char>;

/// `Rope::from_str` builds a rope that holds exactly the characters of
/// `text`.
pub assume_specification[ ropey::Rope::from_str ](text: &str) -> (rope: ropey::Rope)
    ensures
        rope_text(rope) == text@,
;

/// `Rope::try_byte_to_char` fails exactly for a byte index beyond the length
/// of the text in bytes. Otherwise it returns the index of the character in
/// whose encoding the byte lies, and the number of characters for the index
/// one past the last byte.
pub assume_specification[ ropey::Rope::try_byte_to_char ](
    rope: &ropey::Rope,
    byte_idx: usize,
) -> (r: Result<usize, ropey::Error>)
    ensures
        r is Ok <==> byte_idx <= byte_len(rope_text(*rope)),
        r matches Ok(index) ==> index == char_index_at(rope_text(*rope), byte_idx as int),
;

/// `Rope::try_byte_to_line` fails exactly for a byte index beyond the length
/// of the text in bytes. Otherwise it returns the number of line breaks that
/// are complete before the character in whose encoding the byte lies, where
/// a CR and the LF right behind it count as one line break, complete with
/// the LF.
pub assume_specification[ ropey::Rope::try_byte_to_line ](
    rope: &ropey::Rope,
    byte_idx: usize,
) -> (r: Result<usize, ropey::Error>)
    ensures
        r is Ok <==> byte_idx <= byte_len(rope_text(*rope)),
        r matches Ok(line) ==> line == line_at(rope_text(*rope), byte_idx as int),
;

/// `Rope::try_line_to_char` fails exactly for a line index greater than the
/// number of lines, which is one more than the number of line breaks.
/// Otherwise it returns the index of the character right behind the line
/// break that ends the line before, zero for the first line, and the number
/// of characters for the index one past the last line.
pub assume_specification[ ropey::Rope::try_line_to_char ](
    rope: &ropey::Rope,
    line_idx: usize,
) -> (r: Result<usize, ropey::Error>)
    ensures
        r is Ok <==> line_idx <= line_breaks(rope_text(*rope)) + 1,
        r matches Ok(index) ==> index == seek_line(rope_text(*rope), line_idx as int, 0),
;

/// Why a byte offset has no line and column.
#[derive(Debug, Clone, Copy, PartialEq, Eq, Structural)]
pub enum PositionError {
    /// The byte offset lies beyond the end of the snapshot.
    OutOfRange,
}

/// A place in a text: zero-based line, and zero-based column counted in
/// characters.
#[derive(Debug, Clone, Copy, PartialEq, Eq, Structural)]
pub struct Position {
    pub line: usize,
    pub column: usize,
}

/// The full text of a document at one point in time.
pub struct Snapshot {
    rope: ropey::Rope,
}

impl View for Snapshot {
    type V = Seq<char>;

    closed spec fn view(&self) -> Seq<char> {
        rope_text(self.rope)
    }
}

impl Snapshot {
    /// Takes a snapshot of `text`.
    pub fn new(text: &str) -> (snapshot: Snapshot)
        ensures
            snapshot@ == text@,
    {
        Snapshot { rope: ropey::Rope::from_str(text) }
    }

    /// The zero-based index of the line in which the byte at `byte_offset`
    /// lies. The offset may be the length of the text, which lies in the
    /// last line; an offset beyond that is out of range.
    pub fn line_of(&self, byte_offset: usize) -> (r: Result<usize, PositionError>)
        ensures
            r is Ok <==> byte_offset <= byte_len(self@),
            r matches Ok(line) ==> line == line_at(self@, byte_offset as int),
    {
        match self.rope.try_byte_to_line(byte_offset) {
            Ok(line) => Ok(line),
            Err(_) => Err(PositionError::OutOfRange),
        }
    }

    /// The zero-based column of the byte at `byte_offset`: the number of
    /// characters between the start of its line and the character in which
    /// it lies, so that a character of several bytes counts once.
    pub fn column_of(&self, byte_offset: usize) -> (r: Result<usize, PositionError>)
        ensures
            r is Ok <==> byte_offset <= byte_len(self@),
            r matches Ok(column) ==> column == column_at(self@, byte_offset as int),
    {
        match self.position_of(byte_offset) {
            Ok(position) => Ok(position.column),
            Err(error) => Err(error),
        }
    }

    /// Line and column of the byte at `byte_offset`.
    pub fn position_of(&self, byte_offset: usize) -> (r: Result<Position, PositionError>)
        ensures
            r is Ok <==> byte_offset <= byte_len(self@),
            r matches Ok(position) ==> {
                &&& position.line == line_at(self@, byte_offset as int)
                &&& position.column == column_at(self@, byte_offset as int)
            },
    {
        let line = match self.rope.try_byte_to_line(byte_offset) {
            Ok(line) => line,
            Err(_) => { return Err(PositionError::OutOfRange); },
        };
        proof {
            lemma_char_index_at(self@, byte_offset as int);
            lemma_seek_line_start(self@, char_index_at(self@, byte_offset as int));
        }
        let first = match self.rope.try_line_to_char(line) {
            Ok(first) => first,
            Err(_) => { return Err(PositionError::OutOfRange); },
        };
        let index = match self.rope.try_byte_to_char(byte_offset) {
            Ok(index) => index,
            Err(_) => { return Err(PositionError::OutOfRange); },
        };
        Ok(Position { line, column: index - first })
    }
}

} // verus!
