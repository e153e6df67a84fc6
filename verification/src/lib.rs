//! Lexing and position mapping for a small Lisp, as a language server needs
//! them to colour a document.
//!
//! - [`parser`] splits a text into tokens, skipping and reporting the
//!   characters that the grammar rejects, and sorts the tokens into the
//!   categories by which an editor colours them. The grammar itself stands
//!   in [`grammar`], as functions on the characters of a text.
//! - [`position`] keeps a snapshot of a document and finds the line and
//!   column of a byte offset in it, by the model of lines in [`lines`].
//! - [`semantic`] puts the coloured tokens into the form in which they are
//!   sent to a client: each place relative to the one before, each category
//!   under the number that the client's legend gives it.
//! - [`text`] relates characters to the bytes of their UTF-8 encoding.
//!
//! No function of this library fails on any input: what cannot be lexed is
//! reported beside the tokens, and what cannot be sent is left out.

pub mod grammar;
pub mod lines;
pub mod parser;
pub mod position;
pub mod semantic;
pub mod text;
