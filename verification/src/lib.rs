//! Find line numbers and line-relative spans within a text buffer.
//!
//! A [`LinePositions`] index is built once from a buffer and then answers
//! read-only queries: which line a byte offset falls on, and which
//! per-line spans a byte range covers. Lines are delimited by single
//! `\n` bytes; a `\r` before a `\n` is treated as ordinary line content.

pub mod index;
pub mod line_number;
pub mod model;
pub mod span;

pub use index::LinePositions;
pub use index::PositionError;
pub use line_number::LineNumber;
pub use span::SingleLineSpan;
