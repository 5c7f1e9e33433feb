use crate::line_number::LineNumber;
use vstd::prelude::*;

verus! {

/// A range within a single line of a buffer: both columns are byte
/// offsets from the start of that line, with `start_col <= end_col`
/// for well-formed spans.
#[derive(Clone, Copy, PartialEq, Eq, PartialOrd, Ord, Hash, Debug, Structural)]
pub struct SingleLineSpan {
    pub line: LineNumber,
    /// Start column, as a byte offset from the start of the line.
    pub start_col: u32,
    /// End column, as a byte offset from the start of the line.
    pub end_col: u32,
}

} // verus!
