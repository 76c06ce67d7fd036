//! Error taxonomy of the library.

use vstd::prelude::*;

verus! {

/// Why a piece of input text was rejected.
///
/// `MalformedAddress` marks a dotted-quad string with the wrong component
/// count, a non-numeric component or an octet outside 0-255.
/// `MalformedEntry` marks an entry line that cannot be turned into a valid
/// address range: a bad bound of a dashed range, a missing or non-numeric
/// mask length, a mask length above 32, or a dashed range whose first bound
/// exceeds its second.
#[derive(Clone, Copy, Debug, PartialEq, Eq, Structural)]
pub enum ParseError {
    MalformedAddress,
    MalformedEntry,
}

/// The first malformed line of a file: its position and what was wrong.
#[derive(Clone, Copy, Debug, PartialEq, Eq, Structural)]
pub struct EntryError {
    /// Position of the offending line, counted from zero in file order.
    pub index: usize,
    /// Why that line was rejected.
    pub kind: ParseError,
}

} // verus!
