//! The ways in which an argument can fall outside what the logic engine
//! supports.

use vstd::prelude::*;

verus! {

/// Why a checked operation refused its arguments.
#[derive(Clone, Copy, Debug, PartialEq, Eq, Hash, Structural)]
pub enum LogicError {
    /// More bits were asked for than the engine supports.
    BitWidth,
    /// A value does not fit in the number of bits given for it.
    ValueTooWide,
    /// The row and column counts of a split do not add up to the number of
    /// variables.
    SplitMismatch,
    /// A map format does not cover the inputs of the table it is applied to.
    FormatMismatch,
    /// An output index names no output of the table.
    OutputIndex,
}

} // verus!
