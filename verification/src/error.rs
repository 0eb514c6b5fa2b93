//! The conditions that operations signal.

use vstd::prelude::*;

verus! {

/// The conditions an operation of the interpreter can signal.
#[derive(Clone, Copy, Debug, PartialEq, Eq, Structural)]
pub enum Error {
    /// The arena has no free slot left, or one of its counters is exhausted.
    OutOfSpace,
    /// A reader or accessor met an atom of another tag than the one it reads.
    TypeMismatch,
    /// A symbol is bound neither in the lexical environment nor globally.
    UnboundSymbol,
    /// A closure or builtin was applied to the wrong number of arguments.
    ArityMismatch,
    /// A list that has to end in Nil ends in something else.
    IllFormedList,
    /// The handle does not refer to a node that its holder owns.
    StaleHandle,
    /// Evaluation nests deeper than the interpreter allows.
    DepthExceeded,
    /// The source text is not a sequence of well-formed expressions.
    Syntax,
}

} // verus!
