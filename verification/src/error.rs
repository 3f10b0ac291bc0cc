//! The errors of the library.

use vstd::prelude::*;

verus! {

/// The ways in which an operation on a grammar or an automaton can fail.
#[derive(Clone, Copy, Debug, PartialEq, Eq, Structural)]
pub enum AutomataError {
    /// A node id was looked up that the graph has no entry for.
    UnknownNode,
    /// A production has neither one nor two symbols.
    MalformedGrammar,
}

} // verus!
