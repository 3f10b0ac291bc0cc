//! Finite automata from right-linear grammars: a grammar is compiled into a
//! nondeterministic automaton, the automaton is made deterministic by the
//! subset construction and minimal by partition refinement, and the result
//! scans a text for the longest run that it accepts.

pub mod compile;
pub mod dfa;
pub mod error;
pub mod export;
pub mod formal;
pub mod graphviz;
pub mod minimize;
pub mod nfa;
pub mod powerset;
pub mod reader;
pub mod sorted;
pub mod subset;
pub mod text;
pub mod token;
