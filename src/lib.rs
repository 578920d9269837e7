//! Regular expressions as trees, a position-set matcher over them, and
//! the automata pipeline: Thompson construction of an NFA and subset
//! construction of an equivalent DFA. The three ways of matching are proved
//! to agree.
//!
//! Beside it stands a small stack machine over `i32` values.

pub mod equivalence;
pub mod fsa;
pub mod regexp;
pub mod rx_to_fsa;
pub mod stack_machine;
pub mod text;
