//! Lazy flattening of a sequence of sequences, traversable from both ends,
//! together with a small reverse-polish evaluator and a move tracker.

pub mod iterators;
pub mod move_semantics;
pub mod rpn;
