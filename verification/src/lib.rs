//! A compiler pass that eliminates surface-level pattern matching from a
//! functional program, rewriting every multi-clause, pattern-matching
//! definition into an equivalent family of single-clause, pattern-free
//! definitions whose case analysis is expressed as applications of
//! Scott-encoded handler chains.

pub mod names;
pub mod term;
pub mod book;
pub mod encode;
