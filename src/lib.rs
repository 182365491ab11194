//! Compiles a regular-expression pattern into a nondeterministic finite
//! automaton held in an append-only arena, and matches it against text.
pub mod graph;
pub mod parser;
pub mod automata;
