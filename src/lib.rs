//! One-dimensional cellular automata on a circular lattice, with rule tables
//! built from Wolfram codes.
pub mod ring;
pub mod rule;
pub mod automaton;
pub mod render;
