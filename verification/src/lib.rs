//! Board genotype for the N-Queens problem: a fixed-length sequence of column
//! positions, one per row, together with the operations an evolutionary search
//! engine drives it with — random generation, single-gene mutation, linear-time
//! fitness scoring, the solution predicate, and textual rendering.

pub mod board;
pub mod collisions;
pub mod render;
mod rng;

pub use board::QueensBoard;
