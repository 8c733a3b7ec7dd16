//! Piece sequence generator of a falling-block puzzle game, and a search for
//! the cycles of its state machine.
pub mod explore;
pub mod rng;
pub mod stats;
