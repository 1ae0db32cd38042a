//! Game plugins. Each is a thin implementation of [`crate::Game`] — the rules
//! only; the engine does the solving.

pub mod array_morris;
pub mod automorphism;
pub mod dense_check;
pub mod generic_morris;
pub mod grid;
pub mod index_fit;
pub mod morris;
pub mod morris_rules;
pub mod opening;
pub mod ring_shape;
pub mod symmetry;
pub mod tablebase;
pub mod three_mens_morris;
pub mod tic_tac_toe;
pub mod y;

pub use three_mens_morris::ThreeMensMorris;
pub use tic_tac_toe::TicTacToe;
