//! A tetrahedral twisty puzzle: its states, the eight corner turns that act on
//! them, a check that a state is a legal configuration, and a breadth-first
//! search for a shortest sequence of turns back to the solved state.

pub mod puzzle;
pub mod turn;
pub mod validate;
pub mod search;

pub use puzzle::{Colour, Corner, FaceState, Rotation, State};
pub use turn::turn;
pub use validate::{colour_correct, SolveError};
pub use search::{solve, Move};
