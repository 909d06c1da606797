//! Rules engine of a Minesweeper game: mine layout, adjacency counting,
//! cascading reveal, marking, and win/loss determination.
//!
//! - [`grid`]: coordinates, storage indices and neighbourhoods.
//! - [`counting`]: counting the elements of a sequence that satisfy a predicate.
//! - [`board`]: the board, its construction, its counts and its flags.
//! - [`placement`]: turning random draws into a mine layout.
//! - [`cascade`]: what a reveal reaches and reports.
//! - [`flood`]: the flood fill that carries a reveal out.
//! - [`session`]: the state machine from the menu through a game and back.

pub mod board;
pub mod cascade;
pub mod counting;
pub mod flood;
pub mod grid;
pub mod placement;
mod rng;
pub mod session;
