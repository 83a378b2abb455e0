//! A rule-based solver for nonograms (paint-by-number puzzles).
//!
//! The clues (the run lengths of black cells of every row and column) are
//! validated by [`Clues::new`] and handed to a [`Solver`], which fills the
//! board with eight rules of deduction within one line, as a person would.
//! It does not search (no trial and error); in exchange, every confirmed
//! cell comes with its reason ([`Reason`]), which [`Solver::hint`] reports.
//!
//! - [`Clues`]: validated clues; input is checked there and only there
//! - [`Grid`]: the board
//! - [`Solver`]: the engine: [`Solver::solve`] for a full solve,
//!   [`Solver::next_step`] and [`Solver::hint`] for stepping (they always
//!   agree on the step)
//! - [`Session`]: the interactive layer: holds the user's board and history
//!   and builds a throw-away `Solver` for every question
use vstd::prelude::*;

pub mod analysis;
pub mod clue;
pub mod grid;
pub mod rules;
pub mod session;
pub mod solver;

pub use clue::{ClueError, Clues, LineId};
pub use grid::{CellState, Color, Grid, GridMismatch};
pub use rules::{Deduction, Reason};
pub use session::Session;
pub use solver::{Contradiction, Hint, HintBlock, Outcome, Solver, Step};

verus! {

} // verus!
