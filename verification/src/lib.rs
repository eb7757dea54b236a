//! Decision engine for an autoplay bot of a falling-sand puzzle game.
//!
//! Pieces made of "grains" fall into a grid; same-color grains that form a
//! horizontal band spanning the whole board are cleared.  For each spawned
//! piece the bot snapshots the board, enumerates every (rotation, column)
//! placement, simulates where the piece lands and how the sand settles,
//! scores the settled board with a multi-term heuristic, and emits the
//! control actions that realize the best placement.
//!
//! Scores are exact integers: every heuristic weight is scaled by 40 times
//! the grid width, which turns each term of the weighted sum (including
//! the fractional reach bonuses) into an integer with no loss.

pub mod actions;
pub mod bot;
pub mod clears;
pub mod eval;
pub mod grid;
pub mod settle;
pub mod state;
