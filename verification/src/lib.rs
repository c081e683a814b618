//! Decision engine for a two-player grid-pathing-and-blocking board game.
//!
//! Each side moves a token toward an opposing edge of a 9x9 board, or spends
//! wall segments to slow the opponent, without ever fully blocking either
//! side's path to its goal row.  The engine enumerates legal token moves and
//! heuristically ranked wall placements, searches the game tree with minimax
//! and alpha-beta pruning, and returns the best action for the south side.
//!
//! Scores are held in fixed-point integers: every heuristic weight is scaled
//! by 100, so a whole point of the evaluation is worth 100 units.

pub mod board;
pub mod edges;
pub mod paths;
pub mod moves;
pub mod rules;
pub mod eval;
pub mod search;
