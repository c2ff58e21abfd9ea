//! Monte Carlo tree search for sequential games of perfect information, with a
//! transposition table: a position that several orders of moves lead to is
//! searched once.
//!
//! The search counts in whole numbers.  Rewards are units of reward, two to the
//! point, and visits are counted.  Among the moves of a position that have been
//! tried, selection takes the one with the greatest key; the keys come from a
//! function that each iteration is given.
//!
//! - `game`: what a game must offer, and the model of its rules.
//! - `table`: the model of a search, a table of entries linked by moves.
//! - `search`: the search itself, and its view as a table.
//! - `select`, `expand`, `rollout`, `backprop`, `rank`: the parts of an
//!   iteration; `step`: the iteration.
//! - `sweep`: committing a move, and dropping what can no longer be reached.
//! - `tally`: reward totals by player.
//! - `mancala`, `tictactoe`: two games.

pub mod backprop;
pub mod expand;
pub mod game;
pub mod mancala;
pub mod rank;
pub mod rollout;
pub mod search;
pub mod select;
pub mod step;
pub mod sweep;
pub mod table;
pub mod tally;
pub mod tictactoe;
