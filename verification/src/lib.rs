//! A solver for Sudoku grids of any box size up to five.
//!
//! `solver` holds the operations: the first solution of a grid, all its
//! solutions one by one, a check for direct problems, a depth-bounded
//! refutation, and hints. `board` is the mathematical model of a grid in
//! which their contracts are stated, `rules` and `search` say what the
//! operations compute, and `correctness` and `hints` prove what that is
//! worth: a flagged grid has no solution, and the search finds exactly the
//! solved completions of a grid.

pub mod abort_lock;
pub mod all_solutions;
pub mod board;
pub mod correctness;
pub mod flags;
pub mod hints;
pub mod matching;
pub mod order;
pub mod rules;
pub mod search;
pub mod solver;
pub mod sudoku;
