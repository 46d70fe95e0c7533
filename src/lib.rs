//! Sudoku generation: a solved grid by randomized backtracking, then a clue
//! grid carved out of it while each removal keeps the digit forced.
use vstd::prelude::*;

pub mod board;
pub mod digit_set;
pub mod generator;
pub mod game;

verus! {

} // verus!
