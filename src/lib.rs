//! A 9x9 Sudoku solver built on constraint propagation.
//!
//! The grid is a flat arena of 81 cells; rows, columns and boxes are derived
//! from index arithmetic. The solver only ever narrows candidate sets, and
//! every narrowing it makes is sound with respect to any valid completion of
//! the grid.
pub mod val;
pub mod math;
pub mod cell;
pub mod grid;
pub mod solve;
pub mod puzzle;

pub use val::Val;
pub use math::{
    box_num, col_num, get_box_num, get_col_num, get_row_num, idx_to_box, idx_to_col, idx_to_row,
    peers_of, row_num, shares_unit,
};

pub use cell::{new_cell_list, Cell};
pub use puzzle::{ParseError, Puzzle, SolveError, MAX_ITER};
