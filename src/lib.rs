//! A 9×9 Sudoku engine: generation, constraint checking and the moves a
//! player makes.

pub mod game;
pub mod puzzle;

pub use game::{format_duration, App, Effect, Key};
pub use puzzle::{
    blank_cells, difficulty_from_lowercase, fill_grid, is_in_col, is_in_row, is_in_subgrid, is_safe,
    is_valid_set, validate_sudoku, Cell, Difficulty, Grid, Puzzle, EASY_CLUES, EXPERT_CLUES,
    HARD_CLUES, MEDIUM_CLUES, SIZE, SUBGRID_SIZE,
};
