use sudoku::{
    is_safe, is_valid_set, Cell, Difficulty, Puzzle, EASY_CLUES, EXPERT_CLUES, HARD_CLUES,
    MEDIUM_CLUES, SIZE,
};

fn empty_cells(puzzle: &Puzzle) -> usize {
    puzzle
        .grid()
        .iter()
        .flatten()
        .filter(|cell| cell.value() == 0)
        .count()
}

#[test]
fn test_puzzle_generation_easy() {
    let puzzle = Puzzle::new(Difficulty::Easy);
    assert_eq!(puzzle.clues(), EASY_CLUES);
    assert_eq!(empty_cells(&puzzle), SIZE * SIZE - EASY_CLUES);
}

#[test]
fn test_puzzle_generation_medium() {
    let puzzle = Puzzle::new(Difficulty::Medium);
    assert_eq!(puzzle.clues(), MEDIUM_CLUES);
    assert_eq!(empty_cells(&puzzle), SIZE * SIZE - MEDIUM_CLUES);
}

#[test]
fn test_puzzle_generation_hard() {
    let puzzle = Puzzle::new(Difficulty::Hard);
    assert_eq!(puzzle.clues(), HARD_CLUES);
    assert_eq!(empty_cells(&puzzle), SIZE * SIZE - HARD_CLUES);
}

#[test]
fn test_puzzle_generation_expert() {
    let puzzle = Puzzle::new(Difficulty::Expert);
    assert_eq!(puzzle.clues(), EXPERT_CLUES);
    assert_eq!(empty_cells(&puzzle), SIZE * SIZE - EXPERT_CLUES);
}

#[test]
fn test_grid_has_valid_solution_after_generation() {
    let puzzle = Puzzle::new(Difficulty::Medium);
    assert!(puzzle.validate());
}

#[test]
fn test_is_valid_set() {
    let valid_row = vec![1, 2, 3, 4, 5, 6, 7, 8, 9];
    assert!(is_valid_set(&valid_row));

    let invalid_row = vec![1, 2, 3, 4, 5, 5, 7, 8, 9];
    assert!(!is_valid_set(&invalid_row));
}

#[test]
fn test_is_safe() {
    let mut grid = [[Cell::new(0, false); SIZE]; SIZE];

    grid[0][0] = Cell::new(1, false);
    grid[0][1] = Cell::new(2, false);
    grid[0][2] = Cell::new(3, false);

    assert!(!is_safe(&grid, 0, 3, 1));
    assert!(is_safe(&grid, 1, 3, 4));
}

#[test]
fn test_is_safe_row_conflict() {
    let mut grid = [[Cell::new(0, false); SIZE]; SIZE];

    grid[0][0] = Cell::new(1, false);
    grid[0][1] = Cell::new(2, false);

    assert!(!is_safe(&grid, 0, 2, 1));
    assert!(is_safe(&grid, 0, 2, 3));
}

#[test]
fn test_is_safe_column_conflict() {
    let mut grid = [[Cell::new(0, false); SIZE]; SIZE];

    grid[0][0] = Cell::new(1, false);
    grid[1][0] = Cell::new(2, false);

    assert!(!is_safe(&grid, 2, 0, 1));
    assert!(is_safe(&grid, 2, 0, 3));
}

#[test]
fn test_is_safe_subgrid_conflict() {
    let mut grid = [[Cell::new(0, false); SIZE]; SIZE];

    grid[0][0] = Cell::new(1, false);
    grid[1][1] = Cell::new(2, false);

    assert!(!is_safe(&grid, 1, 1, 1));
    assert!(is_safe(&grid, 1, 1, 3));
}

#[test]
fn test_is_safe_empty_cell() {
    let grid = [[Cell::new(0, false); SIZE]; SIZE];

    assert!(is_safe(&grid, 4, 4, 5));
}
