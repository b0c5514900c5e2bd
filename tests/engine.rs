use sudoku::{
    blank_cells, difficulty_from_lowercase, fill_grid, format_duration, is_in_col, is_in_row, is_in_subgrid,
    is_valid_set, validate_sudoku, App, Cell, Difficulty, Effect, Grid, Key, Puzzle, SIZE,
};

fn empty_grid() -> Grid {
    [[Cell::new(0, false); SIZE]; SIZE]
}

fn solved_grid() -> Grid {
    let mut grid = empty_grid();
    assert!(fill_grid(&mut grid));
    grid
}

/// The finished board of a new puzzle, found by filling its empty cells.
fn solution_of(puzzle: &Puzzle) -> Grid {
    let mut grid = puzzle.grid();
    assert!(fill_grid(&mut grid));
    grid
}

#[test]
fn every_difficulty_keeps_its_clue_count() {
    for (d, k) in [
        (Difficulty::Easy, 36),
        (Difficulty::Medium, 34),
        (Difficulty::Hard, 32),
        (Difficulty::Expert, 30),
    ] {
        assert_eq!(d.clues(), k);
        let puzzle = Puzzle::new(d);
        let grid = puzzle.grid();
        let filled = grid.iter().flatten().filter(|c| c.value() != 0).count();
        let clues = grid.iter().flatten().filter(|c| c.is_clue()).count();
        assert_eq!(filled, k);
        assert_eq!(clues, k);
        assert_eq!(81 - filled, grid.iter().flatten().filter(|c| c.value() == 0).count());
        assert!(grid.iter().flatten().all(|c| c.is_clue() == (c.value() != 0)));
        assert!(grid.iter().flatten().all(|c| !c.posible_wrong()));
        assert!(!puzzle.is_solved());
    }
}

#[test]
fn new_puzzles_are_valid() {
    for d in [Difficulty::Easy, Difficulty::Medium, Difficulty::Hard, Difficulty::Expert] {
        let puzzle = Puzzle::new(d);
        assert!(puzzle.validate());
        assert!(validate_sudoku(&puzzle.grid()));
    }
}

#[test]
fn fill_grid_gives_a_full_valid_board() {
    let grid = solved_grid();
    assert!(grid.iter().flatten().all(|c| (1..=9).contains(&c.value())));
    assert!(validate_sudoku(&grid));
}

#[test]
fn fill_grid_fails_and_leaves_grid_on_dead_end() {
    // Row 0 holds 1..8 in columns 1..8, and column 0 holds a 9 lower down:
    // nothing can go at (0, 0).
    let mut grid = empty_grid();
    for c in 1..9 {
        grid[0][c] = Cell::new(c as u8, true);
    }
    grid[5][0] = Cell::new(9, true);
    let before = grid;
    assert!(validate_sudoku(&grid));
    assert!(!fill_grid(&mut grid));
    assert_eq!(grid, before);
}

#[test]
fn shuffled_generation_differs_between_runs() {
    let first = solved_grid();
    let differs = (0..5).any(|_| solved_grid() != first);
    assert!(differs);
}

#[test]
fn validate_sudoku_finds_each_kind_of_repeat() {
    let mut grid = empty_grid();
    assert!(validate_sudoku(&grid));
    grid[2][0] = Cell::new(4, false);
    grid[2][8] = Cell::new(4, false);
    assert!(!validate_sudoku(&grid));

    let mut grid = empty_grid();
    grid[0][6] = Cell::new(7, false);
    grid[8][6] = Cell::new(7, false);
    assert!(!validate_sudoku(&grid));

    let mut grid = empty_grid();
    grid[3][3] = Cell::new(2, false);
    grid[5][5] = Cell::new(2, false);
    assert!(!validate_sudoku(&grid));

    grid[5][5] = Cell::new(3, false);
    assert!(validate_sudoku(&grid));
}

#[test]
fn is_valid_set_ignores_zeros() {
    assert!(is_valid_set(&[0, 0, 0, 1, 0, 2]));
    assert!(is_valid_set(&[]));
    assert!(!is_valid_set(&[0, 9, 0, 9]));
}

#[test]
fn lookups_in_row_column_and_block() {
    let mut grid = empty_grid();
    grid[4][7] = Cell::new(6, false);
    assert!(is_in_row(&grid, 4, 6));
    assert!(!is_in_row(&grid, 5, 6));
    assert!(is_in_col(&grid, 7, 6));
    assert!(!is_in_col(&grid, 6, 6));
    assert!(is_in_subgrid(&grid, 3, 6, 6));
    assert!(!is_in_subgrid(&grid, 3, 3, 6));
}

#[test]
fn clues_do_not_change() {
    let mut puzzle = Puzzle::new(Difficulty::Easy);
    let grid = puzzle.grid();
    for r in 0..9 {
        for c in 0..9 {
            if grid[r][c].is_clue() {
                let other = grid[r][c].value() % 9 + 1;
                puzzle.insert_number(r, c, other);
                puzzle.clear_cell(r, c);
            }
        }
    }
    assert_eq!(puzzle.grid(), grid);
}

#[test]
fn first_fill_wins_until_cleared() {
    let mut puzzle = Puzzle::from_grid(empty_grid());
    puzzle.insert_number(3, 4, 7);
    assert_eq!(puzzle.grid()[3][4].value(), 7);
    puzzle.insert_number(3, 4, 2);
    assert_eq!(puzzle.grid()[3][4].value(), 7);
    puzzle.clear_cell(3, 4);
    assert_eq!(puzzle.grid()[3][4].value(), 0);
    puzzle.insert_number(3, 4, 2);
    assert_eq!(puzzle.grid()[3][4].value(), 2);
}

#[test]
fn filling_in_the_solution_solves() {
    let mut puzzle = Puzzle::new(Difficulty::Expert);
    let solution = solution_of(&puzzle);
    let empties: Vec<(usize, usize)> = (0..81)
        .map(|p| (p / 9, p % 9))
        .filter(|&(r, c)| puzzle.grid()[r][c].value() == 0)
        .collect();
    let (last, rest) = empties.split_last().unwrap();
    for &(r, c) in rest {
        puzzle.insert_number(r, c, solution[r][c].value());
        assert!(!puzzle.is_solved());
    }
    puzzle.insert_number(last.0, last.1, solution[last.0][last.1].value());
    assert!(puzzle.is_solved());
    assert!(puzzle.validate());
    assert!(puzzle.grid().iter().flatten().all(|c| !c.posible_wrong()));
}

#[test]
fn clearing_a_solved_puzzle_unsolves_it() {
    let mut puzzle = Puzzle::new(Difficulty::Hard);
    let solution = solution_of(&puzzle);
    let mut target = (0, 0);
    for r in 0..9 {
        for c in 0..9 {
            if puzzle.grid()[r][c].value() == 0 {
                target = (r, c);
                puzzle.insert_number(r, c, solution[r][c].value());
            }
        }
    }
    assert!(puzzle.is_solved());
    puzzle.clear_cell(target.0, target.1);
    assert!(!puzzle.is_solved());
    assert_eq!(puzzle.grid()[target.0][target.1].value(), 0);
}

#[test]
fn one_clue_scenario() {
    let mut grid = empty_grid();
    grid[0][0] = Cell::new(5, true);
    let mut puzzle = Puzzle::from_grid(grid);
    assert_eq!(puzzle.clues(), 1);

    puzzle.insert_number(0, 0, 5);
    assert_eq!(puzzle.grid(), grid);

    puzzle.insert_number(0, 1, 5);
    let cell = puzzle.grid()[0][1];
    assert_eq!(cell.value(), 5);
    assert!(cell.posible_wrong());
    assert!(!cell.is_clue());
    assert!(is_in_row(&puzzle.grid(), 0, 5));

    puzzle.clear_cell(0, 1);
    let cell = puzzle.grid()[0][1];
    assert_eq!(cell.value(), 0);
    assert!(!cell.posible_wrong());
    assert!(is_in_row(&puzzle.grid(), 0, 5));
    assert_eq!(puzzle.grid(), grid);
}

#[test]
fn reset_keeps_clues_and_empties_the_rest() {
    let mut puzzle = Puzzle::new(Difficulty::Medium);
    let start = puzzle.grid();
    let solution = solution_of(&puzzle);
    for r in 0..9 {
        for c in 0..9 {
            if start[r][c].value() == 0 {
                puzzle.insert_number(r, c, solution[r][c].value());
            }
        }
    }
    assert!(puzzle.is_solved());
    puzzle.reset();
    assert!(!puzzle.is_solved());
    let after = puzzle.grid();
    for r in 0..9 {
        for c in 0..9 {
            if start[r][c].is_clue() {
                assert_eq!(after[r][c], start[r][c]);
            } else {
                assert_eq!(after[r][c].value(), 0);
            }
        }
    }
}

#[test]
fn difficulty_names_in_any_case() {
    assert_eq!(Difficulty::parse("easy"), Ok(Difficulty::Easy));
    assert_eq!(Difficulty::parse("MEDIUM"), Ok(Difficulty::Medium));
    assert_eq!(Difficulty::parse("Hard"), Ok(Difficulty::Hard));
    assert_eq!("eXpErT".parse::<Difficulty>(), Ok(Difficulty::Expert));
    assert_eq!(difficulty_from_lowercase("hard"), Some(Difficulty::Hard));
    assert_eq!(difficulty_from_lowercase("Hard"), None);
}

#[test]
fn unknown_difficulty_is_refused() {
    assert_eq!(
        Difficulty::parse("nightmare"),
        Err("Invalid difficulty: nightmare".to_string())
    );
    assert_eq!(Difficulty::parse(""), Err("Invalid difficulty: ".to_string()));
}

#[test]
fn clock_text() {
    assert_eq!(format_duration(0), "00:00:00");
    assert_eq!(format_duration(3725), "01:02:05");
    assert_eq!(format_duration(59), "00:00:59");
    assert_eq!(format_duration(36000 + 600 + 10), "10:10:10");
    assert_eq!(format_duration(360000), "100:00:00");
}

#[test]
fn keys_from_characters() {
    assert_eq!(Key::from_char('q'), Key::Quit);
    assert_eq!(Key::from_char('N'), Key::NewGame);
    assert_eq!(Key::from_char('r'), Key::Reset);
    assert_eq!(Key::from_char('7'), Key::Digit(7));
    assert_eq!(Key::from_char('0'), Key::Digit(0));
    assert_eq!(Key::from_char('x'), Key::Other);
}

#[test]
fn session_moves_and_edits() {
    let mut app = App::new(Difficulty::Easy);
    assert_eq!(app.selected(), (0, 0));
    assert_eq!(app.handle_key(Key::Left), Effect::Keep);
    assert_eq!(app.selected(), (0, 0));
    for _ in 0..12 {
        app.handle_key(Key::Right);
        app.handle_key(Key::Down);
    }
    assert_eq!(app.selected(), (8, 8));
    app.handle_key(Key::Up);
    assert_eq!(app.selected(), (7, 8));

    let before = app.puzzle().grid();
    app.handle_key(Key::Digit(0));
    assert_eq!(app.puzzle().grid(), before);

    assert_eq!(app.handle_key(Key::NewGame), Effect::Restart);
    assert_eq!(app.level(), Difficulty::Easy);
    assert!(!app.should_exit());
    app.handle_key(Key::Quit);
    assert!(app.should_exit());
}

#[test]
fn session_reports_the_solve() {
    let mut app = App::new(Difficulty::Expert);
    let start = app.puzzle().grid();
    let solution = solution_of(&app.puzzle());
    let last_empty = (0..81).filter(|&p| start[p / 9][p % 9].value() == 0).last().unwrap();
    let mut effects = Vec::new();
    for r in 0..9 {
        for c in 0..9 {
            let (sr, sc) = app.selected();
            for _ in sr..r {
                app.handle_key(Key::Down);
            }
            for _ in c..sc {
                app.handle_key(Key::Left);
            }
            for _ in sc..c {
                app.handle_key(Key::Right);
            }
            assert_eq!(app.selected(), (r, c));
            effects.push(app.handle_key(Key::Digit(solution[r][c].value())));
        }
    }
    assert!(app.puzzle().is_solved());
    assert_eq!(effects.iter().position(|e| *e == Effect::Solved), Some(last_empty));
    app.handle_key(Key::Erase);
    app.handle_key(Key::Reset);
    assert!(!app.puzzle().is_solved());
}

#[test]
fn blank_cells_follows_the_given_order() {
    let full = solved_grid();
    let order: Vec<usize> = (0..81).rev().collect();
    let mut grid = full;
    blank_cells(&mut grid, &order, 10);
    for p in 0..81 {
        let cell = grid[p / 9][p % 9];
        if p >= 71 {
            assert_eq!(cell, Cell::new(0, false));
        } else {
            assert_eq!(cell, full[p / 9][p % 9]);
        }
    }
    assert!(validate_sudoku(&grid));

    let mut untouched = full;
    blank_cells(&mut untouched, &order, 0);
    assert_eq!(untouched, full);
}

#[test]
fn mistake_mark_is_set_at_each_insert() {
    let mut grid = empty_grid();
    grid[0][0] = Cell::new(5, true);
    let mut puzzle = Puzzle::from_grid(grid);
    puzzle.insert_number(0, 1, 5);
    assert!(puzzle.grid()[0][1].posible_wrong());
    puzzle.reset();
    assert_eq!(puzzle.grid()[0][1], Cell::new(0, false));
    puzzle.insert_number(0, 1, 6);
    assert!(!puzzle.grid()[0][1].posible_wrong());
}

#[test]
fn any_digit_on_a_clue_or_filled_cell_changes_nothing() {
    let mut grid = empty_grid();
    grid[4][4] = Cell::new(3, true);
    grid[4][5] = Cell::new(8, false);
    let mut puzzle = Puzzle::from_grid(grid);
    for num in [0u8, 1, 9, 200] {
        puzzle.insert_number(4, 4, num);
        puzzle.insert_number(4, 5, num);
    }
    assert_eq!(puzzle.grid(), grid);
}
