use sudoku::{generate_puzzle, has_unique_solution, is_valid, solve, Grid};

fn grid_from_rows(rows: [[u8; 9]; 9]) -> Grid {
    let mut cells: Vec<u8> = Vec::new();
    for row in rows.iter() {
        for &value in row.iter() {
            cells.push(value);
        }
    }
    Grid::from_cells(cells).unwrap()
}

#[test]
fn full_valid_board_is_unique() {
    let full = grid_from_rows([
        [4, 3, 5, 2, 6, 9, 7, 8, 1],
        [6, 8, 2, 5, 7, 1, 4, 9, 3],
        [1, 9, 7, 8, 3, 4, 5, 6, 2],
        [8, 2, 6, 1, 9, 5, 3, 4, 7],
        [3, 7, 4, 6, 8, 2, 9, 1, 5],
        [9, 5, 1, 7, 4, 3, 6, 2, 8],
        [5, 1, 9, 3, 2, 6, 8, 7, 4],
        [2, 4, 8, 9, 5, 7, 1, 3, 6],
        [7, 6, 3, 4, 1, 8, 2, 5, 9],
    ]);
    assert!(has_unique_solution(&full));
}

#[test]
fn blank_board_is_not_unique() {
    // The blank board has very many solutions; eleven randomized solves
    // all agreeing is vanishingly unlikely.
    assert!(!has_unique_solution(&Grid::blank()));
}

#[test]
fn generated_puzzle_is_valid_and_solvable() {
    let puzzle = generate_puzzle();
    assert!(is_valid(&puzzle));
    // At least one cell was carved out of the solved board.
    let mut blanks: usize = 0;
    for row in 0..9 {
        for col in 0..9 {
            if puzzle.cell(row, col) == 0 {
                blanks += 1;
            }
        }
    }
    assert!(blanks >= 1);
    // The puzzle still solves to a full, valid board that keeps its clues.
    let solution = solve(puzzle.clone()).expect("a generated puzzle is always solvable");
    assert!(is_valid(&solution));
    for row in 0..9 {
        for col in 0..9 {
            assert_ne!(solution.cell(row, col), 0);
            if puzzle.cell(row, col) != 0 {
                assert_eq!(solution.cell(row, col), puzzle.cell(row, col));
            }
        }
    }
}
