use sudoku::{solve, Grid};

fn grid_from_rows(rows: [[u8; 9]; 9]) -> Grid {
    let mut cells: Vec<u8> = Vec::new();
    for row in rows.iter() {
        for &value in row.iter() {
            cells.push(value);
        }
    }
    Grid::from_cells(cells).unwrap()
}

#[test]
fn test_solver() {
    let puzzle = grid_from_rows([
        [0, 0, 0, 2, 6, 0, 7, 0, 1],
        [6, 8, 0, 0, 7, 0, 0, 9, 0],
        [1, 9, 0, 0, 0, 4, 5, 0, 0],
        [8, 2, 0, 1, 0, 0, 0, 4, 0],
        [0, 0, 4, 6, 0, 2, 9, 0, 0],
        [0, 5, 0, 0, 0, 3, 0, 2, 8],
        [0, 0, 9, 3, 0, 0, 0, 7, 4],
        [0, 4, 0, 0, 5, 0, 0, 3, 6],
        [7, 0, 3, 0, 1, 8, 0, 0, 0],
    ]);

    let answer = grid_from_rows([
        [4, 3, 5, 2, 6, 9, 7, 8, 1],
        [6, 8, 2, 5, 7, 1, 4, 9, 3],
        [1, 9, 7, 8, 3, 4, 5, 6, 2],
        [8, 2, 6, 1, 9, 5, 3, 4, 7],
        [3, 7, 4, 6, 8, 2, 9, 1, 5],
        [9, 5, 1, 7, 4, 3, 6, 2, 8],
        [5, 1, 9, 3, 2, 6, 8, 7, 4],
        [2, 4, 8, 9, 5, 7, 1, 3, 6],
        [7, 6, 3, 4, 1, 8, 2, 5, 9],
    ]);

    assert_eq!(solve(puzzle).unwrap(), answer);

    let puzzle = grid_from_rows([
        [0, 0, 0, 6, 0, 0, 4, 0, 0],
        [7, 0, 0, 0, 0, 3, 6, 0, 0],
        [0, 0, 0, 0, 9, 1, 0, 8, 0],
        [0, 0, 0, 0, 0, 0, 0, 0, 0],
        [0, 5, 0, 1, 8, 0, 0, 0, 3],
        [0, 0, 0, 3, 0, 6, 0, 4, 5],
        [0, 4, 0, 2, 0, 0, 0, 6, 0],
        [9, 0, 3, 0, 0, 0, 0, 0, 0],
        [0, 2, 0, 0, 0, 0, 1, 0, 0],
    ]);

    let answer = grid_from_rows([
        [5, 8, 1, 6, 7, 2, 4, 3, 9],
        [7, 9, 2, 8, 4, 3, 6, 5, 1],
        [3, 6, 4, 5, 9, 1, 7, 8, 2],
        [4, 3, 8, 9, 5, 7, 2, 1, 6],
        [2, 5, 6, 1, 8, 4, 9, 7, 3],
        [1, 7, 9, 3, 2, 6, 8, 4, 5],
        [8, 4, 5, 2, 1, 9, 3, 6, 7],
        [9, 1, 3, 7, 6, 8, 5, 2, 4],
        [6, 2, 7, 4, 3, 5, 1, 9, 8],
    ]);

    assert_eq!(solve(puzzle).unwrap(), answer);
}

#[test]
fn solve_blank_board_succeeds() {
    let solution = solve(Grid::blank()).expect("the blank board always has a solution");
    for row in 0..9 {
        for col in 0..9 {
            assert_ne!(solution.cell(row, col), 0);
        }
    }
    assert!(sudoku::is_valid(&solution));
}

#[test]
fn solve_contradictory_board_fails() {
    // Two 5s fixed in the top row: no completion can exist.
    let mut cells: Vec<u8> = vec![0; 81];
    cells[0] = 5;
    cells[8] = 5;
    let grid = Grid::from_cells(cells).unwrap();
    assert!(solve(grid).is_none());
}

#[test]
fn randomized_solves_of_blank_board_differ() {
    // The solver shuffles its digit order, so two solutions of the blank
    // board agreeing on all 81 cells is vanishingly unlikely.
    let a = solve(Grid::blank()).unwrap();
    let b = solve(Grid::blank()).unwrap();
    assert_ne!(a, b);
}
