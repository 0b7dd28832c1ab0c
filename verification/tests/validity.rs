use sudoku::{is_valid, Grid};

fn grid_from_rows(rows: [[u8; 9]; 9]) -> Grid {
    let mut cells: Vec<u8> = Vec::new();
    for row in rows.iter() {
        for &value in row.iter() {
            cells.push(value);
        }
    }
    Grid::from_cells(cells).unwrap()
}

fn partial_grid() -> Grid {
    grid_from_rows([
        [0, 0, 0, 2, 6, 0, 7, 0, 1],
        [6, 8, 0, 0, 7, 0, 0, 9, 0],
        [1, 9, 0, 0, 0, 4, 5, 0, 0],
        [8, 2, 0, 1, 0, 0, 0, 4, 0],
        [0, 0, 4, 6, 0, 2, 9, 0, 0],
        [0, 5, 0, 0, 0, 3, 0, 2, 8],
        [0, 0, 9, 3, 0, 0, 0, 7, 4],
        [0, 4, 0, 0, 5, 0, 0, 3, 6],
        [7, 0, 3, 0, 1, 8, 0, 0, 0],
    ])
}

#[test]
fn blank_and_partial_boards_are_valid() {
    assert!(is_valid(&Grid::blank()));
    assert!(is_valid(&partial_grid()));
}

#[test]
fn row_duplicate_is_invalid() {
    let mut cells: Vec<u8> = vec![0; 81];
    cells[3] = 7;
    cells[6] = 7;
    assert!(!is_valid(&Grid::from_cells(cells).unwrap()));
}

#[test]
fn column_duplicate_is_invalid() {
    let mut cells: Vec<u8> = vec![0; 81];
    cells[2] = 4;
    cells[2 + 8 * 9] = 4;
    assert!(!is_valid(&Grid::from_cells(cells).unwrap()));
}

#[test]
fn block_duplicate_is_invalid() {
    // Positions (0, 0) and (2, 2) share the top-left block but no line.
    let mut cells: Vec<u8> = vec![0; 81];
    cells[0] = 9;
    cells[2 * 9 + 2] = 9;
    assert!(!is_valid(&Grid::from_cells(cells).unwrap()));
}

#[test]
fn is_valid_is_repeatable() {
    let good = partial_grid();
    assert_eq!(is_valid(&good), is_valid(&good));
    let mut cells: Vec<u8> = vec![0; 81];
    cells[0] = 1;
    cells[1] = 1;
    let bad = Grid::from_cells(cells).unwrap();
    assert_eq!(is_valid(&bad), is_valid(&bad));
    assert!(!is_valid(&bad));
}

#[test]
fn relabeling_digits_keeps_validity() {
    // Map each digit d to 10 - d: a permutation of 1..=9 with 0 fixed.
    let relabel = |g: &Grid| {
        let mut cells: Vec<u8> = Vec::new();
        for row in 0..9 {
            for col in 0..9 {
                let v = g.cell(row, col);
                cells.push(if v == 0 { 0 } else { 10 - v });
            }
        }
        Grid::from_cells(cells).unwrap()
    };
    let good = partial_grid();
    assert_eq!(is_valid(&relabel(&good)), is_valid(&good));
    let mut cells: Vec<u8> = vec![0; 81];
    cells[0] = 3;
    cells[4] = 3;
    let bad = Grid::from_cells(cells).unwrap();
    assert_eq!(is_valid(&relabel(&bad)), is_valid(&bad));
    assert!(!is_valid(&relabel(&bad)));
}

#[test]
fn from_cells_rejects_bad_input() {
    // Too short.
    assert!(Grid::from_cells(vec![0; 80]).is_none());
    // Too long.
    assert!(Grid::from_cells(vec![0; 82]).is_none());
    // An out-of-range cell value.
    let mut cells: Vec<u8> = vec![0; 81];
    cells[40] = 10;
    assert!(Grid::from_cells(cells).is_none());
    // A well-formed board is accepted and read back unchanged.
    let mut cells: Vec<u8> = vec![0; 81];
    cells[17] = 8;
    let grid = Grid::from_cells(cells).unwrap();
    assert_eq!(grid.cell(1, 8), 8);
    assert_eq!(grid.cell(0, 0), 0);
}
