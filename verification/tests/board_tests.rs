use sudoku::board::{get_cell_indices, Board, Difficulty};
use sudoku::error::SudokuError;
use sudoku::links::DancingLinks;
use sudoku::node::RowInfo;

#[test]
fn generate_random_board() {
    let board = Board::from_seed(2200, None);
    println!("{:?}", board);

    let mut dl = DancingLinks::new();
    dl.init_header_row();
    dl.init_constraint_matrix();
    let sol = dl.solve_with_partial(&board).unwrap();

    let solved_board = dl.to_sudoku_board(&sol);
    println!("{:?}", solved_board);
    assert!(solved_board.validate());
    for i in 0..81 {
        assert!(board.cells[i] == 0 || board.cells[i] == solved_board.cells[i]);
    }
}

#[test]
fn test_apply_user_input_to_board() {
    let mut board = Board::from_seed(2200, None);
    // This vector represents a valid solution to the puzzle
    let solution = vec![
        9, 2, 7, 1, 3, 6, 8, 4, 5, // Row 1
        1, 3, 4, 2, 5, 8, 6, 7, 9, // Row 2
        5, 6, 8, 4, 7, 9, 1, 3, 2, // Row 3
        2, 7, 1, 8, 4, 3, 5, 9, 6, // Row 4
        6, 5, 3, 9, 2, 1, 4, 8, 7, // Row 5
        4, 8, 9, 7, 6, 5, 2, 1, 3, // Row 6
        7, 1, 2, 5, 9, 4, 3, 6, 8, // Row 7
        8, 9, 6, 3, 1, 2, 7, 5, 4, // Row 8
        3, 4, 5, 6, 8, 7, 9, 2, 1, // Row 9
    ];
    match board.apply_user_input_to_board(solution) {
        Ok(_) => assert!(
            board.validate(),
            "Board should be valid after applying solution"
        ),
        Err(e) => panic!("Failed to apply solution: {}", e),
    }
}

#[test]
#[should_panic(expected = "user tried to overwrite existing board.")]
fn test_failure_apply_user_input_to_board() {
    let mut board = Board::from_seed(2200, None);
    // Modified first row to conflict with a board hint
    let invalid_solution = vec![
        5, 5, 5, 1, 4, 6, 8, 4, 5, 1, 3, 4, 2, 5, 8, 6, 7, 9, 5, 6, 8, 4, 7, 9, 1, 3, 2, 2, 7,
        1, 8, 4, 3, 5, 9, 6, 6, 5, 3, 9, 2, 1, 4, 8, 7, 4, 8, 9, 7, 6, 5, 2, 1, 3, 7, 1, 2, 5,
        9, 4, 3, 6, 8, 8, 9, 6, 3, 1, 2, 7, 5, 4, 3, 4, 5, 6, 8, 7, 9, 2, 1,
    ];

    board
        .apply_user_input_to_board(invalid_solution)
        .expect("user tried to overwrite existing board.");
}

#[test]
fn test_validate_valid_board() {
    let valid_cells: [u8; 81] = [
        7, 9, 6, 5, 8, 1, 4, 2, 3, 2, 4, 1, 9, 3, 7, 5, 6, 8, 8, 3, 5, 6, 2, 4, 9, 1, 7, 6, 8,
        7, 3, 5, 2, 1, 4, 9, 4, 1, 9, 8, 7, 6, 3, 5, 2, 3, 5, 2, 4, 1, 9, 7, 8, 6, 1, 7, 8, 2,
        4, 3, 6, 9, 5, 5, 6, 3, 1, 9, 8, 2, 7, 4, 9, 2, 4, 7, 6, 5, 8, 3, 1,
    ];
    let board = Board { cells: valid_cells };
    let valid = board.validate();
    assert_eq!(valid, true, "Validation was incorrect");
}

#[test]
fn test_validate_empty_board() {
    let invalid_cells: [u8; 81] = [0; 81];
    let board = Board {
        cells: invalid_cells,
    };
    let valid = board.validate();
    assert_eq!(valid, false, "Validation was incorrect");
}

#[test]
fn test_board_validate() {
    // same as valid_cells in first test w/ the first element changed.
    let invalid_cells: [u8; 81] = [
        1, 9, 6, 5, 8, 1, 4, 2, 3, 2, 4, 1, 9, 3, 7, 5, 6, 8, 8, 3, 5, 6, 2, 4, 9, 1, 7, 6, 8,
        7, 3, 5, 2, 1, 4, 9, 4, 1, 9, 8, 7, 6, 3, 5, 2, 3, 5, 2, 4, 1, 9, 7, 8, 6, 1, 7, 8, 2,
        4, 3, 6, 9, 5, 5, 6, 3, 1, 9, 8, 2, 7, 4, 9, 2, 4, 7, 6, 5, 8, 3, 1,
    ];
    let board = Board {
        cells: invalid_cells,
    };
    let valid = board.validate();
    assert_eq!(valid, false, "Validator incorrect result");
}

const SOLVED: [u8; 81] = [
    7, 9, 6, 5, 8, 1, 4, 2, 3, 2, 4, 1, 9, 3, 7, 5, 6, 8, 8, 3, 5, 6, 2, 4, 9, 1, 7, 6, 8, 7, 3,
    5, 2, 1, 4, 9, 4, 1, 9, 8, 7, 6, 3, 5, 2, 3, 5, 2, 4, 1, 9, 7, 8, 6, 1, 7, 8, 2, 4, 3, 6, 9,
    5, 5, 6, 3, 1, 9, 8, 2, 7, 4, 9, 2, 4, 7, 6, 5, 8, 3, 1,
];

#[test]
fn validate_looks_at_every_column() {
    // exchange two cells of one row: the row stays complete, two columns break
    let mut cells = SOLVED;
    cells.swap(0, 1);
    assert!(!Board { cells }.validate());
    // exchange two cells of the last row that lie in one box: every row and
    // every box stays complete, and the first column too
    let mut cells = SOLVED;
    cells.swap(79, 80);
    assert!(!Board { cells }.validate());
    // exchange two whole rows of one band: rows and columns stay complete
    // and so do the boxes
    let mut cells = SOLVED;
    for c in 0..9 {
        cells.swap(c, 9 + c);
    }
    assert!(Board { cells }.validate());
}

#[test]
fn validate_rejects_a_broken_box() {
    // every row and column complete, boxes not
    let mut cells = [0u8; 81];
    for r in 0..9 {
        for c in 0..9 {
            cells[r * 9 + c] = ((r + c) % 9 + 1) as u8;
        }
    }
    assert!(!Board { cells }.validate());
}

#[test]
fn from_array_accepts_digits_and_empty() {
    let board = Board::from_array(SOLVED).unwrap();
    assert_eq!(board.cells, SOLVED);
    assert_eq!(Board::from_array([0; 81]).unwrap().cells, [0u8; 81]);
}

#[test]
fn from_array_rejects_ten() {
    let mut cells = SOLVED;
    cells[80] = 10;
    assert_eq!(Board::from_array(cells), Err(SudokuError::InvalidValue));
}

#[test]
fn box_cell_indices() {
    assert_eq!(get_cell_indices(&0), vec![0, 1, 2, 9, 10, 11, 18, 19, 20]);
    assert_eq!(get_cell_indices(&60), vec![60, 61, 62, 69, 70, 71, 78, 79, 80]);
    assert_eq!(get_cell_indices(&30), vec![30, 31, 32, 39, 40, 41, 48, 49, 50]);
}

#[test]
fn user_input_stops_at_the_first_overwritten_given() {
    let mut cells = [0u8; 81];
    cells[3] = 4;
    let mut board = Board { cells };
    let result = board.apply_user_input_to_board(vec![1, 2, 3, 5, 6]);
    assert_eq!(result, Err("user input is replacing a pre-defined hint."));
    let mut expected = [0u8; 81];
    expected[0] = 1;
    expected[1] = 2;
    expected[2] = 3;
    expected[3] = 4;
    assert_eq!(board.cells, expected);
}

#[test]
fn user_input_shorter_and_longer_than_the_board() {
    let mut board = Board { cells: [0; 81] };
    assert_eq!(board.apply_user_input_to_board(vec![9, 8]), Ok(true));
    assert_eq!(&board.cells[..3], &[9, 8, 0]);
    let mut board = Board { cells: [0; 81] };
    assert_eq!(board.apply_user_input_to_board(vec![7; 100]), Ok(true));
    assert_eq!(board.cells, [7u8; 81]);
    // a given may be repeated by the input
    let mut board = Board { cells: SOLVED };
    assert_eq!(board.apply_user_input_to_board(SOLVED.to_vec()), Ok(true));
    assert_eq!(board.cells, SOLVED);
}

#[test]
fn givens_are_listed_in_board_order() {
    let mut cells = [0u8; 81];
    cells[0] = 5;
    cells[10] = 3;
    cells[80] = 9;
    let givens = Board { cells }.givens();
    assert_eq!(
        givens,
        vec![
            RowInfo { row: 0, col: 0, val: 5 },
            RowInfo { row: 1, col: 1, val: 3 },
            RowInfo { row: 8, col: 8, val: 9 },
        ]
    );
}

#[test]
fn boards_from_seeds() {
    let easy = Board::from_seed(2200, None);
    let expected_easy: [u8; 81] = [
        9, 2, 0, 0, 3, 6, 8, 0, 0, 0, 0, 4, 0, 0, 8, 6, 0, 0, 0, 0, 8, 4, 0, 0, 0, 3, 0, 0, 7,
        1, 8, 0, 3, 5, 0, 6, 0, 5, 0, 0, 2, 1, 4, 8, 0, 0, 8, 0, 0, 0, 5, 2, 0, 3, 0, 1, 2, 5,
        0, 0, 3, 6, 8, 0, 9, 0, 0, 0, 0, 7, 5, 4, 3, 4, 5, 0, 8, 7, 0, 2, 0,
    ];
    assert_eq!(easy.cells, expected_easy);
    assert_eq!(Board::from_seed(2200, Some(Difficulty::Easy)).cells, expected_easy);
    let medium = Board::from_seed(666, Some(Difficulty::Medium));
    let expected_medium: [u8; 81] = [
        0, 5, 3, 0, 2, 1, 6, 9, 0, 1, 2, 4, 0, 6, 0, 0, 7, 0, 6, 0, 0, 4, 0, 0, 1, 2, 3, 2, 9,
        1, 5, 7, 3, 0, 4, 6, 0, 0, 7, 2, 0, 6, 9, 0, 0, 0, 3, 6, 0, 4, 8, 2, 1, 7, 0, 7, 0, 1,
        8, 0, 0, 0, 9, 0, 6, 5, 7, 9, 2, 0, 0, 1, 0, 1, 8, 6, 3, 4, 7, 0, 0,
    ];
    assert_eq!(medium.cells, expected_medium);
    let hard = Board::from_seed(1, Some(Difficulty::Hard));
    assert_eq!(hard.cells.iter().filter(|&&v| v == 0).count(), 23);
    assert_eq!(easy.cells.iter().filter(|&&v| v == 0).count(), 39);
    assert_eq!(medium.cells.iter().filter(|&&v| v == 0).count(), 30);
}

#[test]
fn user_solution_of_the_medium_board() {
    let mut board = Board::from_seed(666, Some(Difficulty::Medium));
    let user_input = vec![
        7, 5, 3, 8, 2, 1, 6, 9, 4, 1, 2, 4, 3, 6, 9, 5, 7, 8, 6, 8, 9, 4, 5, 7, 1, 2, 3, 2, 9, 1,
        5, 7, 3, 8, 4, 6, 8, 4, 7, 2, 1, 6, 9, 3, 5, 5, 3, 6, 9, 4, 8, 2, 1, 7, 3, 7, 2, 1, 8, 5,
        4, 6, 9, 4, 6, 5, 7, 9, 2, 3, 8, 1, 9, 1, 8, 6, 3, 4, 7, 5, 2,
    ];
    assert_eq!(board.apply_user_input_to_board(user_input), Ok(true));
    assert!(board.validate());
}
