use sudoku::board::Board;
use sudoku::error::SudokuError;
use sudoku::links::DancingLinks;
use sudoku::node::{Direction, Node, RowInfo};

fn built() -> DancingLinks {
    let mut dl = DancingLinks::new();
    dl.init_header_row();
    dl.init_constraint_matrix();
    dl
}

#[test]
fn test_remove_node_horizontally() {
    let mut dl = DancingLinks::new();
    let a = dl.new_node(None, false);
    let b = dl.new_node(None, false);
    let c = dl.new_node(None, false);
    dl.nodes[a].left = c;
    dl.nodes[a].right = b;
    dl.nodes[b].left = a;
    dl.nodes[b].right = c;
    dl.nodes[c].left = b;
    dl.nodes[c].right = a;

    dl.remove_from_neighbors(b, Direction::Right);
    assert!(dl.traverse(a, Direction::Right) == c);
    assert!(dl.traverse(c, Direction::Left) == a);
    // the removed node keeps its own links
    assert!(dl.traverse(b, Direction::Left) == a);
    assert!(dl.traverse(b, Direction::Right) == c);
    dl.restore_to_neighbors(b, Direction::Left);
    assert!(dl.traverse(a, Direction::Right) == b);
    assert!(dl.traverse(c, Direction::Left) == b);
}

#[test]
fn test_right_link() {
    let mut dl = DancingLinks::new();
    let a = dl.new_node(None, false);
    let b = dl.new_node(None, false);
    let c = dl.new_node(None, false);
    dl.link_right(a, b);
    dl.link_right(b, c);
    assert_eq!(dl.traverse(a, Direction::Right), b);
    assert_eq!(dl.traverse(b, Direction::Right), c);
    assert_eq!(dl.traverse(c, Direction::Right), a);
    assert_eq!(dl.traverse(a, Direction::Left), c);
    assert_eq!(dl.traverse(c, Direction::Left), b);
    assert_eq!(dl.traverse(b, Direction::Left), a);
    let d = dl.new_node(None, false);
    dl.link_left(a, d);
    assert_eq!(dl.traverse(c, Direction::Right), d);
    assert_eq!(dl.traverse(d, Direction::Right), a);
    assert_eq!(dl.traverse(a, Direction::Left), d);
    assert_eq!(dl.traverse(d, Direction::Left), c);
}

#[test]
fn test_down_link() {
    let mut dl = DancingLinks::new();
    let h = dl.new_header();
    let x = dl.new_node(None, false);
    let y = dl.new_node(None, false);
    dl.link_down(h, x);
    dl.link_down(x, y);
    assert_eq!(dl.traverse(h, Direction::Down), x);
    assert_eq!(dl.traverse(x, Direction::Down), y);
    assert_eq!(dl.traverse(y, Direction::Down), h);
    assert_eq!(dl.traverse(h, Direction::Up), y);
    assert_eq!(dl.traverse(y, Direction::Up), x);
    assert_eq!(dl.traverse(x, Direction::Up), h);
    let z = dl.new_node(None, false);
    dl.link_up(h, z);
    assert_eq!(dl.traverse(y, Direction::Down), z);
    assert_eq!(dl.traverse(z, Direction::Down), h);
    assert_eq!(dl.traverse(h, Direction::Up), z);
    assert_eq!(dl.traverse(z, Direction::Up), y);
}

#[test]
fn test_cover() {
    let mut dl = built();
    let before = dl.nodes.clone();

    let col_head = dl.traverse(0, Direction::Right);
    assert_eq!(col_head, 1);

    dl.cover(col_head);
    // the header is out of the header row
    assert_eq!(dl.traverse(0, Direction::Right), 2);
    assert_eq!(dl.traverse(2, Direction::Left), 0);
    assert!(!dl.is_in_header_row(col_head));
    // its own column is untouched
    assert_eq!(dl.get_size(col_head), 9);
    // the nine candidates of cell (0, 0) have left their other columns:
    // row 0 digit 1, column 0 digit 1, box 0 digit 1 each lose one row
    assert_eq!(dl.get_size(82), 8);
    assert_eq!(dl.get_size(163), 8);
    assert_eq!(dl.get_size(244), 8);
    // a column that shares no candidate with the cell keeps all of its rows
    assert_eq!(dl.get_size(324), 9);
    assert_eq!(dl.get_size(2), 9);
    dl.uncover(col_head);

    assert_eq!(dl.nodes, before);
}

#[test]
fn test_uncover() {
    let mut dl = built();
    let before = dl.nodes.clone();
    // nested covers, undone in reverse order
    dl.cover(1);
    let after_first = dl.nodes.clone();
    dl.cover(100);
    let after_second = dl.nodes.clone();
    dl.cover(200);
    dl.cover(324);
    dl.uncover(324);
    dl.uncover(200);
    assert_eq!(dl.nodes, after_second);
    dl.uncover(100);
    assert_eq!(dl.nodes, after_first);
    dl.uncover(1);
    assert_eq!(dl.nodes, before);
    for column in 1..=324 {
        dl.cover(column);
        assert_ne!(dl.nodes, before);
        dl.uncover(column);
        assert_eq!(dl.nodes, before);
    }
}

#[test]
fn test_node_ops() {
    let mut dl = DancingLinks::new();
    let node = dl.new_node(None, false);

    assert!(dl.get_size(node) == 0);
    dl.increment_size(node);

    assert!(dl.get_size(node) == 1);
    dl.decrement_size(node);
    assert!(dl.get_size(node) == 0);
    println!("{:?}", dl.nodes[node]);
    assert_eq!(dl.nodes[node], Node::new(node, None, false));
    assert_eq!(dl.get_column_header(node), node);
    dl.set_column_header(node, 0);
    assert_eq!(dl.get_column_header(node), 0);
    assert_eq!(Node::new_header(5), Node::new(5, None, true));
    assert_eq!(Node::new_header(5).traverse(Direction::Up), 5);
}

#[test]
fn create_constraint_matrix() {
    let mut dl = DancingLinks::new();
    dl.init_header_row();
    assert_eq!(dl.nodes.len(), 325);
    dl.init_constraint_matrix();
    assert_eq!(dl.nodes.len(), 3241);
    assert_eq!(dl.nodes, DancingLinks::build_matrix().nodes);
}

#[test]
fn verify_vertical_circular_invariant() {
    let mut iteration = 0;
    let mut rows = 0;

    let dl = built();

    let mut header_row = dl.traverse(0, Direction::Right);
    while header_row != 0 {
        rows += 1;
        let mut current = dl.traverse(header_row, Direction::Down);
        while header_row != current {
            iteration += 1;
            if iteration == 10000 {
                panic!("Vertical links hit iteration limit.");
            }
            assert_eq!(dl.get_column_header(current), header_row);
            let next = dl.traverse(current, Direction::Down);
            assert_eq!(dl.traverse(next, Direction::Up), current);
            current = next;
        }

        assert!(iteration == 9);
        iteration = 0;
        header_row = dl.traverse(header_row, Direction::Right);
    }
    println!("total rows: {}", rows);
    assert_eq!(rows, 324);
}

#[test]
fn verify_header_circular_invariant() {
    let dl = built();

    let header = 0;
    let mut current = header;
    // Should have 81 * 4 column headers
    // they should all have size 9
    // test navigating right
    for _ in 0..=324 {
        current = dl.traverse(current, Direction::Right);
    }

    assert!(header == current);
    // test navigating left

    for _ in 0..=324 {
        current = dl.traverse(current, Direction::Left);
    }
    assert!(header == current);
    // no earlier return to the root
    for _ in 0..324 {
        current = dl.traverse(current, Direction::Right);
        assert!(header != current);
    }
}

#[test]
fn test_init_sizes() {
    // want to verify that all columns have size 9 on init
    let dl = built();

    let header = 0;
    let mut current = dl.traverse(header, Direction::Right);
    let mut seen = 0;
    while header != current {
        assert!(dl.get_size(current) == 9);
        current = dl.traverse(current, Direction::Right);
        seen += 1;
    }
    assert_eq!(seen, 324);
}

#[test]
fn test_constraint_matrix_conversion() {
    let valid_cells: [u8; 81] = [
        7, 0, 6, 5, 8, 0, 0, 0, 0, 2, 4, 1, 0, 0, 0, 0, 0, 8, 8, 3, 5, 6, 2, 4, 9, 1, 7, 6, 8,
        7, 3, 5, 2, 1, 4, 9, 0, 0, 9, 8, 7, 0, 0, 0, 0, 0, 5, 2, 4, 1, 9, 7, 8, 6, 1, 7, 8, 2,
        4, 3, 6, 9, 5, 5, 6, 0, 0, 9, 8, 2, 0, 0, 0, 0, 0, 7, 6, 5, 8, 3, 1,
    ];
    let board = Board { cells: valid_cells };
    let mut dl = DancingLinks::new();
    dl.init_header_row();
    dl.init_constraint_matrix();
    let partial = dl.seed_with_givens(&board).unwrap();
    assert_eq!(partial.len(), 57);
    assert_eq!(dl.to_sudoku_board(&partial).cells, valid_cells);
    let full = dl.search(&mut partial.clone()).unwrap();
    let solved = dl.to_sudoku_board(&full);
    let expected: [u8; 81] = [
        7, 9, 6, 5, 8, 1, 4, 2, 3, 2, 4, 1, 9, 3, 7, 5, 6, 8, 8, 3, 5, 6, 2, 4, 9, 1, 7, 6, 8,
        7, 3, 5, 2, 1, 4, 9, 4, 1, 9, 8, 7, 6, 3, 5, 2, 3, 5, 2, 4, 1, 9, 7, 8, 6, 1, 7, 8, 2,
        4, 3, 6, 9, 5, 5, 6, 3, 1, 9, 8, 2, 7, 4, 9, 2, 4, 7, 6, 5, 8, 3, 1,
    ];
    assert_eq!(solved.cells, expected);
}

#[test]
fn test_basic_circular_link() {
    let mut dl = DancingLinks::new();
    let node_a = dl.new_node(None, false);
    let node_b = dl.new_node(None, false);
    let node_c = dl.new_node(None, false);

    dl.nodes[node_a].right = node_c;
    dl.nodes[node_c].left = node_a;

    // test the link
    dl.link_right(node_a, node_b);
    assert_eq!(dl.traverse(node_a, Direction::Right), node_b);
    assert_eq!(dl.traverse(node_b, Direction::Right), node_c);
    assert_eq!(dl.traverse(node_c, Direction::Left), node_b);
    assert_eq!(dl.traverse(node_b, Direction::Left), node_a);
}

#[test]
fn test_row_circular() {
    let mut dl = built();

    let res = dl.solve().unwrap();
    assert_eq!(res.len(), 81);
    let board = dl.to_sudoku_board(&res);
    println!("{:?}", board);
    assert!(board.validate());
    // every data row is a circle of four
    let fresh = built();
    for p in 0..729 {
        let first = 325 + 4 * p;
        let mut current = first;
        for _ in 0..4 {
            let next = fresh.traverse(current, Direction::Right);
            assert_eq!(fresh.traverse(next, Direction::Left), current);
            assert_eq!(
                fresh.nodes[next].row_info,
                Some(RowInfo { row: p / 81, col: (p / 9) % 9, val: p % 9 + 1 })
            );
            current = next;
        }
        assert_eq!(current, first);
    }
}

#[test]
fn solving_the_empty_board_twice_gives_one_grid() {
    let mut first = built();
    let mut second = built();
    let a = first.solve().unwrap();
    let b = second.solve().unwrap();
    assert_eq!(a, b);
    let grid = first.to_sudoku_board(&a);
    assert!(grid.validate());
    let expected: [u8; 81] = [
        1, 2, 3, 4, 5, 6, 7, 8, 9, 7, 8, 9, 1, 2, 3, 4, 5, 6, 4, 5, 6, 7, 8, 9, 1, 2, 3, 3, 1,
        2, 8, 4, 5, 9, 6, 7, 6, 9, 7, 3, 1, 2, 8, 4, 5, 8, 4, 5, 6, 9, 7, 3, 1, 2, 2, 3, 1, 5,
        7, 4, 6, 9, 8, 9, 6, 8, 2, 3, 1, 5, 7, 4, 5, 7, 4, 9, 6, 8, 2, 3, 1,
    ];
    assert_eq!(grid.cells, expected);
    assert_eq!(second.to_sudoku_board(&b).cells, expected);
}

#[test]
fn first_row_of_seed_one_is_kept_and_completed() {
    let mut cells = [0u8; 81];
    cells[..9].copy_from_slice(&[3, 5, 8, 9, 4, 6, 7, 2, 1]);
    let board = Board { cells };
    let mut dl = DancingLinks::build_matrix();
    let sol = dl.solve_with_partial(&board).unwrap();
    let solved = dl.to_sudoku_board(&sol);
    let expected: [u8; 81] = [
        3, 5, 8, 9, 4, 6, 7, 2, 1, 1, 2, 4, 5, 7, 8, 3, 6, 9, 6, 7, 9, 1, 2, 3, 4, 5, 8, 2, 8,
        1, 6, 9, 4, 5, 7, 3, 7, 9, 6, 2, 3, 5, 1, 8, 4, 4, 3, 5, 8, 1, 7, 2, 9, 6, 9, 6, 2, 3,
        5, 1, 8, 4, 7, 8, 1, 7, 4, 6, 2, 9, 3, 5, 5, 4, 3, 7, 8, 9, 6, 1, 2,
    ];
    assert_eq!(solved.cells, expected);
    assert!(solved.validate());
}

#[test]
fn thirty_givens_reproduce_the_known_board() {
    let givens: [u8; 81] = [
        5, 3, 0, 0, 7, 0, 0, 0, 0, 6, 0, 0, 1, 9, 5, 0, 0, 0, 0, 9, 8, 0, 0, 0, 0, 6, 0, 8, 0,
        0, 0, 6, 0, 0, 0, 3, 4, 0, 0, 8, 0, 3, 0, 0, 1, 7, 0, 0, 0, 2, 0, 0, 0, 6, 0, 6, 0, 0,
        0, 0, 2, 8, 0, 0, 0, 0, 4, 1, 9, 0, 0, 5, 0, 0, 0, 0, 8, 0, 0, 7, 9,
    ];
    assert_eq!(givens.iter().filter(|&&v| v != 0).count(), 30);
    let known: [u8; 81] = [
        5, 3, 4, 6, 7, 8, 9, 1, 2, 6, 7, 2, 1, 9, 5, 3, 4, 8, 1, 9, 8, 3, 4, 2, 5, 6, 7, 8, 5,
        9, 7, 6, 1, 4, 2, 3, 4, 2, 6, 8, 5, 3, 7, 9, 1, 7, 1, 3, 9, 2, 4, 8, 5, 6, 9, 6, 1, 5,
        3, 7, 2, 8, 4, 2, 8, 7, 4, 1, 9, 6, 3, 5, 3, 4, 5, 2, 8, 6, 1, 7, 9,
    ];
    let mut dl = DancingLinks::build_matrix();
    let sol = dl.solve_with_partial(&Board { cells: givens }).unwrap();
    assert_eq!(sol.len(), 81);
    assert_eq!(dl.to_sudoku_board(&sol).cells, known);
}

#[test]
fn two_values_in_one_cell_conflict() {
    let mut dl = DancingLinks::build_matrix();
    let givens = vec![
        RowInfo { row: 0, col: 0, val: 1 },
        RowInfo { row: 0, col: 0, val: 2 },
    ];
    assert_eq!(
        dl.seed_with_placements(&givens),
        Err(SudokuError::ConflictingClues)
    );
    // the first given stays committed, the second is not
    let mut expected = DancingLinks::build_matrix();
    assert_eq!(expected.commit(RowInfo { row: 0, col: 0, val: 1 }), Some(325));
    assert_eq!(dl.nodes, expected.nodes);
}

#[test]
fn givens_that_share_a_unit_conflict() {
    // a digit twice in a row
    let mut cells = [0u8; 81];
    cells[0] = 4;
    cells[8] = 4;
    let mut dl = DancingLinks::build_matrix();
    assert_eq!(
        dl.solve_with_partial(&Board { cells }),
        Err(SudokuError::ConflictingClues)
    );
    // a digit twice in a column
    let mut cells = [0u8; 81];
    cells[1] = 4;
    cells[73] = 4;
    let mut dl = DancingLinks::build_matrix();
    assert_eq!(
        dl.seed_with_givens(&Board { cells }),
        Err(SudokuError::ConflictingClues)
    );
    // a digit twice in a box
    let mut cells = [0u8; 81];
    cells[0] = 4;
    cells[20] = 4;
    let mut dl = DancingLinks::build_matrix();
    assert_eq!(
        dl.seed_with_givens(&Board { cells }),
        Err(SudokuError::ConflictingClues)
    );
    // the same digit in different units does not conflict
    let mut cells = [0u8; 81];
    cells[0] = 4;
    cells[40] = 4;
    let mut dl = DancingLinks::build_matrix();
    assert_eq!(dl.seed_with_givens(&Board { cells }), Ok(vec![325 + 4 * 3, 325 + 4 * (40 * 9 + 3)]));
}

#[test]
fn a_cell_above_nine_is_an_invalid_value() {
    let mut cells = [0u8; 81];
    cells[0] = 4;
    cells[5] = 10;
    let mut dl = DancingLinks::build_matrix();
    let before = dl.nodes.clone();
    assert_eq!(
        dl.solve_with_partial(&Board { cells }),
        Err(SudokuError::InvalidValue)
    );
    assert_eq!(dl.nodes, before);
    let givens = vec![RowInfo { row: 9, col: 0, val: 1 }];
    assert_eq!(dl.seed_with_placements(&givens), Err(SudokuError::InvalidValue));
    let givens = vec![RowInfo { row: 0, col: 0, val: 0 }];
    assert_eq!(dl.seed_with_placements(&givens), Err(SudokuError::InvalidValue));
}

#[test]
fn givens_without_a_completion_are_infeasible() {
    // row 0 holds 1 to 8, and the 9 of column 8 stands below: no digit is
    // left for the last cell of row 0
    let mut cells = [0u8; 81];
    for c in 0..8 {
        cells[c] = (c + 1) as u8;
    }
    cells[17] = 9;
    let mut dl = DancingLinks::build_matrix();
    let mut seeded = DancingLinks::build_matrix();
    let partial = seeded.seed_with_givens(&Board { cells }).unwrap();
    assert_eq!(partial.len(), 9);
    assert_eq!(
        dl.solve_with_partial(&Board { cells }),
        Err(SudokuError::Infeasible)
    );
    // the failed search leaves the matrix as the seeding left it
    assert_eq!(dl.nodes, seeded.nodes);
    let mut solution = partial.clone();
    assert_eq!(seeded.search(&mut solution), Err(SudokuError::Infeasible));
    assert_eq!(solution, partial);
    assert_eq!(dl.nodes, seeded.nodes);
}

#[test]
fn commit_covers_the_four_columns_of_a_placement() {
    let mut dl = DancingLinks::build_matrix();
    // digit 5 at row 4, column 7: placement (4 * 9 + 7) * 9 + 4
    let node = dl.commit(RowInfo { row: 4, col: 7, val: 5 }).unwrap();
    assert_eq!(node, 325 + 4 * ((4 * 9 + 7) * 9 + 4));
    let cell = 1 + 4 * 9 + 7;
    let row = 1 + 81 + 4 * 9 + 4;
    let col = 1 + 162 + 7 * 9 + 4;
    let bx = 1 + 243 + (3 + 2) * 9 + 4;
    for h in 1..=324 {
        assert_eq!(dl.is_in_header_row(h), ![cell, row, col, bx].contains(&h));
    }
    assert_eq!(dl.nodes[node].row_info, Some(RowInfo { row: 4, col: 7, val: 5 }));
    // a second commit of a placement that shares a column does nothing
    let before = dl.nodes.clone();
    assert_eq!(dl.commit(RowInfo { row: 4, col: 0, val: 5 }), None);
    assert_eq!(dl.nodes, before);
}

#[test]
fn choose_column_takes_the_leftmost_smallest() {
    let mut dl = DancingLinks::build_matrix();
    // all columns hold nine rows: the first is taken
    assert_eq!(dl.choose_column(), Some(1));
    // with digit 1 at (0, 0), a cell of its units keeps eight candidates,
    // but digit 1 has only six cells left in row 1: column 0 and box 0
    // are closed to it
    dl.commit(RowInfo { row: 0, col: 0, val: 1 }).unwrap();
    assert_eq!(dl.get_size(2), 8);
    assert_eq!(dl.get_size(1 + 81 + 9), 6);
    assert_eq!(dl.get_size(1 + 81 + 18), 6);
    assert_eq!(dl.choose_column(), Some(1 + 81 + 9));
    dl.commit(RowInfo { row: 0, col: 2, val: 2 }).unwrap();
    assert_eq!(dl.get_size(2), 7);
    assert_eq!(dl.choose_column(), Some(1 + 81 + 9));
}

#[test]
fn choose_column_reports_a_column_without_rows() {
    let mut cells = [0u8; 81];
    for c in 0..8 {
        cells[c] = (c + 1) as u8;
    }
    cells[17] = 9;
    let mut dl = DancingLinks::build_matrix();
    dl.seed_with_givens(&Board { cells }).unwrap();
    assert_eq!(dl.get_size(9), 0);
    assert_eq!(dl.choose_column(), None);
}

#[test]
fn decoding_writes_each_row_into_its_cell() {
    let dl = DancingLinks::build_matrix();
    let none: Vec<usize> = Vec::new();
    assert_eq!(dl.to_sudoku_board(&none).cells, [0u8; 81]);
    // any node of a row stands for the row
    let p = (8 * 9 + 8) * 9 + 6;
    for f in 0..4 {
        let board = dl.to_sudoku_board(&vec![325 + 4 * p + f, 325]);
        let mut expected = [0u8; 81];
        expected[80] = 7;
        expected[0] = 1;
        assert_eq!(board.cells, expected);
    }
}
