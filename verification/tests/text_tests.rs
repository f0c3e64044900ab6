use sudoku::board::Board;
use sudoku::links::DancingLinks;
use sudoku::node::{Direction, RowInfo};
use sudoku::text::{decimal, digit_str, name_of_column};

#[test]
fn test_dl_print() {
    let mut dl = DancingLinks::new();
    dl.init_header_row();
    dl.init_constraint_matrix();
    let text = dl.to_text();
    assert!(text.starts_with("DancingLinks [\n  Header Row: h R1C1 R1C2 R1C3 "));
    assert!(text.contains(" R9C9 R1#1 "));
    assert!(text.contains(" R9#9 C1#1 "));
    assert!(text.contains(" C9#9 B1#1 "));
    assert!(text.contains(" B9#8 B9#9 \n  Column Sizes:\n    h: Some(0)\n    R1C1: Some(9)\n"));
    assert!(text.ends_with("    B9#9: Some(9)\n]"));
    assert_eq!(text.lines().count(), 4 + 325);

    let node = dl.get_col(&"C7#6".to_string()).unwrap();
    dl.cover(node);
    let covered = dl.to_text();
    assert!(!covered.contains("C7#6"));
    assert!(covered.contains("    R1C7: Some(8)\n"));
    assert!(covered.contains("    R1C1: Some(9)\n"));
    assert_eq!(covered.lines().count(), 4 + 324);
    dl.uncover(node);
    assert_eq!(dl.to_text(), text);
}

#[test]
fn test_cover_method() {
    let mut dl = DancingLinks::new();
    dl.init_header_row();
    dl.init_constraint_matrix();
    let node = dl.get_col(&"C7#6".to_string()).unwrap();
    assert_eq!(node, 1 + 162 + 6 * 9 + 5);
    assert!(dl.verify_column_is_circular(&"C7#6".to_string()).unwrap());
    dl.cover(node);
    assert!(!dl.is_in_header_row(node));
    assert_eq!(dl.get_col(&"C7#6".to_string()), Err("Header is not circular"));
    assert_eq!(
        dl.verify_column_is_circular(&"C7#6".to_string()),
        Err("Header is not circular")
    );
    // digit 6 has left the candidates of every cell of column 7
    for r in 0..9 {
        let cell = 1 + r * 9 + 6;
        assert_eq!(dl.get_size(cell), 8);
    }
    assert_eq!(dl.get_size(1), 9);
}

#[test]
fn column_names() {
    assert_eq!(name_of_column(0), "h");
    assert_eq!(name_of_column(1), "R1C1");
    assert_eq!(name_of_column(81), "R9C9");
    assert_eq!(name_of_column(82), "R1#1");
    assert_eq!(name_of_column(162), "R9#9");
    assert_eq!(name_of_column(163), "C1#1");
    assert_eq!(name_of_column(243), "C9#9");
    assert_eq!(name_of_column(244), "B1#1");
    assert_eq!(name_of_column(324), "B9#9");
    assert_eq!(name_of_column(1 + 3 * 9 + 4), "R4C5");
    let dl = DancingLinks::build_matrix();
    for h in 1usize..=324 {
        assert_eq!(dl.get_col(&name_of_column(h)), Ok(h));
    }
    assert_eq!(dl.get_col(&"h".to_string()), Err("Header is not circular"));
    assert_eq!(dl.get_col(&"R0C1".to_string()), Err("Header is not circular"));
    assert_eq!(dl.get_col(&"".to_string()), Err("Header is not circular"));
}

#[test]
fn decimal_text() {
    assert_eq!(decimal(0), "0");
    assert_eq!(decimal(7), "7");
    assert_eq!(decimal(10), "10");
    assert_eq!(decimal(255), "255");
    assert_eq!(decimal(3240), "3240");
    assert_eq!(decimal(usize::MAX), usize::MAX.to_string());
    for d in 0..10usize {
        assert_eq!(digit_str(d), d.to_string());
    }
}

#[test]
fn column_info_line() {
    let dl = DancingLinks::build_matrix();
    assert_eq!(dl.debug_column_info(1), "Column [R1C1] Size: 9 Header: true");
    assert_eq!(dl.debug_column_info(0), "Column [h] Size: 0 Header: true");
    assert_eq!(dl.debug_column_info(325), "Column [unnamed] Size: 0 Header: false");
}

#[test]
fn node_text() {
    let dl = DancingLinks::build_matrix();
    assert_eq!(
        dl.node_to_text(1),
        "Node [R1C1]Links [Up: <unnamed>, Down: <unnamed>, Left: h, Right: R1C2, Size: Ok(9)]"
    );
    // the first candidate: digit 1 at (0, 0), first of its cell column
    assert_eq!(
        dl.node_to_text(325),
        "Node [<unnamed>]Links [Up: R1C1, Down: <unnamed>, Left: <unnamed>, Right: <unnamed>Row: 0, Col: 0, Val: 1]"
    );
    assert_eq!(dl.traverse(325, Direction::Up), 1);
    assert_eq!(dl.nodes[325].row_info, Some(RowInfo { row: 0, col: 0, val: 1 }));
}

#[test]
fn board_text() {
    let mut cells = [0u8; 81];
    cells[0] = 5;
    cells[80] = 9;
    cells[9] = 12;
    let text = Board { cells }.to_text();
    let rule = "-------------------------------------\n";
    let mut expected = String::from("\r\n");
    expected.push_str(rule);
    for r in 0..9 {
        for c in 0..9 {
            expected.push_str(&format!("| {} ", cells[r * 9 + c]));
        }
        expected.push_str("| \r\n");
        expected.push_str(rule);
    }
    assert_eq!(text, expected);
    assert!(text.starts_with("\r\n-------------------------------------\n| 5 | 0 | 0 "));
    assert!(text.contains("\n| 12 | 0 "));
}

#[test]
fn circular_lists() {
    let mut dl = DancingLinks::build_matrix();
    assert!(dl.verify_header_row_is_circular());
    for h in 1..=324 {
        assert!(dl.is_circular_from(h, Direction::Down));
        assert!(dl.is_circular_from(h, Direction::Up));
    }
    assert!(dl.is_circular_from(0, Direction::Left));
    assert!(dl.is_circular_from(325, Direction::Right));
    // a link that its neighbour does not return breaks the circle
    dl.nodes[5].left = 3;
    assert!(!dl.verify_header_row_is_circular());
    dl.nodes[5].left = 4;
    assert!(dl.verify_header_row_is_circular());
    // a list that never comes back to its head is no circle
    dl.nodes[324].right = 300;
    dl.nodes[300].left = 324;
    assert!(!dl.verify_header_row_is_circular());
    // a node alone is a circle
    let mut small = DancingLinks::new();
    assert!(small.verify_header_row_is_circular());
    let a = small.new_node(None, false);
    small.link_right(0, a);
    assert!(small.verify_header_row_is_circular());
    small.nodes[a].right = a;
    assert!(!small.verify_header_row_is_circular());
}
