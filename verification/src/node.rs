//! The cell of the sparse matrix: a node of two circular doubly-linked
//! lists, one along its row and one along its column.

use vstd::prelude::*;

verus! {

/// The candidate that a data node's row stands for: digit `val` (`1..=9`)
/// at row `row`, column `col` (`0..9`).
#[derive(Debug, Clone, Copy, PartialEq, Eq)]
pub struct RowInfo {
    pub row: usize,
    pub col: usize,
    pub val: usize,
}

/// The four ways along the links of a node.
#[derive(Copy, Clone)]
pub enum Direction {
    Left,
    Right,
    Up,
    Down,
}

/// A node of the matrix. Its links are indices into the store that holds
/// it; a node that is alone in a list links to itself.
#[derive(Debug, Clone, Copy, PartialEq, Eq)]
pub struct Node {
    /// The header of the column this node belongs to (a header names itself).
    pub column_header: usize,
    pub up: usize,
    pub down: usize,
    pub left: usize,
    pub right: usize,
    /// For a header, the number of data nodes linked into its column.
    pub size: usize,
    /// The candidate of the row; `None` on headers.
    pub row_info: Option<RowInfo>,
    pub is_header: bool,
}

impl Node {
    /// The neighbour of this node in `direction`.
    pub open spec fn neighbour(self, direction: Direction) -> usize {
        match direction {
            Direction::Left => self.left,
            Direction::Right => self.right,
            Direction::Up => self.up,
            Direction::Down => self.down,
        }
    }

    /// A node that is to sit at `index`, circular on its own in all four
    /// directions, its own column header, with size 0.
    pub open spec fn alone(index: usize, row_info: Option<RowInfo>, is_header: bool) -> Node {
        Node {
            column_header: index,
            up: index,
            down: index,
            left: index,
            right: index,
            size: 0,
            row_info,
            is_header,
        }
    }

    /// A node that is to sit at `index`, circular on its own.
    pub fn new(index: usize, row_info: Option<RowInfo>, is_header: bool) -> (node: Node)
        ensures
            node == Node::alone(index, row_info, is_header),
    {
        Node {
            column_header: index,
            up: index,
            down: index,
            left: index,
            right: index,
            size: 0,
            row_info,
            is_header,
        }
    }

    /// A column header that is to sit at `index`.
    pub fn new_header(index: usize) -> (node: Node)
        ensures
            node == Node::alone(index, None, true),
    {
        Node::new(index, None, true)
    }

    /// The neighbour of this node in `direction`.
    pub fn traverse(&self, direction: Direction) -> (next: usize)
        ensures
            next == self.neighbour(direction),
    {
        match direction {
            Direction::Left => self.left,
            Direction::Right => self.right,
            Direction::Up => self.up,
            Direction::Down => self.down,
        }
    }
}

} // verus!
