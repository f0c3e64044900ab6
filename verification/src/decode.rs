//! From a solution, a sequence of chosen rows, back to the grid.

use crate::board::{holds_once, is_valid_grid, unit_cell, Board};
use crate::exact::{all_columns, apart, is_exact_cover, rows_of};
use crate::layout::{
    is_data, is_placement, lemma_cell_header, lemma_column_of, lemma_coordinates, lemma_data_node,
    lemma_meets, lemma_unit_cell, lemma_unit_header, lemma_unit_position, meets, row_of,
    unit_header, unit_position,
};
use crate::links::DancingLinks;
use crate::matrix::well_formed;
use crate::search::is_solution;
use vstd::prelude::*;

verus! {

/// The grid after the first `n` placements of `rows` are written into an
/// empty grid, in order: a placement writes its digit into its cell.
pub open spec fn grid_of(rows: Seq<int>, n: int) -> Seq<u8>
    decreases n,
{
    if n <= 0 {
        Seq::new(81, |i: int| 0u8)
    } else {
        grid_of(rows, n - 1).update(rows[n - 1] / 9, (rows[n - 1] % 9 + 1) as u8)
    }
}

/// The grid that the rows of the nodes `solution` spell out.
pub open spec fn decoded(solution: Seq<usize>) -> Seq<u8> {
    grid_of(rows_of(solution), solution.len() as int)
}

/// A cell of the grid holds the digit of the last placement written to it,
/// and stays empty if none was.
pub proof fn lemma_grid_of(rows: Seq<int>, n: int, i: int)
    requires
        0 <= n <= rows.len(),
        forall|k: int| 0 <= k < n ==> is_placement(#[trigger] rows[k]),
        0 <= i < 81,
    ensures
        grid_of(rows, n).len() == 81,
        (forall|k: int| 0 <= k < n ==> (#[trigger] rows[k]) / 9 != i) ==> grid_of(rows, n)[i] == 0,
        forall|k: int|
            0 <= k < n && (#[trigger] rows[k]) / 9 == i && (forall|j: int|
                k < j < n ==> (#[trigger] rows[j]) / 9 != i) ==> grid_of(rows, n)[i] == rows[k] % 9
                + 1,
    decreases n,
{
    if n > 0 {
        lemma_grid_of(rows, n - 1, i);
        let last = rows[n - 1];
        lemma_coordinates(last);
        assert forall|k: int|
            0 <= k < n && (#[trigger] rows[k]) / 9 == i && (forall|j: int|
                k < j < n ==> (#[trigger] rows[j]) / 9 != i) implies grid_of(rows, n)[i] == rows[k]
            % 9 + 1 by {}
    }
}

/// In an exact cover of the whole matrix no two rows share a cell, and
/// every cell, and every digit of every unit, has its row.
proof fn lemma_cover_cells(rows: Seq<int>, j: int, k: int)
    requires
        is_exact_cover(rows, all_columns()),
        0 <= j < rows.len(),
        0 <= k < rows.len(),
        j != k,
    ensures
        rows[j] / 9 != rows[k] / 9,
{
    let p = rows[j];
    let q = rows[k];
    if j < k {
        assert(apart(rows[j], rows[k]));
    } else {
        assert(apart(rows[k], rows[j]));
    }
    if p / 9 == q / 9 {
        lemma_cell_header(p, p / 9);
        lemma_cell_header(q, p / 9);
        lemma_meets(p, 1 + p / 9);
        lemma_meets(q, 1 + p / 9);
        lemma_column_of(p, 0);
        lemma_column_of(q, 0);
    }
}

/// The grid of an exact cover of the whole matrix holds, in the cell of
/// each of its rows, the digit of that row.
proof fn lemma_cover_grid(rows: Seq<int>, k: int)
    requires
        is_exact_cover(rows, all_columns()),
        0 <= k < rows.len(),
    ensures
        0 <= rows[k] / 9 < 81,
        grid_of(rows, rows.len() as int)[rows[k] / 9] == rows[k] % 9 + 1,
{
    let i = rows[k] / 9;
    lemma_coordinates(rows[k]);
    lemma_grid_of(rows, rows.len() as int, i);
    assert forall|j: int| k < j < rows.len() implies (#[trigger] rows[j]) / 9 != i by {
        lemma_cover_cells(rows, j, k);
    }
}

/// The grid of an exact cover of the whole matrix is a completed, valid
/// Sudoku: every row, column and box holds each digit exactly once.
pub proof fn lemma_cover_is_valid_grid(rows: Seq<int>)
    requires
        is_exact_cover(rows, all_columns()),
    ensures
        is_valid_grid(grid_of(rows, rows.len() as int)),
{
    let n = rows.len() as int;
    let g = grid_of(rows, n);
    lemma_grid_of(rows, n, 0);
    assert forall|u: int, v: int| 0 <= u < 27 && 1 <= v <= 9 implies #[trigger] holds_once(
        g,
        u,
        v,
    ) by {
        let h = unit_header(u, v);
        assert(all_columns().contains(h));
        let k = choose|k: int| 0 <= k < rows.len() && #[trigger] meets(rows[k], h);
        let p = rows[k];
        lemma_unit_header(p, u, v);
        lemma_coordinates(p);
        lemma_cover_grid(rows, k);
        let i = p / 9;
        lemma_unit_position(u, i);
        let w = unit_position(u, i);
        assert forall|j: int| 0 <= j < 9 && j != w implies g[#[trigger] unit_cell(u, j)] != v by {
            let i2 = unit_cell(u, j);
            lemma_unit_cell(u, j);
            assert(all_columns().contains(1 + i2));
            let k2 = choose|k2: int| 0 <= k2 < rows.len() && #[trigger] meets(rows[k2], 1 + i2);
            let q = rows[k2];
            lemma_cell_header(q, i2);
            lemma_cover_grid(rows, k2);
            if g[i2] == v {
                lemma_unit_header(q, u, v);
                lemma_meets(p, h);
                lemma_meets(q, h);
                if k < k2 {
                    assert(apart(rows[k], rows[k2]));
                } else {
                    assert(apart(rows[k2], rows[k]));
                }
            }
        }
    }
}

/// The grid decoded from a solution holds, in the cell of each of its
/// rows, the digit of that row.
pub proof fn lemma_solution_cell(solution: Seq<usize>, k: int)
    requires
        is_solution(solution),
        0 <= k < solution.len(),
    ensures
        0 <= rows_of(solution)[k] / 9 < 81,
        decoded(solution)[rows_of(solution)[k] / 9] == rows_of(solution)[k] % 9 + 1,
        decoded(solution).len() == 81,
{
    lemma_cover_grid(rows_of(solution), k);
    lemma_grid_of(rows_of(solution), solution.len() as int, 0);
}

/// The grid decoded from a solution is a completed, valid Sudoku.
pub proof fn lemma_solution_is_valid(solution: Seq<usize>)
    requires
        is_solution(solution),
    ensures
        is_valid_grid(decoded(solution)),
{
    lemma_cover_is_valid_grid(rows_of(solution));
}

impl DancingLinks {
    /// The grid that `solution` spells out: each of its nodes writes the
    /// digit of its row into the cell of its row; other cells stay empty.
    pub fn to_sudoku_board(&self, solution: &Vec<usize>) -> (board: Board)
        requires
            well_formed(self@),
            forall|i: int| 0 <= i < solution.len() ==> is_data(#[trigger] solution[i] as int),
        ensures
            board.cells@ == decoded(solution@),
    {
        let mut cells: [u8; 81] = [0;81];
        let mut n: usize = 0;
        while n < solution.len()
            invariant
                0 <= n <= solution.len(),
                well_formed(self@),
                forall|i: int| 0 <= i < solution.len() ==> is_data(#[trigger] solution[i] as int),
                cells@ == grid_of(rows_of(solution@), n as int),
            decreases solution.len() - n,
        {
            let x = solution[n];
            proof {
                reveal(well_formed);
                lemma_data_node(x as int);
                lemma_coordinates(row_of(x as int));
            }
            let info = self.nodes[x].row_info.unwrap();
            cells[info.row * 9 + info.col] = info.val as u8;
            n += 1;
        }
        Board { cells }
    }
}

} // verus!
