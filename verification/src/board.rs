//! The 9x9 board: 81 cells in row-major order, 0 for an empty cell.

use crate::error::SudokuError;
use crate::node::RowInfo;
use vstd::prelude::*;

verus! {

/// How many cells of a generated puzzle are emptied.
pub enum Difficulty {
    Easy,
    Medium,
    Hard,
}

/// A 9x9 grid of cells; a puzzle while some are empty.
#[derive(Debug, Clone, PartialEq, Eq)]
pub struct Board {
    /// Row-wise: index `i` is the cell at row `i / 9`, column `i % 9`.
    pub cells: [u8; 81],
}

/// The index of the `k`-th cell of unit `u`: the units `0..9` are the rows,
/// `9..18` the columns and `18..27` the 3x3 boxes of the board.
pub open spec fn unit_cell(u: int, k: int) -> int {
    if u < 9 {
        u * 9 + k
    } else if u < 18 {
        k * 9 + (u - 9)
    } else {
        box_start(u - 18) + (k / 3) * 9 + k % 3
    }
}

/// The index of the top left cell of box `b`.
pub open spec fn box_start(b: int) -> int {
    (b / 3) * 27 + (b % 3) * 3
}

/// Unit `u` of `cells` holds the value `v` in exactly one of its cells.
pub open spec fn holds_once(cells: Seq<u8>, u: int, v: int) -> bool {
    exists|k: int|
        0 <= k < 9 && cells[#[trigger] unit_cell(u, k)] == v && forall|j: int|
            0 <= j < 9 && j != k ==> cells[#[trigger] unit_cell(u, j)] != v
}

/// Every row, every column and every box of `cells` holds each of the
/// digits 1 to 9 exactly once.
pub open spec fn is_valid_grid(cells: Seq<u8>) -> bool {
    &&& cells.len() == 81
    &&& forall|u: int, v: int| 0 <= u < 27 && 1 <= v <= 9 ==> #[trigger] holds_once(cells, u, v)
}

/// The first cell at which `input` would replace a different given of
/// `cells`, if it is below `n`; else `n`.
pub open spec fn first_overwrite(cells: Seq<u8>, input: Seq<u8>, n: int) -> int
    decreases n,
{
    if n <= 0 {
        0
    } else {
        let before = first_overwrite(cells, input, n - 1);
        if before < n - 1 {
            before
        } else if cells[n - 1] != 0 && input[n - 1] != cells[n - 1] {
            n - 1
        } else {
            n
        }
    }
}

/// How far an input reaches into the board.
pub open spec fn reach(input: Seq<u8>) -> int {
    if input.len() < 81 {
        input.len() as int
    } else {
        81
    }
}

/// Where writing `input` over `cells` stops: at the first given that it
/// would replace by something else, or where the input or the board ends.
pub open spec fn overwrite_stop(cells: Seq<u8>, input: Seq<u8>) -> int {
    first_overwrite(cells, input, reach(input))
}

/// The non-empty cells among the first `n` of `cells`, in order, each as
/// the candidate it stands for.
pub open spec fn givens_of(cells: Seq<u8>, n: int) -> Seq<RowInfo>
    decreases n,
{
    if n <= 0 {
        Seq::empty()
    } else if cells[n - 1] == 0 {
        givens_of(cells, n - 1)
    } else {
        givens_of(cells, n - 1).push(
            RowInfo {
                row: ((n - 1) / 9) as usize,
                col: ((n - 1) % 9) as usize,
                val: cells[n - 1] as usize,
            },
        )
    }
}

/// The nine cell indices of the 3x3 box whose top left cell is `start_idx`,
/// row by row.
pub fn get_cell_indices(start_idx: &usize) -> (indices: Vec<usize>)
    requires
        *start_idx <= usize::MAX - 20,
    ensures
        indices.len() == 9,
        forall|k: int| 0 <= k < 9 ==> #[trigger] indices[k] == *start_idx + (k / 3) * 9 + k % 3,
{
    let mut indices: Vec<usize> = Vec::new();
    let mut row: usize = 0;
    while row < 3
        invariant
            row <= 3,
            *start_idx <= usize::MAX - 20,
            indices.len() == 3 * row,
            forall|k: int|
                0 <= k < 3 * row ==> #[trigger] indices[k] == *start_idx + (k / 3) * 9 + k % 3,
        decreases 3 - row,
    {
        let mut col: usize = 0;
        while col < 3
            invariant
                row < 3,
                col <= 3,
                *start_idx <= usize::MAX - 20,
                indices.len() == 3 * row + col,
                forall|k: int|
                    0 <= k < 3 * row + col ==> #[trigger] indices[k] == *start_idx + (k / 3) * 9 + k
                        % 3,
            decreases 3 - col,
        {
            indices.push(*start_idx + row * 9 + col);
            col += 1;
        }
        row += 1;
    }
    indices
}

impl Board {
    /// A board of the given cells, if each is empty or a digit.
    pub fn from_array(data: [u8; 81]) -> (result: Result<Board, SudokuError>)
        ensures
            match result {
                Ok(board) => board.cells == data && forall|i: int|
                    0 <= i < 81 ==> #[trigger] data[i] <= 9,
                Err(e) => e == SudokuError::InvalidValue && exists|i: int|
                    0 <= i < 81 && #[trigger] data[i] > 9,
            },
    {
        let mut i: usize = 0;
        while i < 81
            invariant
                i <= 81,
                forall|j: int| 0 <= j < i ==> #[trigger] data[j] <= 9,
            decreases 81 - i,
        {
            if data[i] > 9 {
                return Err(SudokuError::InvalidValue);
            }
            i += 1;
        }
        Ok(Board { cells: data })
    }

    /// Writes `user_input` over the board, cell by cell, as far as both
    /// reach. Stops with an error at the first given that the input would
    /// replace by something else; the cells before it are then written.
    pub fn apply_user_input_to_board(&mut self, user_input: Vec<u8>) -> (result: Result<
        bool,
        &'static str,
    >)
        ensures
            result is Ok <==> overwrite_stop(old(self).cells@, user_input@) == reach(user_input@),
            result is Ok ==> result->Ok_0,
            result is Err ==> result->Err_0@ == "user input is replacing a pre-defined hint."@,
            forall|i: int|
                0 <= i < 81 ==> #[trigger] final(self).cells[i] == if i < overwrite_stop(
                    old(self).cells@,
                    user_input@,
                ) {
                    user_input[i]
                } else {
                    old(self).cells[i]
                },
    {
        let n: usize = if user_input.len() < 81 {
            user_input.len()
        } else {
            81
        };
        let mut i: usize = 0;
        while i < n
            invariant
                i <= n <= 81,
                n <= user_input.len(),
                n == reach(user_input@),
                first_overwrite(old(self).cells@, user_input@, i as int) == i,
                forall|j: int|
                    0 <= j < 81 ==> #[trigger] self.cells[j] == if j < i {
                        user_input[j]
                    } else {
                        old(self).cells[j]
                    },
            decreases n - i,
        {
            let cell = self.cells[i];
            let input = user_input[i];
            if cell != 0 && input != cell {
                proof {
                    lemma_first_overwrite_stays(
                        old(self).cells@,
                        user_input@,
                        i as int,
                        n as int,
                    );
                }
                return Err("user input is replacing a pre-defined hint.");
            }
            self.cells[i] = input;
            i += 1;
        }
        Ok(true)
    }

    /// Whether unit `u` holds the digit `v` in exactly one of its cells.
    fn unit_holds_once(&self, u: usize, v: u8) -> (once: bool)
        requires
            u < 27,
        ensures
            once == holds_once(self.cells@, u as int, v as int),
    {
        let mut count: usize = 0;
        let mut k: usize = 0;
        let ghost mut first: int = 0;
        let ghost mut second: int = 0;
        while k < 9
            invariant
                k <= 9,
                u < 27,
                count <= k,
                count == 0 ==> forall|j: int|
                    0 <= j < k ==> self.cells@[#[trigger] unit_cell(u as int, j)] != v,
                count == 1 ==> 0 <= first < k && self.cells@[unit_cell(u as int, first)] == v
                    && forall|j: int|
                    0 <= j < k && j != first ==> self.cells@[#[trigger] unit_cell(u as int, j)]
                        != v,
                count >= 2 ==> 0 <= first < second < k && self.cells@[unit_cell(u as int, first)]
                    == v && self.cells@[unit_cell(u as int, second)] == v,
            decreases 9 - k,
        {
            let idx = if u < 9 {
                u * 9 + k
            } else if u < 18 {
                k * 9 + (u - 9)
            } else {
                ((u - 18) / 3) * 27 + ((u - 18) % 3) * 3 + (k / 3) * 9 + k % 3
            };
            if self.cells[idx] == v {
                proof {
                    if count == 0 {
                        first = k as int;
                    } else if count == 1 {
                        second = k as int;
                    }
                }
                count += 1;
            }
            k += 1;
        }
        count == 1
    }

    /// Whether every row, column and box holds each digit exactly once.
    pub fn validate(&self) -> (valid: bool)
        ensures
            valid == is_valid_grid(self.cells@),
    {
        let mut u: usize = 0;
        while u < 27
            invariant
                u <= 27,
                forall|a: int, v: int|
                    0 <= a < u && 1 <= v <= 9 ==> #[trigger] holds_once(self.cells@, a, v),
            decreases 27 - u,
        {
            let mut v: u8 = 1;
            while v <= 9
                invariant
                    u < 27,
                    1 <= v <= 10,
                    forall|a: int, w: int|
                        0 <= a < u && 1 <= w <= 9 ==> #[trigger] holds_once(self.cells@, a, w),
                    forall|w: int| 1 <= w < v ==> #[trigger] holds_once(self.cells@, u as int, w),
                decreases 10 - v,
            {
                if !self.unit_holds_once(u, v) {
                    return false;
                }
                v += 1;
            }
            u += 1;
        }
        true
    }

    /// The non-empty cells of the board, in order, each as the candidate
    /// it stands for.
    pub fn givens(&self) -> (givens: Vec<RowInfo>)
        ensures
            givens@ == givens_of(self.cells@, 81),
    {
        let mut givens: Vec<RowInfo> = Vec::new();
        let mut i: usize = 0;
        while i < 81
            invariant
                i <= 81,
                givens@ == givens_of(self.cells@, i as int),
            decreases 81 - i,
        {
            let v = self.cells[i];
            if v != 0 {
                givens.push(RowInfo { row: i / 9, col: i % 9, val: v as usize });
            }
            i += 1;
        }
        givens
    }
}

/// Once an overwrite is found, looking further finds the same one.
proof fn lemma_first_overwrite_stays(cells: Seq<u8>, input: Seq<u8>, i: int, n: int)
    requires
        0 <= i < n,
        first_overwrite(cells, input, i) == i,
        cells[i] != 0 && input[i] != cells[i],
    ensures
        first_overwrite(cells, input, n) == i,
    decreases n - i,
{
    if n > i + 1 {
        lemma_first_overwrite_stays(cells, input, i, n - 1);
    }
}

} // verus!
