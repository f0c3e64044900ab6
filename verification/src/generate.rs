//! Generating a puzzle from a seed: a shuffled first row, completed by the
//! solver, with cells emptied at random.

use crate::board::{is_valid_grid, Board, Difficulty};
use crate::decode::{decoded, lemma_solution_cell, lemma_solution_is_valid};

use crate::layout::{lemma_node_of, lemma_placement};
use crate::links::DancingLinks;
use crate::pattern::{first_row_givens, lemma_first_row_is_solvable};
use crate::random::{
    cell_indices, digits, generate_random_indices, generate_unique_array, shuffled, state_after,
    SimpleRng,
};
use crate::builder::fresh_matrix;
use crate::search::first_cover;
use crate::seed::{given_nodes, placement_of, seeded};
use vstd::prelude::*;

verus! {

/// How many cells a puzzle of the given difficulty has emptied; with no
/// difficulty named, that of `Easy`.
pub open spec fn removal_count(difficulty: Option<Difficulty>) -> int {
    match difficulty {
        Some(Difficulty::Medium) => 30,
        Some(Difficulty::Hard) => 23,
        _ => 39,
    }
}

/// The first row of the board generated from `seed`.
pub open spec fn first_row(seed: u32) -> Seq<u8> {
    shuffled(digits(), seed, 8)
}

/// The cells that are emptied in the board generated from `seed`.
pub open spec fn removed_cells(seed: u32, difficulty: Option<Difficulty>) -> Seq<usize> {
    shuffled(cell_indices(), state_after(seed, 8), 80).take(removal_count(difficulty))
}

/// The grid to which the solver completes a board that holds `first` as
/// its first row and nothing else.
pub open spec fn completed(first: Seq<u8>) -> Seq<u8> {
    let givens = first_row_givens(first);
    decoded(given_nodes(givens) + first_cover(seeded(fresh_matrix(), givens, 9))->0)
}

/// The cells of the board generated from `seed`: the completion of its
/// first row, with the removed cells emptied.
pub open spec fn generated(seed: u32, difficulty: Option<Difficulty>) -> Seq<u8> {
    let full = completed(first_row(seed));
    let removed = removed_cells(seed, difficulty);
    Seq::new(
        81,
        |i: int|
            if removed.contains(i as usize) {
                0u8
            } else {
                full[i]
            },
    )
}

impl Board {
    /// A puzzle generated from `seed`: the first row is a shuffle of the
    /// digits, the solver completes it to a valid grid, and a number of
    /// cells that depends on the difficulty is emptied.
    pub fn from_seed(seed: u32, difficulty: Option<Difficulty>) -> (board: Board)
        ensures
            board.cells@ == generated(seed, difficulty),
            is_valid_grid(completed(first_row(seed))),
            forall|c: int| 0 <= c < 9 ==> completed(first_row(seed))[c] == first_row(seed)[c],
    {
        let count: usize = match difficulty {
            Some(Difficulty::Medium) => 30,
            Some(Difficulty::Hard) => 23,
            _ => 39,
        };
        let mut rng = SimpleRng::new(seed);
        let random_array = generate_unique_array(&mut rng);
        let mut cells: [u8; 81] = [0;81];
        let mut c: usize = 0;
        while c < 9
            invariant
                c <= 9,
                forall|j: int| 0 <= j < c ==> cells[j] == random_array[j],
                forall|j: int| c <= j < 81 ==> cells[j] == 0,
            decreases 9 - c,
        {
            cells[c] = random_array[c];
            c += 1;
        }
        let temp = Board { cells };
        let mut dl = DancingLinks::build_matrix();
        proof {
            crate::builder::lemma_fresh(dl@);
            lemma_first_row_is_solvable(dl@, temp.cells@, random_array@);
        }
        let sol = dl.solve_with_partial(&temp).unwrap();
        let mut board = dl.to_sudoku_board(&sol);
        let ghost full = board.cells@;
        proof {
            lemma_solution_is_valid(sol@);
            assert forall|j: int| 0 <= j < 9 implies full[j] == first_row(seed)[j] by {
                lemma_solution_cell(sol@, j);
                let g = first_row_givens(random_array@);
                let p = placement_of(g[j]);
                lemma_first_digit(random_array@, j);
                lemma_placement(0, j, random_array@[j] as int);
                lemma_node_of(p, 0);
            }
        }
        let random_indices = generate_random_indices(&mut rng, count);
        let mut k: usize = 0;
        while k < random_indices.len()
            invariant
                k <= random_indices.len(),
                full.len() == 81,
                forall|j: int| 0 <= j < random_indices.len() ==> random_indices[j] < 81,
                forall|i: int|
                    0 <= i < 81 ==> #[trigger] board.cells[i] == if random_indices@.take(
                        k as int,
                    ).contains(i as usize) {
                        0
                    } else {
                        full[i]
                    },
            decreases random_indices.len() - k,
        {
            let idx = random_indices[k];
            let ghost before = board.cells@;
            board.cells[idx] = 0;
            proof {
                let a = random_indices@.take(k as int);
                let b = random_indices@.take(k + 1);
                assert forall|i: int| 0 <= i < 81 implies #[trigger] board.cells[i] == if b.contains(
                    i as usize,
                ) {
                    0
                } else {
                    full[i]
                } by {
                    assert(before[i] == if a.contains(i as usize) {
                        0
                    } else {
                        full[i]
                    });
                    if i == idx {
                        assert(b[k as int] == i as usize);
                    }
                }
            }
            k += 1;
        }
        proof {
            assert(random_indices@.take(k as int) =~= random_indices@);
        }
        board
    }
}

/// Each item of a row of the nine digits is a digit.
proof fn lemma_first_digit(first: Seq<u8>, j: int)
    requires
        crate::random::is_arrangement(first, digits()),
        0 <= j < 9,
    ensures
        1 <= first[j] <= 9,
{
}

} // verus!
