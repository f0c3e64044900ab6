//! Committing the givens of a puzzle before the search: each given chooses
//! its row, as the search would, and two givens that claim the same
//! constraint are a conflict.

use crate::board::{givens_of, is_valid_grid, Board};
use crate::decode::{decoded, lemma_solution_cell, lemma_solution_is_valid};
use crate::error::SudokuError;
use crate::exact::{apart, solvable};
use crate::layout::{
    header_for, header_index, header_of, is_column, is_data, is_family, is_placement,
    lemma_column_of, lemma_meets, lemma_node_of, lemma_placement, mate, meets, node_index, node_of,
    placement, row_of,
};
use crate::links::{links_closed, DancingLinks};
use crate::matrix::{available, is_active, nothing_covered, well_formed};
use crate::node::{Node, RowInfo};
use crate::search::{
    all_chosen, chosen_part, committed, first_cover, is_solution, lemma_chosen_part, lemma_commit,
    lemma_header_row, lemma_row_chosen, row_chosen,
};
use vstd::prelude::*;

verus! {

/// `info` names a cell of the board and a digit.
pub open spec fn is_candidate(info: RowInfo) -> bool {
    info.row < 9 && info.col < 9 && 1 <= info.val <= 9
}

/// The placement that `info` names.
pub open spec fn placement_of(info: RowInfo) -> int {
    placement(info.row as int, info.col as int, info.val as int)
}

/// The node that stands for a committed given: the one in the column of
/// its cell.
pub open spec fn given_node(info: RowInfo) -> usize {
    node_of(placement_of(info), 0) as usize
}

/// The nodes that stand for `givens`, in order.
pub open spec fn given_nodes(givens: Seq<RowInfo>) -> Seq<usize> {
    Seq::new(givens.len(), |k: int| given_node(givens[k]))
}

/// Two of the first `n` givens claim the same constraint.
pub open spec fn clash(givens: Seq<RowInfo>, n: int) -> bool {
    exists|j: int, k: int|
        0 <= j < k < n && !apart(
            #[trigger] placement_of(givens[j]),
            #[trigger] placement_of(givens[k]),
        )
}

/// The number of givens that stand before the first that clashes with
/// one before it.
pub open spec fn first_clash(givens: Seq<RowInfo>) -> int {
    choose|n: int| 0 <= n && #[trigger] clashes_at(givens, n)
}

/// Given `n` is the first to clash with one before it.
pub open spec fn clashes_at(givens: Seq<RowInfo>, n: int) -> bool {
    !clash(givens, n) && clash(givens, n + 1)
}

/// The matrix `s` with the rows of the first `n` givens chosen, in order.
pub open spec fn seeded(s: Seq<Node>, givens: Seq<RowInfo>, n: int) -> Seq<Node>
    decreases n,
{
    if n <= 0 {
        s
    } else {
        row_chosen(seeded(s, givens, n - 1), given_node(givens[n - 1]) as int)
    }
}

/// Every given among the first `n` names a cell and a digit.
pub open spec fn all_candidates(givens: Seq<RowInfo>, n: int) -> bool {
    forall|k: int| 0 <= k < n ==> is_candidate(#[trigger] givens[k])
}

/// What holds after the first `n` givens are committed without a clash.
pub open spec fn seeding(s: Seq<Node>, givens: Seq<RowInfo>, n: int) -> bool {
    let t = seeded(s, givens, n);
    &&& well_formed(t)
    &&& committed(t, given_nodes(givens.take(n)))
    &&& forall|g: int|
        is_column(g) ==> (#[trigger] is_active(t, g) <==> forall|k: int|
            0 <= k < n ==> !meets(#[trigger] placement_of(givens[k]), g))
}

/// A column meets a candidate's placement in the family of the column.
proof fn lemma_given(info: RowInfo)
    requires
        is_candidate(info),
    ensures
        is_placement(placement_of(info)),
        is_data(given_node(info) as int),
        given_node(info) == node_of(placement_of(info), 0),
        row_of(given_node(info) as int) == placement_of(info),
        forall|f: int|
            is_family(f) ==> #[trigger] header_of(mate(given_node(info) as int, f)) == header_for(
                placement_of(info),
                f,
            ),
{
    let p = placement_of(info);
    lemma_placement(info.row as int, info.col as int, info.val as int);
    lemma_node_of(p, 0);
    assert forall|f: int| is_family(f) implies #[trigger] header_of(
        mate(given_node(info) as int, f),
    ) == header_for(p, f) by {
        lemma_node_of(p, f);
    }
}

/// Committing one more given whose columns are all in the header row.
proof fn lemma_seeding_step(s: Seq<Node>, givens: Seq<RowInfo>, n: int)
    requires
        0 <= n < givens.len(),
        all_candidates(givens, n + 1),
        seeding(s, givens, n),
        !clash(givens, n),
        available(seeded(s, givens, n), placement_of(givens[n])),
    ensures
        seeding(s, givens, n + 1),
        !clash(givens, n + 1),
{
    let t = seeded(s, givens, n);
    let info = givens[n];
    let p = placement_of(info);
    let x = given_node(info);
    let t2 = seeded(s, givens, n + 1);
    lemma_given(info);
    lemma_commit(t, given_nodes(givens.take(n)), x);
    lemma_row_chosen(t, x as int);
    assert(given_nodes(givens.take(n + 1)) =~= given_nodes(givens.take(n)).push(x));
    assert forall|g: int| is_column(g) implies (#[trigger] is_active(t2, g) <==> forall|k: int|
        0 <= k < n + 1 ==> !meets(#[trigger] placement_of(givens[k]), g)) by {}
    if clash(givens, n + 1) {
        let (j, k) = choose|j: int, k: int|
            0 <= j < k < n + 1 && !apart(
                #[trigger] placement_of(givens[j]),
                #[trigger] placement_of(givens[k]),
            );
        if k >= n {
            let q = placement_of(givens[j]);
            let f = choose|f: int| is_family(f) && #[trigger] header_for(q, f) == header_for(p, f);
            lemma_given(givens[j]);
            lemma_column_of(p, f);
            lemma_meets(q, header_for(p, f));
        }
    }
}

/// A given one of whose columns has left the header row clashes with an
/// earlier one.
proof fn lemma_seeding_clash(s: Seq<Node>, givens: Seq<RowInfo>, n: int, f: int)
    requires
        0 <= n < givens.len(),
        all_candidates(givens, n + 1),
        seeding(s, givens, n),
        is_family(f),
        !is_active(seeded(s, givens, n), header_for(placement_of(givens[n]), f)),
    ensures
        clash(givens, n + 1),
{
    let t = seeded(s, givens, n);
    let p = placement_of(givens[n]);
    let h = header_for(p, f);
    lemma_given(givens[n]);
    lemma_column_of(p, f);
    assert(is_active(t, h) <==> forall|k: int|
        0 <= k < n ==> !meets(#[trigger] placement_of(givens[k]), h));
    let j = choose|j: int| 0 <= j < n && meets(#[trigger] placement_of(givens[j]), h);
    let q = placement_of(givens[j]);
    lemma_given(givens[j]);
    lemma_meets(q, h);
}

/// A clash among the first givens is a clash among all of them.
proof fn lemma_clash_grows(givens: Seq<RowInfo>, n: int, m: int)
    requires
        clash(givens, n),
        n <= m,
    ensures
        clash(givens, m),
{
    let (j, k) = choose|j: int, k: int|
        0 <= j < k < n && !apart(
            #[trigger] placement_of(givens[j]),
            #[trigger] placement_of(givens[k]),
        );
}

/// Where the first clash is.
proof fn lemma_first_clash(givens: Seq<RowInfo>, n: int)
    requires
        0 <= n,
        !clash(givens, n),
        clash(givens, n + 1),
    ensures
        first_clash(givens) == n,
{
    assert(clashes_at(givens, n));
    let m = first_clash(givens);
    if m < n {
        lemma_clash_grows(givens, m + 1, n);
    }
    if n < m {
        lemma_clash_grows(givens, n + 1, m);
    }
}

/// With every column in the header row, nothing is committed yet.
proof fn lemma_seeding_start(s: Seq<Node>, givens: Seq<RowInfo>)
    requires
        well_formed(s),
        nothing_covered(s),
    ensures
        seeding(s, givens, 0),
        !clash(givens, 0),
{
}

/// Givens that do not clash can all be committed, and what is committed
/// is then exactly their rows.
pub proof fn lemma_seeded(s: Seq<Node>, givens: Seq<RowInfo>)
    requires
        well_formed(s),
        nothing_covered(s),
        all_candidates(givens, givens.len() as int),
        !clash(givens, givens.len() as int),
    ensures
        well_formed(seeded(s, givens, givens.len() as int)),
        committed(seeded(s, givens, givens.len() as int), given_nodes(givens)),
{
    lemma_seeded_part(s, givens, givens.len() as int);
    assert(givens.take(givens.len() as int) =~= givens);
}

proof fn lemma_seeded_part(s: Seq<Node>, givens: Seq<RowInfo>, n: int)
    requires
        well_formed(s),
        nothing_covered(s),
        0 <= n <= givens.len(),
        all_candidates(givens, n),
        !clash(givens, n),
    ensures
        seeding(s, givens, n),
    decreases n,
{
    if n == 0 {
        lemma_seeding_start(s, givens);
    } else {
        if clash(givens, n - 1) {
            lemma_clash_grows(givens, n - 1, n);
        }
        lemma_seeded_part(s, givens, n - 1);
        let t = seeded(s, givens, n - 1);
        let p = placement_of(givens[n - 1]);
        lemma_given(givens[n - 1]);
        assert forall|f: int| is_family(f) implies is_active(t, #[trigger] header_for(p, f)) by {
            if !is_active(t, header_for(p, f)) {
                lemma_seeding_clash(s, givens, n - 1, f);
            }
        }
        lemma_seeding_step(s, givens, n - 1);
    }
}

/// The grid `grid` holds every given of `cells`.
pub open spec fn agrees(grid: Seq<u8>, cells: Seq<u8>) -> bool {
    forall|i: int| 0 <= i < 81 && cells[i] != 0 ==> #[trigger] grid[i] == cells[i]
}

/// A non-empty cell is among the givens of the board.
proof fn lemma_given_listed(cells: Seq<u8>, i: int) -> (k: int)
    requires
        0 <= i < 81,
        cells[i] != 0,
    ensures
        0 <= k < givens_of(cells, 81).len(),
        givens_of(cells, 81)[k] == (RowInfo {
            row: (i / 9) as usize,
            col: (i % 9) as usize,
            val: cells[i] as usize,
        }),
{
    let k = lemma_given_found(cells, i + 1, i);
    lemma_givens_grow(cells, i + 1, 81, k);
    k
}

/// A non-empty cell below `m` is among the givens of the first `m` cells.
proof fn lemma_given_found(cells: Seq<u8>, m: int, i: int) -> (k: int)
    requires
        0 <= i < m,
        cells[i] != 0,
    ensures
        0 <= k < givens_of(cells, m).len(),
        givens_of(cells, m)[k] == (RowInfo {
            row: (i / 9) as usize,
            col: (i % 9) as usize,
            val: cells[i] as usize,
        }),
    decreases m,
{
    if i == m - 1 {
        givens_of(cells, m - 1).len() as int
    } else {
        lemma_given_found(cells, m - 1, i)
    }
}

/// The givens of more cells begin with the givens of fewer.
proof fn lemma_givens_grow(cells: Seq<u8>, m: int, n: int, k: int)
    requires
        0 <= m <= n,
        0 <= k < givens_of(cells, m).len(),
    ensures
        k < givens_of(cells, n).len(),
        givens_of(cells, n)[k] == givens_of(cells, m)[k],
    decreases n - m,
{
    if m < n {
        lemma_givens_grow(cells, m, n - 1, k);
    }
}

/// The grid decoded from a solution that begins with the givens of a
/// board holds every given of the board.
pub proof fn lemma_solution_keeps_givens(cells: Seq<u8>, full: Seq<usize>)
    requires
        cells.len() == 81,
        all_candidates(givens_of(cells, 81), givens_of(cells, 81).len() as int),
        is_solution(full),
        given_nodes(givens_of(cells, 81)).len() <= full.len(),
        full.take(given_nodes(givens_of(cells, 81)).len() as int) == given_nodes(
            givens_of(cells, 81),
        ),
    ensures
        agrees(decoded(full), cells),
{
    let givens = givens_of(cells, 81);
    let grid = decoded(full);
    assert forall|i: int| 0 <= i < 81 && cells[i] != 0 implies #[trigger] grid[i] == cells[i] by {
        let k = lemma_given_listed(cells, i);
        let info = givens[k];
        lemma_given(info);
        assert(full[k] == full.take(given_nodes(givens).len() as int)[k]);
        lemma_solution_cell(full, k);
        lemma_placement(info.row as int, info.col as int, info.val as int);
    }
}

/// Where only one valid grid holds the givens of a board, the grid decoded
/// from a solution that begins with those givens is that grid.
pub proof fn lemma_reproduces(cells: Seq<u8>, known: Seq<u8>, full: Seq<usize>)
    requires
        cells.len() == 81,
        all_candidates(givens_of(cells, 81), givens_of(cells, 81).len() as int),
        is_solution(full),
        given_nodes(givens_of(cells, 81)).len() <= full.len(),
        full.take(given_nodes(givens_of(cells, 81)).len() as int) == given_nodes(
            givens_of(cells, 81),
        ),
        forall|grid: Seq<u8>| #[trigger]
            is_valid_grid(grid) && agrees(grid, cells) ==> grid == known,
    ensures
        decoded(full) == known,
{
    lemma_solution_keeps_givens(cells, full);
    lemma_solution_is_valid(full);
}

impl DancingLinks {
    /// Whether the column under header `column` is in the header row.
    pub fn is_in_header_row(&self, column: usize) -> (active: bool)
        requires
            column < self@.len(),
            links_closed(self@),
        ensures
            active == is_active(self@, column as int),
    {
        let left = self.nodes[column].left;
        self.nodes[left].right == column
    }

    /// Commits the placement that `info` names, as the search would on
    /// choosing its row: covers its four columns and returns the node that
    /// stands for the row. Does nothing and returns `None` if one of the
    /// four is covered already.
    pub fn commit(&mut self, info: RowInfo) -> (node: Option<usize>)
        requires
            well_formed(old(self)@),
            is_candidate(info),
        ensures
            node is Some <==> available(old(self)@, placement_of(info)),
            match node {
                Some(x) => x == given_node(info) && final(self)@ == row_chosen(
                    old(self)@,
                    x as int,
                ),
                None => final(self)@ == old(self)@,
            },
    {
        let ghost s = self@;
        let ghost p = placement_of(info);
        proof {
            lemma_header_row(s);
            lemma_given(info);
        }
        let mut f: usize = 0;
        while f < 4
            invariant
                0 <= f <= 4,
                self@ == s,
                well_formed(s),
                s.len() == 3241,
                links_closed(s),
                is_candidate(info),
                p == placement_of(info),
                forall|g: int| 0 <= g < f ==> is_active(s, #[trigger] header_for(p, g)),
            decreases 4 - f,
        {
            let h = header_index(info.row, info.col, info.val, f);
            if !self.is_in_header_row(h) {
                return None;
            }
            f += 1;
        }
        let x = node_index(info.row, info.col, info.val, 0);
        let mut j: usize = 0;
        while j < 4
            invariant
                0 <= j <= 4,
                well_formed(s),
                is_candidate(info),
                p == placement_of(info),
                x == given_node(info),
                is_data(x as int),
                row_of(x as int) == p,
                available(s, p),
                self@ == chosen_part(s, x as int, j as int),
                forall|f: int|
                    is_family(f) ==> #[trigger] header_of(mate(x as int, f)) == header_for(p, f),
            decreases 4 - j,
        {
            proof {
                lemma_chosen_part(s, x as int, j as int);
            }
            let h = header_index(info.row, info.col, info.val, j);
            self.cover(h);
            j += 1;
        }
        Some(x)
    }

    /// Commits `givens` one after the other. Two givens that claim the
    /// same constraint are a conflict; the matrix is then left with the
    /// givens before the second of them committed.
    pub fn seed_with_placements(&mut self, givens: &Vec<RowInfo>) -> (result: Result<
        Vec<usize>,
        SudokuError,
    >)
        requires
            well_formed(old(self)@),
            nothing_covered(old(self)@),
        ensures
            match result {
                Ok(partial) => {
                    &&& partial@ == given_nodes(givens@)
                    &&& final(self)@ == seeded(old(self)@, givens@, givens@.len() as int)
                    &&& committed(final(self)@, partial@)
                    &&& well_formed(final(self)@)
                },
                Err(e) => {
                    &&& e != SudokuError::Infeasible
                    &&& e == SudokuError::InvalidValue ==> final(self)@ == old(self)@
                    &&& e == SudokuError::ConflictingClues ==> final(self)@ == seeded(
                        old(self)@,
                        givens@,
                        first_clash(givens@),
                    )
                    &&& well_formed(final(self)@)
                },
            },
            result == Err::<Vec<usize>, SudokuError>(SudokuError::InvalidValue) <==> !all_candidates(
                givens@,
                givens@.len() as int,
            ),
            result == Err::<Vec<usize>, SudokuError>(SudokuError::ConflictingClues)
                <==> all_candidates(givens@, givens@.len() as int) && clash(
                givens@,
                givens@.len() as int,
            ),
    {
        let ghost s = self@;
        let mut k: usize = 0;
        while k < givens.len()
            invariant
                0 <= k <= givens.len(),
                self@ == s,
                well_formed(s),
                all_candidates(givens@, k as int),
            decreases givens.len() - k,
        {
            let info = givens[k];
            if !(info.row < 9 && info.col < 9 && 1 <= info.val && info.val <= 9) {
                return Err(SudokuError::InvalidValue);
            }
            k += 1;
        }
        let mut partial: Vec<usize> = Vec::new();
        let mut n: usize = 0;
        proof {
            lemma_seeding_start(s, givens@);
        }
        while n < givens.len()
            invariant
                0 <= n <= givens.len(),
                s == old(self)@,
                all_candidates(givens@, givens@.len() as int),
                self@ == seeded(s, givens@, n as int),
                seeding(s, givens@, n as int),
                !clash(givens@, n as int),
                partial@ == given_nodes(givens@.take(n as int)),
            decreases givens.len() - n,
        {
            let info = givens[n];
            let ghost t = self@;
            match self.commit(info) {
                Some(x) => {
                    proof {
                        lemma_seeding_step(s, givens@, n as int);
                    }
                    partial.push(x);
                },
                None => {
                    proof {
                        let p = placement_of(info);
                        let f = choose|f: int|
                            is_family(f) && !is_active(t, #[trigger] header_for(p, f));
                        lemma_seeding_clash(s, givens@, n as int, f);
                        lemma_first_clash(givens@, n as int);
                        lemma_clash_grows(givens@, n + 1, givens@.len() as int);
                    }
                    return Err(SudokuError::ConflictingClues);
                },
            }
            n += 1;
        }
        Ok(partial)
    }

    /// Commits the givens of `board`, cell by cell in board order.
    pub fn seed_with_givens(&mut self, board: &Board) -> (result: Result<Vec<usize>, SudokuError>)
        requires
            well_formed(old(self)@),
            nothing_covered(old(self)@),
        ensures
            ({
                let givens = givens_of(board.cells@, 81);
                let n = givens.len() as int;
                &&& match result {
                    Ok(partial) => {
                        &&& partial@ == given_nodes(givens)
                        &&& final(self)@ == seeded(old(self)@, givens, n)
                        &&& committed(final(self)@, partial@)
                        &&& well_formed(final(self)@)
                    },
                    Err(e) => {
                        &&& e != SudokuError::Infeasible
                        &&& e == SudokuError::InvalidValue ==> final(self)@ == old(self)@
                        &&& e == SudokuError::ConflictingClues ==> final(self)@ == seeded(
                            old(self)@,
                            givens,
                            first_clash(givens),
                        )
                        &&& well_formed(final(self)@)
                    },
                }
                &&& result == Err::<Vec<usize>, SudokuError>(SudokuError::InvalidValue)
                    <==> !all_candidates(givens, n)
                &&& result == Err::<Vec<usize>, SudokuError>(SudokuError::ConflictingClues)
                    <==> all_candidates(givens, n) && clash(givens, n)
            }),
    {
        let givens = board.givens();
        self.seed_with_placements(&givens)
    }

    /// Commits the givens of `board`, then searches for an exact cover
    /// that extends them. No search is made if the givens are in conflict.
    pub fn solve_with_partial(&mut self, board: &Board) -> (result: Result<
        Vec<usize>,
        SudokuError,
    >)
        requires
            well_formed(old(self)@),
            nothing_covered(old(self)@),
        ensures
            ({
                let givens = givens_of(board.cells@, 81);
                let n = givens.len() as int;
                &&& match result {
                    Ok(full) => {
                        &&& is_solution(full@)
                        &&& n <= full@.len()
                        &&& full@.take(n) == given_nodes(givens)
                        &&& is_valid_grid(decoded(full@))
                        &&& agrees(decoded(full@), board.cells@)
                        &&& first_cover(seeded(old(self)@, givens, n)) is Some
                        &&& full@ == given_nodes(givens) + first_cover(
                            seeded(old(self)@, givens, n),
                        )->0
                        &&& final(self)@ == all_chosen(
                            seeded(old(self)@, givens, n),
                            first_cover(seeded(old(self)@, givens, n))->0,
                            first_cover(seeded(old(self)@, givens, n))->0.len() as int,
                        )
                        &&& well_formed(final(self)@)
                    },
                    Err(e) => {
                        &&& e == SudokuError::InvalidValue ==> final(self)@ == old(self)@
                        &&& e == SudokuError::ConflictingClues ==> final(self)@ == seeded(
                            old(self)@,
                            givens,
                            first_clash(givens),
                        )
                        &&& e == SudokuError::Infeasible ==> final(self)@ == seeded(
                            old(self)@,
                            givens,
                            n,
                        )
                        &&& well_formed(final(self)@)
                    },
                }
                &&& result == Err::<Vec<usize>, SudokuError>(SudokuError::InvalidValue)
                    <==> !all_candidates(givens, n)
                &&& result == Err::<Vec<usize>, SudokuError>(SudokuError::ConflictingClues)
                    <==> all_candidates(givens, n) && clash(givens, n)
                &&& result == Err::<Vec<usize>, SudokuError>(SudokuError::Infeasible)
                    <==> all_candidates(givens, n) && !clash(givens, n) && !solvable(
                    seeded(old(self)@, givens, n),
                )
            }),
    {
        match self.seed_with_givens(board) {
            Ok(partial) => {
                let mut solution = partial;
                let result = self.search(&mut solution);
                proof {
                    if result is Ok {
                        let full = result->Ok_0@;
                        lemma_solution_is_valid(full);
                        lemma_solution_keeps_givens(board.cells@, full);
                    }
                }
                result
            },
            Err(e) => Err(e),
        }
    }
}

} // verus!
