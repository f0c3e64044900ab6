//! Algorithm X over the matrix: choose the column with the fewest rows,
//! try each of its rows in turn, and recurse; the first exact cover found
//! is the answer.

use crate::cover::{covered, lemma_covered, uncovered};
use crate::error::SudokuError;
use crate::exact::{
    active_columns, all_columns, covered_columns, is_exact_cover, lemma_cover_grows,
    lemma_cover_rest, lemma_cover_shrinks, rows_of, solvable,
};
use crate::layout::{
    family_of, family_of_column, header_for, header_of, is_column, is_data, is_family,
    lemma_column_of, lemma_data_node, lemma_mate, lemma_meets, lemma_node_of, mate, meets, node_of,
    row_of,
};
use crate::links::{links_closed, DancingLinks};
use crate::matrix::{
    around, available, column_rows, header_row, is_active, is_frame, is_header_row, linked,
    nothing_covered, well_formed,
};
use crate::node::{Direction, Node};
use vstd::prelude::*;

verus! {

/// The matrix `s` after the first `j` columns of the row of data node `r`
/// are covered, starting with the column of `r` and going right.
pub open spec fn chosen_part(s: Seq<Node>, r: int, j: int) -> Seq<Node>
    decreases j,
{
    if j <= 0 {
        s
    } else {
        covered(chosen_part(s, r, j - 1), header_of(mate(r, j - 1)))
    }
}

/// The matrix `s` after the row of data node `r` is chosen: its four
/// columns are covered.
pub open spec fn row_chosen(s: Seq<Node>, r: int) -> Seq<Node> {
    chosen_part(s, r, 4)
}

/// The matrix `s` after the rows of the first `n` nodes of `rows` are
/// chosen, in order.
pub open spec fn all_chosen(s: Seq<Node>, rows: Seq<usize>, n: int) -> Seq<Node>
    decreases n,
{
    if n <= 0 {
        s
    } else {
        row_chosen(all_chosen(s, rows, n - 1), rows[n - 1] as int)
    }
}

/// Choosing a row and then others is choosing them all, one after the
/// other.
pub proof fn lemma_all_chosen_front(s: Seq<Node>, r: usize, rest: Seq<usize>, n: int)
    requires
        0 <= n <= rest.len(),
    ensures
        all_chosen(s, seq![r] + rest, n + 1) == all_chosen(row_chosen(s, r as int), rest, n),
    decreases n,
{
    let rows = seq![r] + rest;
    if n > 0 {
        lemma_all_chosen_front(s, r, rest, n - 1);
    } else {
        assert(all_chosen(s, rows, 0) == s);
    }
}

/// The rows of `solution` are what has been committed to in `s`: they meet
/// each covered column exactly once and no column of the header row.
pub open spec fn committed(s: Seq<Node>, solution: Seq<usize>) -> bool {
    &&& forall|i: int| 0 <= i < solution.len() ==> is_data(#[trigger] solution[i] as int)
    &&& is_exact_cover(rows_of(solution), covered_columns(s))
}

/// The rows of `solution` meet every column of the matrix exactly once.
pub open spec fn is_solution(solution: Seq<usize>) -> bool {
    &&& forall|i: int| 0 <= i < solution.len() ==> is_data(#[trigger] solution[i] as int)
    &&& is_exact_cover(rows_of(solution), all_columns())
}

/// Among the first `n` columns of the header row `l`, the position of the
/// leftmost of those with the fewest rows.
pub open spec fn least_index(s: Seq<Node>, l: Seq<int>, n: int) -> int
    decreases n,
{
    if n <= 1 {
        0
    } else {
        let m = least_index(s, l, n - 1);
        if s[l[n - 1]].size < s[l[m]].size {
            n - 1
        } else {
            m
        }
    }
}

/// The column that the search branches on: of the columns of the header
/// row with the fewest rows, the leftmost.
pub open spec fn chosen_column(s: Seq<Node>) -> int {
    header_row(s)[least_index(s, header_row(s), header_row(s).len() as int)]
}

/// The exact cover of the header row of `s` that the search finds: with
/// the header row empty, no rows; else the first row of the chosen column,
/// from top to bottom, after which the search finds a cover of what is
/// left, followed by that cover. `None` if there is no such row.
pub open spec fn first_cover(s: Seq<Node>) -> Option<Seq<usize>>
    decreases header_row(s).len(), 1int, 0int,
    when well_formed(s)
{
    if header_row(s).len() == 0 {
        Some(Seq::empty())
    } else {
        first_cover_from(s, chosen_column(s), 0)
    }
}

/// What the search finds on trying the rows of the column under header
/// `c` from position `a` on.
pub open spec fn first_cover_from(s: Seq<Node>, c: int, a: int) -> Option<Seq<usize>>
    decreases header_row(s).len(), 0int, column_rows(s, c).len() - a,
    when well_formed(s) && is_column(c) && is_active(s, c) && 0 <= a
{
    let l = column_rows(s, c);
    if a >= l.len() {
        None
    } else {
        proof {
            lemma_column_row(s, c, a);
            lemma_row_chosen(s, l[a]);
        }
        match first_cover(row_chosen(s, l[a])) {
            Some(rest) => Some(seq![l[a] as usize] + rest),
            None => first_cover_from(s, c, a + 1),
        }
    }
}

/// Covering the columns of an available row one after the other: each is
/// still in the header row when its turn comes, and they alone leave it.
pub proof fn lemma_chosen_part(s: Seq<Node>, r: int, j: int)
    requires
        well_formed(s),
        is_data(r),
        available(s, row_of(r)),
        0 <= j <= 4,
    ensures
        well_formed(chosen_part(s, r, j)),
        header_row(chosen_part(s, r, j)).len() == header_row(s).len() - j,
        forall|g: int|
            is_column(g) ==> (#[trigger] is_active(chosen_part(s, r, j), g) <==> is_active(s, g)
                && forall|i: int| 0 <= i < j ==> g != header_of(#[trigger] mate(r, i))),
        j < 4 ==> is_column(header_of(mate(r, j))) && is_active(
            chosen_part(s, r, j),
            header_of(mate(r, j)),
        ),
        j > 0 ==> uncovered(chosen_part(s, r, j), header_of(mate(r, j - 1))) == chosen_part(
            s,
            r,
            j - 1,
        ),
    decreases j,
{
    let p = row_of(r);
    lemma_data_node(r);
    if j < 4 {
        lemma_mate(r, j);
        lemma_data_node(mate(r, j));
        lemma_column_of(p, family_of(mate(r, j)));
    }
    if j > 0 {
        lemma_chosen_part(s, r, j - 1);
        let t1 = chosen_part(s, r, j - 1);
        let h = header_of(mate(r, j - 1));
        lemma_covered(t1, h);
        let t = chosen_part(s, r, j);
        assert(header_row(t1).index_of(h) >= 0 && header_row(t1).index_of(h) < header_row(
            t1,
        ).len());
        if j < 4 {
            assert forall|i: int| 0 <= i < j implies header_of(mate(r, j)) != header_of(
                #[trigger] mate(r, i),
            ) by {
                lemma_mate(r, i);
                lemma_data_node(mate(r, i));
                lemma_column_of(p, family_of(mate(r, i)));
            }
        }
        assert forall|g: int| is_column(g) implies (#[trigger] is_active(t, g) <==> is_active(s, g)
            && forall|i: int| 0 <= i < j ==> g != header_of(#[trigger] mate(r, i))) by {
            assert(is_active(t1, g) <==> is_active(s, g) && forall|i: int|
                0 <= i < j - 1 ==> g != header_of(#[trigger] mate(r, i)));
        }
    }
}

/// Choosing an available row takes out of the header row the columns that
/// the row meets, and no others.
pub proof fn lemma_row_chosen(s: Seq<Node>, r: int)
    requires
        well_formed(s),
        is_data(r),
        available(s, row_of(r)),
    ensures
        well_formed(row_chosen(s, r)),
        header_row(row_chosen(s, r)).len() == header_row(s).len() - 4,
        forall|g: int|
            is_column(g) ==> (#[trigger] is_active(row_chosen(s, r), g) <==> is_active(s, g)
                && !meets(row_of(r), g)),
{
    let t = row_chosen(s, r);
    let p = row_of(r);
    lemma_chosen_part(s, r, 4);
    lemma_data_node(r);
    assert forall|g: int| is_column(g) implies (#[trigger] is_active(t, g) <==> is_active(s, g)
        && !meets(p, g)) by {
        lemma_meets(p, g);
        let fg = family_of_column(g);
        let i = (fg - family_of(r) + 4) % 4;
        lemma_mate(r, i);
        lemma_data_node(mate(r, i));
        if !meets(p, g) {
            assert forall|k: int| 0 <= k < 4 implies g != header_of(#[trigger] mate(r, k)) by {
                lemma_mate(r, k);
                lemma_data_node(mate(r, k));
            }
        }
    }
}

/// Choosing an available row extends what is committed by that row.
pub proof fn lemma_commit(s: Seq<Node>, solution: Seq<usize>, r: usize)
    requires
        well_formed(s),
        committed(s, solution),
        is_data(r as int),
        available(s, row_of(r as int)),
    ensures
        committed(row_chosen(s, r as int), solution.push(r)),
{
    let t = row_chosen(s, r as int);
    let p = row_of(r as int);
    lemma_row_chosen(s, r as int);
    lemma_data_node(r as int);
    assert forall|f: int| is_family(f) implies !covered_columns(s).contains(
        #[trigger] header_for(p, f),
    ) by {}
    assert forall|h: int| #[trigger]
        covered_columns(t).contains(h) <==> covered_columns(s).contains(h) || (is_column(h)
            && meets(p, h)) by {
        if is_column(h) {
            lemma_meets(p, h);
        }
    }
    lemma_cover_grows(rows_of(solution), covered_columns(s), p, covered_columns(t));
    assert(rows_of(solution.push(r)) =~= rows_of(solution).push(p));
    assert forall|i: int| 0 <= i < solution.push(r).len() implies is_data(
        #[trigger] solution.push(r)[i] as int,
    ) by {}
}

/// With the header row empty, what is committed is a solution.
pub proof fn lemma_complete(s: Seq<Node>, solution: Seq<usize>)
    requires
        well_formed(s),
        committed(s, solution),
        s[0].right == 0,
    ensures
        is_solution(solution),
        header_row(s).len() == 0,
{
    reveal(well_formed);
    let l = header_row(s);
    assert(s[around(l, 0, -1)].right == around(l, 0, 0));
    assert forall|h: int| is_column(h) implies !is_active(s, h) by {}
    assert(covered_columns(s) =~= all_columns());
}

/// A column of the header row without rows cannot be met.
pub proof fn lemma_empty_column(s: Seq<Node>, c: int)
    requires
        well_formed(s),
        is_column(c),
        is_active(s, c),
        s[c].size == 0,
    ensures
        !solvable(s),
{
    reveal(well_formed);
    if solvable(s) {
        let rows = choose|rows: Seq<int>| #[trigger] is_exact_cover(rows, active_columns(s));
        assert(active_columns(s).contains(c));
        let i = choose|i: int| 0 <= i < rows.len() && #[trigger] meets(rows[i], c);
        lemma_row_in_column(s, rows, i, c);
    }
}

/// A row of a cover of the header row is linked into every column it
/// meets.
proof fn lemma_row_in_column(s: Seq<Node>, rows: Seq<int>, i: int, c: int)
    requires
        well_formed(s),
        is_column(c),
        is_active(s, c),
        is_exact_cover(rows, active_columns(s)),
        0 <= i < rows.len(),
        meets(rows[i], c),
    ensures
        available(s, rows[i]),
        is_data(node_of(rows[i], family_of_column(c))),
        row_of(node_of(rows[i], family_of_column(c))) == rows[i],
        column_rows(s, c).contains(node_of(rows[i], family_of_column(c))),
{
    reveal(well_formed);
    let p = rows[i];
    assert forall|f: int| is_family(f) implies is_active(s, #[trigger] header_for(p, f)) by {}
    lemma_meets(p, c);
    let x = node_of(p, family_of_column(c));
    lemma_node_of(p, family_of_column(c));
    assert(linked(s, x) <==> available(s, row_of(x)));
}

/// If choosing any row of a column of the header row leaves nothing
/// solvable, nothing was solvable before.
pub proof fn lemma_branches_exhausted(s: Seq<Node>, c: int)
    requires
        well_formed(s),
        is_column(c),
        is_active(s, c),
        forall|a: int|
            0 <= a < column_rows(s, c).len() ==> !solvable(
                #[trigger] row_chosen(s, column_rows(s, c)[a]),
            ),
    ensures
        !solvable(s),
{
    if solvable(s) {
        let rows = choose|rows: Seq<int>| #[trigger] is_exact_cover(rows, active_columns(s));
        assert(active_columns(s).contains(c));
        let i = choose|i: int| 0 <= i < rows.len() && #[trigger] meets(rows[i], c);
        let p = rows[i];
        lemma_row_in_column(s, rows, i, c);
        let x = node_of(p, family_of_column(c));
        let l = column_rows(s, c);
        let a = choose|a: int| 0 <= a < l.len() && l[a] == x;
        let t = row_chosen(s, l[a]);
        lemma_row_chosen(s, x);
        assert forall|h: int| #[trigger]
            active_columns(t).contains(h) <==> active_columns(s).contains(h) && !meets(
                rows[i],
                h,
            ) by {}
        lemma_cover_shrinks(rows, active_columns(s), i, active_columns(t));
    }
}

/// A solution that extends what is committed shows the matrix solvable.
pub proof fn lemma_solved(s: Seq<Node>, solution: Seq<usize>, full: Seq<usize>)
    requires
        committed(s, solution),
        is_solution(full),
        solution.len() <= full.len(),
        full.take(solution.len() as int) == solution,
    ensures
        solvable(s),
{
    let n = solution.len() as int;
    assert(rows_of(full).take(n) =~= rows_of(solution));
    assert forall|h: int| #[trigger]
        active_columns(s).contains(h) <==> is_column(h) && !covered_columns(s).contains(h) by {}
    lemma_cover_rest(rows_of(full), n, covered_columns(s), active_columns(s));
}

/// A list of data nodes in ascending order is no longer than there are
/// data nodes.
proof fn lemma_ascending_bound(l: Seq<int>, i: int)
    requires
        crate::matrix::ascending(l),
        forall|k: int| 0 <= k < l.len() ==> is_data(#[trigger] l[k]),
        0 <= i < l.len(),
    ensures
        l[i] >= 325 + i,
    decreases i,
{
    if i > 0 {
        lemma_ascending_bound(l, i - 1);
    }
}

/// What a well-formed matrix says of its header row.
pub proof fn lemma_header_row(s: Seq<Node>)
    requires
        well_formed(s),
    ensures
        s.len() == 3241,
        links_closed(s),
        is_frame(s),
        is_header_row(s, header_row(s)),
        s[0].right == around(header_row(s), 0, 0),
        forall|i: int|
            0 <= i < header_row(s).len() ==> {
                &&& is_column(#[trigger] header_row(s)[i])
                &&& is_active(s, header_row(s)[i])
                &&& s[header_row(s)[i]].right == around(header_row(s), 0, i + 1)
                &&& s[header_row(s)[i]].size <= 2916
            },
        forall|h: int|
            is_column(h) ==> (#[trigger] is_active(s, h) <==> header_row(s).contains(h)),
{
    reveal(well_formed);
    let l = header_row(s);
    assert(s[around(l, 0, -1)].right == around(l, 0, 0));
    assert forall|i: int| 0 <= i < l.len() implies {
        &&& is_column(#[trigger] l[i])
        &&& is_active(s, l[i])
        &&& s[l[i]].right == around(l, 0, i + 1)
        &&& s[l[i]].size <= 2916
    } by {
        assert(s[around(l, 0, i)].right == around(l, 0, i + 1));
        let m = column_rows(s, l[i]);
        if m.len() > 0 {
            lemma_ascending_bound(m, m.len() - 1);
        }
    }
}

/// The column at the least index has no more rows than any before `n`.
pub proof fn lemma_least_index(s: Seq<Node>, l: Seq<int>, n: int, j: int)
    requires
        0 <= j < n,
    ensures
        0 <= least_index(s, l, n) < n,
        s[l[least_index(s, l, n)]].size <= s[l[j]].size,
    decreases n,
{
    if n > 1 {
        if j < n - 1 {
            lemma_least_index(s, l, n - 1, j);
        } else {
            lemma_least_index(s, l, n - 1, 0);
        }
    }
}

/// With a column without rows in the header row, the search finds
/// nothing.
pub proof fn lemma_empty_column_first(s: Seq<Node>, j: int)
    requires
        well_formed(s),
        0 <= j < header_row(s).len(),
        s[header_row(s)[j]].size == 0,
    ensures
        first_cover(s) is None,
{
    let l = header_row(s);
    lemma_least_index(s, l, l.len() as int, j);
    lemma_header_item(s, least_index(s, l, l.len() as int));
    reveal(well_formed);
}

/// What a well-formed matrix says of position `i` of its header row.
pub proof fn lemma_header_item(s: Seq<Node>, i: int)
    requires
        well_formed(s),
        0 <= i <= header_row(s).len(),
    ensures
        s.len() == 3241,
        s[0].right == around(header_row(s), 0, 0),
        around(header_row(s), 0, i) != 0 <==> i < header_row(s).len(),
        i < header_row(s).len() ==> {
            &&& is_column(header_row(s)[i])
            &&& is_active(s, header_row(s)[i])
            &&& s[header_row(s)[i]].right == around(header_row(s), 0, i + 1)
            &&& s[header_row(s)[i]].size <= 2916
        },
{
    lemma_header_row(s);
}

/// Each column stands once in the header row.
pub proof fn lemma_header_index(s: Seq<Node>, k: int)
    requires
        well_formed(s),
        0 <= k < header_row(s).len(),
    ensures
        header_row(s).index_of(header_row(s)[k]) == k,
{
    reveal(well_formed);
    let l = header_row(s);
    crate::matrix::lemma_ascending_distinct(l, k, l.index_of(l[k]));
}

/// What a well-formed matrix says of the rows of a column of the header
/// row: each is available, and the list is circular through the header.
pub proof fn lemma_column_row(s: Seq<Node>, c: int, a: int)
    requires
        well_formed(s),
        is_column(c),
        -1 <= a < column_rows(s, c).len(),
    ensures
        s.len() == 3241,
        s[around(column_rows(s, c), c, a)].down == around(column_rows(s, c), c, a + 1),
        0 <= a < column_rows(s, c).len() ==> {
            let r = column_rows(s, c)[a];
            &&& is_data(r)
            &&& r != c
            &&& header_of(r) == c
            &&& mate(r, 0) == r
            &&& (is_active(s, c) ==> available(s, row_of(r)))
        },
{
    reveal(well_formed);
    let l = column_rows(s, c);
    if 0 <= a < l.len() {
        let r = l[a];
        assert(linked(s, r));
        lemma_mate(r, 0);
    }
}

/// The links along a row of a well-formed matrix.
pub proof fn lemma_row_links(s: Seq<Node>, r: int, j: int)
    requires
        well_formed(s),
        is_data(r),
        0 <= j < 4,
    ensures
        s.len() == 3241,
        is_data(mate(r, j)),
        s[mate(r, j)].right == mate(r, (j + 1) % 4),
        s[mate(r, j)].left == mate(r, (j + 3) % 4),
        s[mate(r, j)].column_header == header_of(mate(r, j)),
        mate(r, 0) == r,
        j != 0 ==> mate(r, j) != r,
{
    reveal(well_formed);
    lemma_mate(r, j);
    lemma_mate(r, 0);
}

impl DancingLinks {
    /// The column of the header row with the fewest rows, the leftmost of
    /// them if several have as few; `None` if the header row is empty or
    /// one of its columns has no row.
    pub fn choose_column(&self) -> (chosen: Option<usize>)
        requires
            well_formed(self@),
        ensures
            match chosen {
                Some(c) => {
                    let l = header_row(self@);
                    &&& is_column(c as int)
                    &&& is_active(self@, c as int)
                    &&& l.contains(c as int)
                    &&& c == chosen_column(self@)
                    &&& forall|j: int|
                        0 <= j < l.len() ==> self@[#[trigger] l[j]].size >= self@[c as int].size
                    &&& forall|j: int|
                        0 <= j < l.index_of(c as int) ==> self@[#[trigger] l[j]].size
                            > self@[c as int].size
                    &&& self@[c as int].size >= 1
                },
                None => {
                    let l = header_row(self@);
                    l.len() == 0 || exists|j: int|
                        0 <= j < l.len() && self@[#[trigger] l[j]].size == 0
                },
            },
    {
        let ghost s = self@;
        let ghost l = header_row(s);
        proof {
            lemma_header_item(s, 0);
        }
        let mut min_size: usize = usize::MAX;
        let mut min_column: Option<usize> = None;
        let mut current = self.traverse(0, Direction::Right);
        let ghost mut i: int = 0;
        let ghost mut k: int = 0;
        while current != 0
            invariant
                well_formed(s),
                s == self@,
                l == header_row(s),
                0 <= i <= l.len(),
                current == around(l, 0, i),
                forall|j: int| 0 <= j < i ==> s[#[trigger] l[j]].size >= 1,
                forall|j: int| 0 <= j < i ==> s[#[trigger] l[j]].size >= min_size,
                forall|j: int| 0 <= j < k ==> s[#[trigger] l[j]].size > min_size,
                min_column is None ==> i == 0 && min_size == usize::MAX,
                min_column is Some ==> 0 <= k < i && l[k] == min_column->0 && s[l[k]].size
                    == min_size,
                k == least_index(s, l, i),
            decreases l.len() - i,
        {
            proof {
                lemma_header_item(s, i);
            }
            let size = self.get_size(current);
            if size < min_size {
                min_size = size;
                min_column = Some(current);
                proof {
                    k = i;
                }
            }
            if size == 0 {
                return None;
            }
            current = self.traverse(current, Direction::Right);
            proof {
                i = i + 1;
            }
        }
        proof {
            lemma_header_item(s, i);
            if min_column is Some {
                lemma_header_item(s, k);
                lemma_header_index(s, k);
            }
        }
        min_column
    }

    /// Covers the three other columns of the row of `row`, left to right,
    /// the column of `row` itself being covered already.
    fn select_row(&mut self, row: usize, Ghost(s): Ghost<Seq<Node>>)
        requires
            well_formed(s),
            is_data(row as int),
            available(s, row_of(row as int)),
            old(self)@ == chosen_part(s, row as int, 1),
        ensures
            final(self)@ == row_chosen(s, row as int),
    {
        let ghost r = row as int;
        proof {
            lemma_chosen_part(s, r, 1);
            lemma_row_links(chosen_part(s, r, 1), r, 0);
        }
        let mut row_ele = self.traverse(row, Direction::Right);
        let mut j: usize = 1;
        while row_ele != row
            invariant
                well_formed(s),
                is_data(r),
                r == row,
                available(s, row_of(r)),
                1 <= j <= 4,
                row_ele == mate(r, j as int % 4),
                self@ == chosen_part(s, r, j as int),
            decreases 4 - j,
        {
            proof {
                lemma_chosen_part(s, r, j as int);
                lemma_row_links(chosen_part(s, r, j as int), r, j as int % 4);
                if j < 4 {
                    lemma_chosen_part(s, r, j + 1);
                    lemma_row_links(chosen_part(s, r, j + 1), r, j as int);
                }
            }
            let header = self.get_column_header(row_ele);
            self.cover(header);
            row_ele = self.traverse(row_ele, Direction::Right);
            j += 1;
        }
        proof {
            lemma_chosen_part(s, r, j as int);
            lemma_row_links(chosen_part(s, r, j as int), r, j as int % 4);
            if j < 4 {
                lemma_row_links(chosen_part(s, r, j as int), r, j as int);
            }
        }
    }

    /// Uncovers the three other columns of the row of `row`, right to
    /// left, leaving the column of `row` itself covered.
    fn release_row(&mut self, row: usize, Ghost(s): Ghost<Seq<Node>>)
        requires
            well_formed(s),
            is_data(row as int),
            available(s, row_of(row as int)),
            old(self)@ == row_chosen(s, row as int),
        ensures
            final(self)@ == chosen_part(s, row as int, 1),
    {
        let ghost r = row as int;
        proof {
            lemma_chosen_part(s, r, 4);
            lemma_row_links(chosen_part(s, r, 4), r, 0);
        }
        let mut row_ele = self.traverse(row, Direction::Left);
        let mut j: usize = 3;
        while row_ele != row
            invariant
                well_formed(s),
                is_data(r),
                r == row,
                available(s, row_of(r)),
                0 <= j <= 3,
                row_ele == mate(r, j as int),
                self@ == chosen_part(s, r, j + 1),
            decreases j,
        {
            proof {
                lemma_chosen_part(s, r, j + 1);
                lemma_chosen_part(s, r, j as int);
                lemma_row_links(chosen_part(s, r, j + 1), r, 0);
                lemma_row_links(chosen_part(s, r, j + 1), r, j as int);
                lemma_row_links(chosen_part(s, r, j as int), r, j as int);
                assert(covered(chosen_part(s, r, j as int), header_of(mate(r, j as int)))
                    == self@);
            }
            let header = self.get_column_header(row_ele);
            self.uncover(header);
            row_ele = self.traverse(row_ele, Direction::Left);
            j -= 1;
        }
        proof {
            lemma_chosen_part(s, r, j + 1);
            lemma_row_links(chosen_part(s, r, j + 1), r, j as int);
        }
    }

    /// Extends `solution` to an exact cover of the columns still in the
    /// header row, if there is one, and returns it. Where there is none,
    /// the matrix and `solution` are left as they were.
    pub fn search(&mut self, solution: &mut Vec<usize>) -> (result: Result<
        Vec<usize>,
        SudokuError,
    >)
        requires
            well_formed(old(self)@),
            committed(old(self)@, old(solution)@),
        ensures
            match result {
                Ok(full) => {
                    &&& is_solution(full@)
                    &&& old(solution)@.len() <= full@.len()
                    &&& full@.take(old(solution)@.len() as int) == old(solution)@
                    &&& final(solution)@ == full@
                    &&& well_formed(final(self)@)
                },
                Err(e) => {
                    &&& e == SudokuError::Infeasible
                    &&& final(self)@ == old(self)@
                    &&& final(solution)@ == old(solution)@
                },
            },
            result is Ok <==> solvable(old(self)@),
            result is Ok <==> first_cover(old(self)@) is Some,
            result is Ok ==> result->Ok_0@ == old(solution)@ + first_cover(old(self)@)->0,
            result is Ok ==> final(self)@ == all_chosen(
                old(self)@,
                first_cover(old(self)@)->0,
                first_cover(old(self)@)->0.len() as int,
            ),
        decreases header_row(old(self)@).len(),
    {
        let ghost s = self@;
        let ghost sol = solution@;
        proof {
            lemma_header_item(s, 0);
        }
        if self.traverse(0, Direction::Right) == 0 {
            proof {
                lemma_complete(s, sol);
                assert(sol.take(sol.len() as int) =~= sol);
                lemma_solved(s, sol, sol);
            }
            let full = solution.clone();
            return Ok(full);
        }
        let chosen_column = match self.choose_column() {
            Some(c) => c,
            None => {
                proof {
                    let l = header_row(s);
                    let j = choose|j: int| 0 <= j < l.len() && s[#[trigger] l[j]].size == 0;
                    lemma_header_item(s, j);
                    lemma_empty_column(s, l[j]);
                    lemma_empty_column_first(s, j);
                }
                return Err(SudokuError::Infeasible);
            },
        };
        let ghost c = chosen_column as int;
        let ghost l = column_rows(s, c);
        self.cover(chosen_column);
        let ghost s1 = self@;
        proof {
            lemma_covered(s, c);
            lemma_column_row(s1, c, -1);
            lemma_header_item(s, 0);
        }
        let mut row = self.traverse(chosen_column, Direction::Down);
        let ghost mut a: int = 0;
        while row != chosen_column
            invariant
                s == old(self)@,
                sol == old(solution)@,
                well_formed(s),
                well_formed(s1),
                committed(s, sol),
                is_column(c),
                c == chosen_column,
                is_active(s, c),
                s1 == covered(s, c),
                l == column_rows(s, c),
                l == column_rows(s1, c),
                0 <= a <= l.len(),
                row == around(l, c, a),
                self@ == s1,
                solution@ == sol,
                forall|b: int| 0 <= b < a ==> !solvable(#[trigger] row_chosen(s, l[b])),
                header_row(s).len() > 0,
                first_cover(s) == first_cover_from(s, c, a),
            decreases l.len() - a,
        {
            let ghost r = row as int;
            proof {
                lemma_column_row(s, c, -1);
                if a < l.len() {
                    lemma_column_row(s, c, a);
                }
                assert(chosen_part(s, r, 1) == s1) by {
                    reveal_with_fuel(chosen_part, 2);
                }
                lemma_commit(s, sol, row);
                lemma_row_chosen(s, r);
            }
            solution.push(row);
            self.select_row(row, Ghost(s));
            match self.search(solution) {
                Ok(full) => {
                    proof {
                        assert(full@.take(sol.len() as int) =~= full@.take(sol.len() as int + 1).take(
                            sol.len() as int,
                        ));
                        assert(sol.push(row).take(sol.len() as int) =~= sol);
                        lemma_solved(s, sol, full@);
                        let rest = first_cover(row_chosen(s, r))->0;
                        lemma_all_chosen_front(s, row, rest, rest.len() as int);
                    }
                    return Ok(full);
                },
                Err(_) => {
                    solution.pop();
                    self.release_row(row, Ghost(s));
                },
            }
            proof {
                lemma_column_row(s1, c, a);
            }
            row = self.traverse(row, Direction::Down);
            proof {
                a = a + 1;
            }
        }
        proof {
            if a < l.len() {
                lemma_column_row(s, c, a);
            }
        }
        self.uncover(chosen_column);
        proof {
            lemma_branches_exhausted(s, c);
        }
        Err(SudokuError::Infeasible)
    }

    /// Finds an exact cover of the whole matrix, none of whose columns is
    /// covered. There always is one.
    pub fn solve(&mut self) -> (result: Result<Vec<usize>, SudokuError>)
        requires
            well_formed(old(self)@),
            nothing_covered(old(self)@),
        ensures
            match result {
                Ok(full) => {
                    &&& is_solution(full@)
                    &&& crate::board::is_valid_grid(crate::decode::decoded(full@))
                    &&& first_cover(old(self)@) == Some(full@)
                    &&& final(self)@ == all_chosen(old(self)@, full@, full@.len() as int)
                    &&& well_formed(final(self)@)
                },
                Err(_) => false,
            },
    {
        let mut solution: Vec<usize> = Vec::new();
        proof {
            crate::pattern::lemma_fresh_is_solvable(self@);
        }
        let result = self.search(&mut solution);
        proof {
            crate::decode::lemma_solution_is_valid(result->Ok_0@);
        }
        result
    }
}

} // verus!
