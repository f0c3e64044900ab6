//! A completed grid for every first row: the rows below repeat the first,
//! shifted by three per row of a band and by one per band. It shows that
//! the empty puzzle, and every puzzle that gives the first row alone, has
//! a solution.

use crate::board::{givens_of, unit_cell};
use crate::exact::{all_columns, apart, is_exact_cover, rows_of, solvable};
use crate::layout::{
    header_for, is_data, is_family, is_placement, lemma_cell_header, lemma_column_of,
    lemma_headers, lemma_node_of, lemma_unit_cell, lemma_unit_header, lemma_unit_position, meets,
    node_of, row_of, unit_header, unit_of, unit_position,
};
use crate::matrix::{nothing_covered, well_formed};
use crate::node::{Node, RowInfo};
use crate::random::{digits, is_arrangement};
use crate::search::{is_solution, lemma_solved};
use crate::seed::{all_candidates, clash, given_nodes, lemma_seeded, placement_of, seeded};
use vstd::prelude::*;

verus! {

/// The position in the first row whose digit the pattern repeats in
/// cell `i`.
pub open spec fn shift(i: int) -> int {
    let r = i / 9;
    let c = i % 9;
    (3 * (r % 3) + r / 3 + c) % 9
}

/// The placements of the pattern grid whose first row is `first`.
pub open spec fn pattern_rows(first: Seq<u8>) -> Seq<int> {
    Seq::new(81, |i: int| i * 9 + first[shift(i)] - 1)
}

/// The nodes that stand for the pattern grid whose first row is `first`.
pub open spec fn pattern_nodes(first: Seq<u8>) -> Seq<usize> {
    Seq::new(81, |i: int| node_of(pattern_rows(first)[i], 0) as usize)
}

/// The givens of a board that holds `first` as its first row and nothing
/// else.
pub open spec fn first_row_givens(first: Seq<u8>) -> Seq<RowInfo> {
    Seq::new(9, |c: int| RowInfo { row: 0, col: c as usize, val: first[c] as usize })
}

/// Adding different amounts below 9 to `base` gives different remainders
/// modulo 9.
proof fn lemma_wraps_apart(base: int, j: int, k: int)
    requires
        0 <= base,
        0 <= j < 9,
        0 <= k < 9,
        (base + j) % 9 == (base + k) % 9,
    ensures
        j == k,
{
    let a = base + j;
    let b = base + k;
    assert(a == 9 * (a / 9) + a % 9);
    assert(b == 9 * (b / 9) + b % 9);
    assert(j - k == 9 * (a / 9 - b / 9));
}

proof fn lemma_shift_apart_row(u: int, j: int, k: int)
    requires
        0 <= u < 9,
        0 <= j < 9,
        0 <= k < 9,
        shift(unit_cell(u, j)) == shift(unit_cell(u, k)),
    ensures
        j == k,
{
    lemma_unit_cell(u, j);
    lemma_unit_cell(u, k);
    let a = unit_cell(u, j);
    let b = unit_cell(u, k);
    assert(a / 9 == u && a % 9 == j);
    assert(b / 9 == u && b % 9 == k);
    lemma_wraps_apart(3 * (u % 3) + u / 3, j, k);
}

proof fn lemma_shift_apart_column(u: int, j: int, k: int)
    requires
        9 <= u < 18,
        0 <= j < 9,
        0 <= k < 9,
        shift(unit_cell(u, j)) == shift(unit_cell(u, k)),
    ensures
        j == k,
{
    lemma_unit_cell(u, j);
    lemma_unit_cell(u, k);
    let a = unit_cell(u, j);
    let b = unit_cell(u, k);
    assert(a / 9 == j && a % 9 == u - 9);
    assert(b / 9 == k && b % 9 == u - 9);
    let mj = 3 * (j % 3) + j / 3;
    let mk = 3 * (k % 3) + k / 3;
    assert(0 <= mj < 9 && 0 <= mk < 9);
    lemma_wraps_apart(u - 9, mj, mk);
}

proof fn lemma_shift_apart_box(u: int, j: int, k: int)
    requires
        18 <= u < 27,
        0 <= j < 9,
        0 <= k < 9,
        shift(unit_cell(u, j)) == shift(unit_cell(u, k)),
    ensures
        j == k,
{
    let x = u - 18;
    let base = x / 3 + 3 * (x % 3);
    lemma_unit_cell(u, j);
    lemma_unit_cell(u, k);
    let a = unit_cell(u, j);
    let b = unit_cell(u, k);
    let rj = (x / 3) * 3 + j / 3;
    let cj = (x % 3) * 3 + j % 3;
    let rk = (x / 3) * 3 + k / 3;
    let ck = (x % 3) * 3 + k % 3;
    assert(a == rj * 9 + cj);
    assert(b == rk * 9 + ck);
    assert(a / 9 == rj && a % 9 == cj);
    assert(b / 9 == rk && b % 9 == ck);
    assert(rj % 3 == j / 3 && rj / 3 == x / 3);
    assert(rk % 3 == k / 3 && rk / 3 == x / 3);
    assert(3 * (rj % 3) + rj / 3 + cj == base + j);
    assert(3 * (rk % 3) + rk / 3 + ck == base + k);
    lemma_wraps_apart(base, j, k);
}

/// Within a unit, the pattern draws from each position of the first row
/// once: no two cells of the unit draw from the same.
proof fn lemma_shift_apart(u: int, j: int, k: int)
    requires
        0 <= u < 27,
        0 <= j < 9,
        0 <= k < 9,
        shift(unit_cell(u, j)) == shift(unit_cell(u, k)),
    ensures
        j == k,
{
    if u < 9 {
        lemma_shift_apart_row(u, j, k);
    } else if u < 18 {
        lemma_shift_apart_column(u, j, k);
    } else {
        lemma_shift_apart_box(u, j, k);
    }
}

/// Adding `k` to `base` modulo 9 reaches `t` for the right `k`.
proof fn lemma_wraps(base: int, t: int) -> (k: int)
    requires
        0 <= base < 9,
        0 <= t < 9,
    ensures
        0 <= k < 9,
        (base + k) % 9 == t,
{
    if t >= base {
        t - base
    } else {
        t - base + 9
    }
}

/// Within a row, some cell draws from position `t` of the first row.
proof fn lemma_shift_onto_row(u: int, t: int) -> (k: int)
    requires
        0 <= u < 9,
        0 <= t < 9,
    ensures
        0 <= k < 9,
        shift(unit_cell(u, k)) == t,
{
    let base = 3 * (u % 3) + u / 3;
    let k = lemma_wraps(base, t);
    lemma_unit_cell(u, k);
    let a = unit_cell(u, k);
    assert(a / 9 == u && a % 9 == k);
    k
}

/// Within a column, some cell draws from position `t` of the first row.
proof fn lemma_shift_onto_column(u: int, t: int) -> (k: int)
    requires
        9 <= u < 18,
        0 <= t < 9,
    ensures
        0 <= k < 9,
        shift(unit_cell(u, k)) == t,
{
    let c = u - 9;
    let m = lemma_wraps(c, t);
    let k = 3 * (m % 3) + m / 3;
    lemma_unit_cell(u, k);
    let a = unit_cell(u, k);
    assert(a / 9 == k && a % 9 == c);
    assert(k % 3 == m / 3 && k / 3 == m % 3);
    assert(3 * (k % 3) + k / 3 == m);
    k
}

/// Within a box, some cell draws from position `t` of the first row.
proof fn lemma_shift_onto_box(u: int, t: int) -> (k: int)
    requires
        18 <= u < 27,
        0 <= t < 9,
    ensures
        0 <= k < 9,
        shift(unit_cell(u, k)) == t,
{
    let x = u - 18;
    let base = x / 3 + 3 * (x % 3);
    let k = lemma_wraps(base, t);
    lemma_unit_cell(u, k);
    let a = unit_cell(u, k);
    let r = (x / 3) * 3 + k / 3;
    let c = (x % 3) * 3 + k % 3;
    assert(a == r * 9 + c);
    assert(a / 9 == r && a % 9 == c);
    assert(r % 3 == k / 3 && r / 3 == x / 3);
    assert(3 * (r % 3) + r / 3 + c == base + k);
    k
}

/// Within a unit, some cell draws from position `t` of the first row.
proof fn lemma_shift_onto(u: int, t: int) -> (k: int)
    requires
        0 <= u < 27,
        0 <= t < 9,
    ensures
        0 <= k < 9,
        shift(unit_cell(u, k)) == t,
{
    if u < 9 {
        lemma_shift_onto_row(u, t)
    } else if u < 18 {
        lemma_shift_onto_column(u, t)
    } else {
        lemma_shift_onto_box(u, t)
    }
}

/// The first row of digits, position by position.
proof fn lemma_first_row(first: Seq<u8>, i: int)
    requires
        is_arrangement(first, digits()),
        0 <= i < 81,
    ensures
        0 <= shift(i) < 9,
        1 <= first[shift(i)] <= 9,
        is_placement(pattern_rows(first)[i]),
        pattern_rows(first)[i] / 9 == i,
        pattern_rows(first)[i] % 9 == first[shift(i)] - 1,
{
    let t = shift(i);
    assert(digits().contains(first[t]));
    let w = choose|w: int| 0 <= w < digits().len() && digits()[w] == first[t];
    assert(digits()[w] == w + 1);
}

/// The pattern grid is an exact cover of the whole matrix.
pub proof fn lemma_pattern_covers(first: Seq<u8>)
    requires
        is_arrangement(first, digits()),
    ensures
        is_exact_cover(pattern_rows(first), all_columns()),
{
    let rows = pattern_rows(first);
    assert forall|i: int| 0 <= i < rows.len() implies is_placement(#[trigger] rows[i]) by {
        lemma_first_row(first, i);
    }
    assert forall|i: int, f: int| 0 <= i < rows.len() && is_family(f) implies all_columns().contains(
        #[trigger] header_for(rows[i], f),
    ) by {
        lemma_first_row(first, i);
        lemma_column_of(rows[i], f);
    }
    assert forall|h: int| #[trigger] all_columns().contains(h) implies exists|i: int|
        0 <= i < rows.len() && #[trigger] meets(rows[i], h) by {
        if h <= 81 {
            let i = h - 1;
            lemma_first_row(first, i);
            lemma_cell_header(rows[i], i);
            assert(meets(rows[i], h));
        } else {
            let u = (h - 82) / 9;
            let v = (h - 82) % 9 + 1;
            assert(h == unit_header(u, v));
            assert(first.contains(digits()[v - 1]));
            let t = choose|t: int| 0 <= t < first.len() && first[t] == digits()[v - 1];
            let k = lemma_shift_onto(u, t);
            let i = unit_cell(u, k);
            lemma_unit_cell(u, k);
            lemma_first_row(first, i);
            lemma_unit_header(rows[i], u, v);
            assert(meets(rows[i], h));
        }
    }
    assert forall|i: int, j: int| 0 <= i < j < rows.len() implies #[trigger] apart(
        rows[i],
        rows[j],
    ) by {
        lemma_first_row(first, i);
        lemma_first_row(first, j);
        lemma_headers(rows[i]);
        lemma_headers(rows[j]);
        assert forall|f: int| is_family(f) implies #[trigger] header_for(rows[i], f) != header_for(
            rows[j],
            f,
        ) by {
            if f >= 1 && header_for(rows[i], f) == header_for(rows[j], f) {
                let u = unit_of(f, i);
                assert(unit_of(f, j) == u);
                assert(first[shift(i)] == first[shift(j)]);
                if shift(i) < shift(j) {
                    assert(first[shift(i)] != first[shift(j)]);
                }
                if shift(j) < shift(i) {
                    assert(first[shift(j)] != first[shift(i)]);
                }
                lemma_unit_position(u, i);
                lemma_unit_position(u, j);
                lemma_shift_apart(u, unit_position(u, i), unit_position(u, j));
            }
        }
    }
}

/// The nodes of the pattern grid are a solution.
pub proof fn lemma_pattern_is_solution(first: Seq<u8>)
    requires
        is_arrangement(first, digits()),
    ensures
        is_solution(pattern_nodes(first)),
        rows_of(pattern_nodes(first)) == pattern_rows(first),
{
    let nodes = pattern_nodes(first);
    let rows = pattern_rows(first);
    assert forall|i: int| 0 <= i < 81 implies is_data(#[trigger] nodes[i] as int) && row_of(
        nodes[i] as int,
    ) == rows[i] by {
        lemma_first_row(first, i);
        lemma_node_of(rows[i], 0);
    }
    assert(rows_of(nodes) =~= rows);
    lemma_pattern_covers(first);
}

/// A matrix with nothing covered has a solution.
pub proof fn lemma_fresh_is_solvable(s: Seq<Node>)
    requires
        well_formed(s),
        nothing_covered(s),
    ensures
        solvable(s),
{
    let first = digits();
    assert(is_arrangement(first, digits())) by {
        assert forall|k: int| 0 <= k < 9 implies first.contains(#[trigger] digits()[k]) by {
            assert(first[k] == digits()[k]);
        }
    }
    lemma_pattern_is_solution(first);
    let none = Seq::<usize>::empty();
    assert(rows_of(none) =~= Seq::<int>::empty());
    assert(is_exact_cover(rows_of(none), crate::exact::covered_columns(s)));
    assert(pattern_nodes(first).take(0) =~= none);
    lemma_solved(s, none, pattern_nodes(first));
}

/// The givens of a board that holds a first row and nothing else.
proof fn lemma_first_row_givens(cells: Seq<u8>, first: Seq<u8>, n: int)
    requires
        cells.len() == 81,
        first.len() == 9,
        forall|c: int| 0 <= c < 9 ==> cells[c] == first[c] && first[c] != 0,
        forall|i: int| 9 <= i < 81 ==> cells[i] == 0,
        0 <= n <= 81,
    ensures
        givens_of(cells, n) == first_row_givens(first).take(
            if n < 9 {
                n
            } else {
                9
            },
        ),
    decreases n,
{
    let g = first_row_givens(first);
    if n > 0 {
        lemma_first_row_givens(cells, first, n - 1);
        if n <= 9 {
            assert(g.take(n) =~= g.take(n - 1).push(g[n - 1]));
            assert((n - 1) / 9 == 0 && (n - 1) % 9 == n - 1);
        }
    } else {
        assert(g.take(0) =~= Seq::<RowInfo>::empty());
    }
}

/// A matrix with nothing covered, seeded with any first row of the nine
/// digits, has a solution: the givens do not clash, and what is left
/// after committing them is solvable.
pub proof fn lemma_first_row_is_solvable(s: Seq<Node>, cells: Seq<u8>, first: Seq<u8>)
    requires
        well_formed(s),
        nothing_covered(s),
        is_arrangement(first, digits()),
        cells.len() == 81,
        forall|c: int| 0 <= c < 9 ==> cells[c] == first[c],
        forall|i: int| 9 <= i < 81 ==> cells[i] == 0,
    ensures
        givens_of(cells, 81) == first_row_givens(first),
        all_candidates(givens_of(cells, 81), 9),
        !clash(givens_of(cells, 81), 9),
        solvable(seeded(s, givens_of(cells, 81), 9)),
        given_nodes(givens_of(cells, 81)) == pattern_nodes(first).take(9),
{
    let g = first_row_givens(first);
    let rows = pattern_rows(first);
    assert forall|c: int| 0 <= c < 9 implies first[c] != 0 && 1 <= first[c] <= 9 && shift(c) == c by {
        lemma_first_row(first, c);
    }
    lemma_first_row_givens(cells, first, 81);
    assert(g.take(9) =~= g);
    lemma_pattern_is_solution(first);
    assert forall|c: int| 0 <= c < 9 implies placement_of(#[trigger] g[c]) == rows[c] by {}
    assert(all_candidates(g, 9));
    if clash(g, 9) {
        let (j, k) = choose|j: int, k: int|
            0 <= j < k < 9 && !apart(#[trigger] placement_of(g[j]), #[trigger] placement_of(g[k]));
        assert(apart(rows[j], rows[k]));
    }
    lemma_seeded(s, g);
    assert(given_nodes(g) =~= pattern_nodes(first).take(9));
    lemma_solved(seeded(s, g, 9), given_nodes(g), pattern_nodes(first));
}

} // verus!
