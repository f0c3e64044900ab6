//! Exact covers: what a solution is, apart from how it is found.

use crate::layout::{
    family_of_column, header_for, is_column, is_family, is_placement, lemma_column_of, lemma_meets,
    meets, row_of,
};
use crate::matrix::is_active;
use crate::node::Node;
use vstd::prelude::*;

verus! {

/// Every column of the matrix.
pub open spec fn all_columns() -> Set<int> {
    Set::new(|h: int| is_column(h))
}

/// The columns that are in the header row of `s`.
pub open spec fn active_columns(s: Seq<Node>) -> Set<int> {
    Set::new(|h: int| is_column(h) && is_active(s, h))
}

/// The columns that are out of the header row of `s`.
pub open spec fn covered_columns(s: Seq<Node>) -> Set<int> {
    Set::new(|h: int| is_column(h) && !is_active(s, h))
}

/// Placements `p` and `q` share no column.
pub open spec fn apart(p: int, q: int) -> bool {
    forall|f: int| is_family(f) ==> #[trigger] header_for(p, f) != header_for(q, f)
}

/// The placements `rows` meet each column of `cols` exactly once and no
/// column outside `cols`.
pub open spec fn is_exact_cover(rows: Seq<int>, cols: Set<int>) -> bool {
    &&& forall|i: int| 0 <= i < rows.len() ==> is_placement(#[trigger] rows[i])
    &&& forall|i: int, f: int|
        0 <= i < rows.len() && is_family(f) ==> cols.contains(#[trigger] header_for(rows[i], f))
    &&& forall|h: int| #[trigger]
        cols.contains(h) ==> exists|i: int| 0 <= i < rows.len() && #[trigger] meets(rows[i], h)
    &&& forall|i: int, j: int| 0 <= i < j < rows.len() ==> #[trigger] apart(rows[i], rows[j])
}

/// Some choice of rows meets every column still in the header row of `s`
/// exactly once, and no covered column.
pub open spec fn solvable(s: Seq<Node>) -> bool {
    exists|rows: Seq<int>| #[trigger] is_exact_cover(rows, active_columns(s))
}

/// The placements that the rows of the nodes `solution` stand for.
pub open spec fn rows_of(solution: Seq<usize>) -> Seq<int> {
    Seq::new(solution.len(), |i: int| row_of(solution[i] as int))
}

/// A cover grows by a row that meets none of the columns met so far.
pub proof fn lemma_cover_grows(rows: Seq<int>, cols: Set<int>, p: int, more: Set<int>)
    requires
        is_exact_cover(rows, cols),
        is_placement(p),
        forall|f: int| is_family(f) ==> !cols.contains(#[trigger] header_for(p, f)),
        forall|h: int| #[trigger]
            more.contains(h) <==> cols.contains(h) || (is_column(h) && meets(p, h)),
    ensures
        is_exact_cover(rows.push(p), more),
{
    let r2 = rows.push(p);
    assert forall|i: int, f: int| 0 <= i < r2.len() && is_family(f) implies more.contains(
        #[trigger] header_for(r2[i], f),
    ) by {
        if i >= rows.len() {
            lemma_column_of(p, f);
        }
    }
    assert forall|h: int| #[trigger] more.contains(h) implies exists|i: int|
        0 <= i < r2.len() && #[trigger] meets(r2[i], h) by {
        if cols.contains(h) {
            let i = choose|i: int| 0 <= i < rows.len() && #[trigger] meets(rows[i], h);
            assert(meets(r2[i], h));
        } else {
            assert(meets(r2[rows.len() as int], h));
        }
    }
    assert forall|i: int, j: int| 0 <= i < j < r2.len() implies #[trigger] apart(r2[i], r2[j]) by {
        if j >= rows.len() {
            assert forall|f: int| is_family(f) implies #[trigger] header_for(r2[i], f)
                != header_for(r2[j], f) by {}
        }
    }
    assert forall|i: int| 0 <= i < r2.len() implies is_placement(#[trigger] r2[i]) by {}
}

/// A cover without one of its rows covers what that row does not meet.
pub proof fn lemma_cover_shrinks(rows: Seq<int>, cols: Set<int>, i: int, fewer: Set<int>)
    requires
        is_exact_cover(rows, cols),
        0 <= i < rows.len(),
        forall|h: int| cols.contains(h) ==> is_column(h),
        forall|h: int| #[trigger] fewer.contains(h) <==> cols.contains(h) && !meets(rows[i], h),
    ensures
        is_exact_cover(rows.remove(i), fewer),
{
    let p = rows[i];
    let r2 = rows.remove(i);
    assert forall|j: int, f: int| 0 <= j < r2.len() && is_family(f) implies fewer.contains(
        #[trigger] header_for(r2[j], f),
    ) by {
        let j1 = if j < i {
            j
        } else {
            j + 1
        };
        let h = header_for(rows[j1], f);
        lemma_meets(p, h);
        lemma_column_of(rows[j1], f);
        if j1 < i {
            assert(apart(rows[j1], rows[i]));
        } else {
            assert(apart(rows[i], rows[j1]));
        }
    }
    assert forall|h: int| #[trigger] fewer.contains(h) implies exists|j: int|
        0 <= j < r2.len() && #[trigger] meets(r2[j], h) by {
        let j1 = choose|j1: int| 0 <= j1 < rows.len() && #[trigger] meets(rows[j1], h);
        let j = if j1 < i {
            j1
        } else {
            j1 - 1
        };
        assert(meets(r2[j], h));
    }
    assert forall|a: int, b: int| 0 <= a < b < r2.len() implies #[trigger] apart(r2[a], r2[b]) by {}
    assert forall|j: int| 0 <= j < r2.len() implies is_placement(#[trigger] r2[j]) by {}
}

/// Of a cover of everything, what lies behind a cover of some columns
/// covers the others.
pub proof fn lemma_cover_rest(rows: Seq<int>, n: int, cols: Set<int>, rest: Set<int>)
    requires
        is_exact_cover(rows, all_columns()),
        0 <= n <= rows.len(),
        is_exact_cover(rows.take(n), cols),
        forall|h: int| #[trigger] rest.contains(h) <==> is_column(h) && !cols.contains(h),
    ensures
        is_exact_cover(rows.skip(n), rest),
{
    let a = rows.take(n);
    let b = rows.skip(n);
    assert forall|j: int, f: int| 0 <= j < b.len() && is_family(f) implies rest.contains(
        #[trigger] header_for(b[j], f),
    ) by {
        let h = header_for(rows[n + j], f);
        if cols.contains(h) {
            let i = choose|i: int| 0 <= i < a.len() && #[trigger] meets(a[i], h);
            lemma_meets(a[i], h);
            lemma_column_of(rows[n + j], f);
            assert(apart(rows[i], rows[n + j]));
        }
    }
    assert forall|h: int| #[trigger] rest.contains(h) implies exists|j: int|
        0 <= j < b.len() && #[trigger] meets(b[j], h) by {
        assert(all_columns().contains(h));
        let i = choose|i: int| 0 <= i < rows.len() && #[trigger] meets(rows[i], h);
        lemma_meets(rows[i], h);
        if i < n {
            assert(cols.contains(header_for(a[i], family_of_column(h))));
        }
        assert(meets(b[i - n], h));
    }
    assert forall|i: int, j: int| 0 <= i < j < b.len() implies #[trigger] apart(b[i], b[j]) by {}
    assert forall|j: int| 0 <= j < b.len() implies is_placement(#[trigger] b[j]) by {}
}

} // verus!
