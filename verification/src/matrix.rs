//! What it means for a node store to be the constraint matrix of the 9x9
//! puzzle, at any moment of a search: the header row and every column are
//! circular lists, sizes count what is linked, and a row is linked into
//! the columns that remain exactly while none of its own is covered.

use crate::layout::{
    header_for, header_of, is_column, is_data, is_family, is_placement, lemma_node_of, mate,
    node_of, row_of,
};
use crate::links::links_closed;
use crate::node::{Node, RowInfo};
use vstd::prelude::*;

verus! {

/// The item at position `i` of the circular list that `l` forms with
/// `head`: `l[i]` inside the list, `head` at either end.
pub open spec fn around(l: Seq<int>, head: int, i: int) -> int {
    if 0 <= i < l.len() {
        l[i]
    } else {
        head
    }
}

/// Each item of `l` is greater than those before it.
pub open spec fn ascending(l: Seq<int>) -> bool {
    forall|i: int, j: int| 0 <= i < j < l.len() ==> l[i] < l[j]
}

/// `l` lists, left to right, the column headers that the root's row links.
pub open spec fn is_header_row(s: Seq<Node>, l: Seq<int>) -> bool {
    &&& ascending(l)
    &&& forall|i: int| 0 <= i < l.len() ==> is_column(#[trigger] l[i])
    &&& forall|i: int, j: int|
        -1 <= i < l.len() && j == i + 1 ==> s[#[trigger] around(l, 0, i)].right
            == #[trigger] around(l, 0, j) && s[around(l, 0, j)].left == around(l, 0, i)
}

/// `l` lists, top to bottom, the data nodes that the column under header
/// `h` links, and the header's size counts them.
pub open spec fn is_column_list(s: Seq<Node>, h: int, l: Seq<int>) -> bool {
    &&& ascending(l)
    &&& s[h].size == l.len()
    &&& 0 <= h < s.len()
    &&& forall|i: int|
        0 <= i < l.len() ==> is_data(#[trigger] l[i]) && l[i] < s.len() && header_of(l[i]) == h
    &&& forall|i: int, j: int|
        -1 <= i < l.len() && j == i + 1 ==> s[#[trigger] around(l, h, i)].down
            == #[trigger] around(l, h, j) && s[around(l, h, j)].up == around(l, h, i)
}

/// The column headers in the header row of `s`, left to right.
pub open spec fn header_row(s: Seq<Node>) -> Seq<int> {
    choose|l: Seq<int>| is_header_row(s, l)
}

/// The data nodes linked into the column under header `h`, top to bottom.
pub open spec fn column_rows(s: Seq<Node>, h: int) -> Seq<int> {
    choose|l: Seq<int>| is_column_list(s, h, l)
}

/// The column under header `h` is in the header row: its left neighbour
/// links back to it.
pub open spec fn is_active(s: Seq<Node>, h: int) -> bool {
    s[s[h].left as int].right == h
}

/// Every column of `s` is in the header row.
pub open spec fn nothing_covered(s: Seq<Node>) -> bool {
    forall|h: int| is_column(h) ==> #[trigger] is_active(s, h)
}

/// None of the four columns of placement `p` is covered.
pub open spec fn available(s: Seq<Node>, p: int) -> bool {
    forall|f: int| is_family(f) ==> is_active(s, #[trigger] header_for(p, f))
}

/// Data node `x` is linked into its column.
pub open spec fn linked(s: Seq<Node>, x: int) -> bool {
    column_rows(s, header_of(x)).contains(x)
}

/// The candidate that the row of data node `x` stands for.
pub open spec fn info_of(x: int) -> RowInfo {
    let p = row_of(x);
    RowInfo { row: (p / 81) as usize, col: ((p / 9) % 9) as usize, val: (p % 9 + 1) as usize }
}

/// Every node of a row carries the candidate of the row.
pub proof fn lemma_info_of(p: int, f: int)
    requires
        is_placement(p),
        is_family(f),
    ensures
        info_of(node_of(p, f)) == (RowInfo {
            row: (p / 81) as usize,
            col: ((p / 9) % 9) as usize,
            val: (p % 9 + 1) as usize,
        }),
{
    lemma_node_of(p, f);
}

/// What never changes once the matrix is built: its extent, which nodes
/// are headers, each node's column and candidate, and the four-node rows.
pub open spec fn is_frame(s: Seq<Node>) -> bool {
    &&& s.len() == 3241
    &&& forall|x: int|
        0 <= x < 325 ==> {
            &&& (#[trigger] s[x]).is_header
            &&& s[x].row_info is None
            &&& s[x].column_header == x
            &&& s[x].left < 325
            &&& s[x].right < 325
        }
    &&& forall|x: int|
        is_data(x) ==> {
            &&& !(#[trigger] s[x]).is_header
            &&& s[x].row_info == Some(info_of(x))
            &&& s[x].column_header == header_of(x)
            &&& s[x].left == mate(x, 3)
            &&& s[x].right == mate(x, 1)
            &&& s[x].size == 0
        }
}

/// `s` is the matrix in a state that building and covering can reach.
#[verifier::opaque]
pub open spec fn well_formed(s: Seq<Node>) -> bool {
    &&& is_frame(s)
    &&& links_closed(s)
    &&& is_header_row(s, header_row(s))
    &&& forall|h: int| is_column(h) ==> is_column_list(s, h, #[trigger] column_rows(s, h))
    &&& forall|h: int| is_column(h) ==> (#[trigger] is_active(s, h) <==> header_row(s).contains(h))
    &&& forall|x: int|
        is_data(x) && is_active(s, header_of(x)) ==> (#[trigger] linked(s, x) <==> available(
            s,
            row_of(x),
        ))
}

/// Two lists that both describe the header row agree up to position `i`.
proof fn lemma_header_row_prefix(s: Seq<Node>, l1: Seq<int>, l2: Seq<int>, i: int)
    requires
        is_header_row(s, l1),
        is_header_row(s, l2),
        -1 <= i <= l1.len(),
        i <= l2.len(),
    ensures
        around(l1, 0, i) == around(l2, 0, i),
    decreases i + 1,
{
    if i >= 0 {
        lemma_header_row_prefix(s, l1, l2, i - 1);
    }
}

/// A store has at most one header row.
pub proof fn lemma_header_row_unique(s: Seq<Node>, l: Seq<int>)
    requires
        is_header_row(s, l),
    ensures
        header_row(s) == l,
{
    let m = header_row(s);
    let n = if l.len() <= m.len() {
        l.len() as int
    } else {
        m.len() as int
    };
    lemma_header_row_prefix(s, l, m, n);
    assert forall|i: int| 0 <= i < l.len() implies l[i] == m[i] by {
        lemma_header_row_prefix(s, l, m, i);
    }
}

/// Two lists that both describe a column agree up to position `i`.
proof fn lemma_column_prefix(s: Seq<Node>, h: int, l1: Seq<int>, l2: Seq<int>, i: int)
    requires
        is_column_list(s, h, l1),
        is_column_list(s, h, l2),
        -1 <= i <= l1.len(),
    ensures
        around(l1, h, i) == around(l2, h, i),
    decreases i + 1,
{
    if i >= 0 {
        lemma_column_prefix(s, h, l1, l2, i - 1);
    }
}

/// A column has at most one list of rows.
pub proof fn lemma_column_unique(s: Seq<Node>, h: int, l: Seq<int>)
    requires
        is_column_list(s, h, l),
    ensures
        column_rows(s, h) == l,
{
    let m = column_rows(s, h);
    assert forall|i: int| 0 <= i < l.len() implies l[i] == m[i] by {
        lemma_column_prefix(s, h, l, m, i);
    }
}

/// A list stays the list of its column when the store changes elsewhere.
pub proof fn lemma_column_list_kept(s: Seq<Node>, t: Seq<Node>, h: int, l: Seq<int>)
    requires
        is_column_list(s, h, l),
        s.len() <= t.len(),
        forall|y: int|
            0 <= y < s.len() ==> (#[trigger] t[y]).up == s[y].up && t[y].down == s[y].down
                && t[y].size == s[y].size,
    ensures
        is_column_list(t, h, l),
{
    assert forall|i: int, j: int| -1 <= i < l.len() && j == i + 1 implies t[#[trigger] around(
        l,
        h,
        i,
    )].down == #[trigger] around(l, h, j) && t[around(l, h, j)].up == around(l, h, i) by {}
}

/// The header row stays what it is when no header's row links change.
pub proof fn lemma_header_row_kept(s: Seq<Node>, t: Seq<Node>, l: Seq<int>)
    requires
        is_header_row(s, l),
        325 <= s.len() <= t.len(),
        forall|y: int|
            0 <= y < 325 ==> (#[trigger] t[y]).left == s[y].left && t[y].right == s[y].right,
    ensures
        is_header_row(t, l),
{
    assert forall|i: int, j: int| -1 <= i < l.len() && j == i + 1 implies t[#[trigger] around(
        l,
        0,
        i,
    )].right == #[trigger] around(l, 0, j) && t[around(l, 0, j)].left == around(l, 0, i) by {}
}

/// An ascending list repeats nothing.
pub proof fn lemma_ascending_distinct(l: Seq<int>, i: int, j: int)
    requires
        ascending(l),
        0 <= i < l.len(),
        0 <= j < l.len(),
        l[i] == l[j],
    ensures
        i == j,
{
}

/// Different positions of an ascending list hold different items.
pub proof fn lemma_ascending_apart(l: Seq<int>, i: int, j: int)
    requires
        ascending(l),
        0 <= i < l.len(),
        0 <= j < l.len(),
    ensures
        i != j ==> l[i] != l[j],
{
}

} // verus!
