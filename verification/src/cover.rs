//! Covering a column and uncovering it again.
//!
//! To cover a column is to take its header out of the header row and then,
//! for each row linked into the column from top to bottom, to take every
//! other node of that row out of its own column. To uncover is to undo
//! this, step for step, in reverse.

use crate::layout::{
    family_of, family_of_column, header_for, header_of, is_column, is_data, is_family,
    is_placement, lemma_column_of, lemma_data_node, lemma_mate, lemma_meets, lemma_node_of, mate,
    meets, node_of, row_of,
};
use crate::links::{
    lemma_relink_unlink, links_closed, node_closed, relink_horizontal, relink_vertical,
    unlink_horizontal, unlink_vertical, with_size, DancingLinks,
};
use crate::matrix::{
    around, ascending, available, column_rows, header_row, is_active, is_column_list, is_frame,
    is_header_row, lemma_ascending_apart, lemma_ascending_distinct, lemma_column_list_kept,
    lemma_column_unique, lemma_header_row_unique, linked, well_formed,
};
use crate::node::{Direction, Node};
use vstd::prelude::*;

verus! {

/// Data node `y` taken out of its column, which counts one row less.
pub open spec fn detached(s: Seq<Node>, y: int) -> Seq<Node> {
    let t = unlink_vertical(s, y);
    let h = s[y].column_header as int;
    with_size(t, h, (t[h].size - 1) as usize)
}

/// Data node `y` put back into its column, which counts one row more.
pub open spec fn attached(s: Seq<Node>, y: int) -> Seq<Node> {
    let t = relink_vertical(s, y);
    let h = s[y].column_header as int;
    with_size(t, h, (t[h].size + 1) as usize)
}

/// The nodes that covering takes out for the rows `l` of a column: for
/// each row in turn, the three other nodes of the row, left to right.
pub open spec fn targets(l: Seq<int>) -> Seq<int> {
    Seq::new(3 * l.len(), |k: int| mate(l[k / 3], k % 3 + 1))
}

/// `s` with the first `k` of `ys` detached, in order.
pub open spec fn detached_all(s: Seq<Node>, ys: Seq<int>, k: int) -> Seq<Node>
    decreases k,
{
    if k <= 0 {
        s
    } else {
        detached(detached_all(s, ys, k - 1), ys[k - 1])
    }
}

/// `s` with the first `k` of `ys` attached, the last of them first.
pub open spec fn attached_all(s: Seq<Node>, ys: Seq<int>, k: int) -> Seq<Node>
    decreases k,
{
    if k <= 0 {
        s
    } else {
        attached_all(attached(s, ys[k - 1]), ys, k - 1)
    }
}

/// The matrix `s` with the column under header `h` covered.
pub open spec fn covered(s: Seq<Node>, h: int) -> Seq<Node> {
    let ys = targets(column_rows(s, h));
    detached_all(unlink_horizontal(s, h), ys, ys.len() as int)
}

/// The matrix `s` with the column under header `h` uncovered.
pub open spec fn uncovered(s: Seq<Node>, h: int) -> Seq<Node> {
    let ys = targets(column_rows(s, h));
    relink_horizontal(attached_all(s, ys, ys.len() as int), h)
}

/// Two stores agree on everything but the vertical links and the sizes.
pub open spec fn same_rows(s: Seq<Node>, t: Seq<Node>) -> bool {
    &&& s.len() == t.len()
    &&& forall|z: int|
        0 <= z < s.len() ==> {
            &&& (#[trigger] t[z]).left == s[z].left
            &&& t[z].right == s[z].right
            &&& t[z].is_header == s[z].is_header
            &&& t[z].row_info == s[z].row_info
            &&& t[z].column_header == s[z].column_header
        }
}

/// `t` is `s` but for three changes: the node `u` links down to `d`, the
/// node `d` links up to `u`, and the header `h` counts one row less.
spec fn spliced(s: Seq<Node>, t: Seq<Node>, u: int, d: int, h: int) -> bool {
    &&& same_rows(s, t)
    &&& forall|z: int|
        0 <= z < s.len() ==> {
            &&& (#[trigger] t[z]).down == if z == u {
                d as usize
            } else {
                s[z].down
            }
            &&& t[z].up == if z == d {
                u as usize
            } else {
                s[z].up
            }
            &&& t[z].size == if z == h {
                (s[z].size - 1) as usize
            } else {
                s[z].size
            }
        }
}

/// What detaching changes, node by node, and that attaching undoes it.
proof fn lemma_detached_nodes(s: Seq<Node>, y: int)
    requires
        links_closed(s),
        0 <= y < s.len(),
        s[s[y].up as int].down == y,
        s[s[y].down as int].up == y,
        s[s[y].column_header as int].size >= 1,
        s[y].up != y,
        s[y].down != y,
        s[y].column_header != y,
    ensures
        spliced(s, detached(s, y), s[y].up as int, s[y].down as int, s[y].column_header as int),
        links_closed(detached(s, y)),
        attached(detached(s, y), y) == s,
{
    let t = detached(s, y);
    assert forall|z: int| 0 <= z < t.len() implies node_closed(#[trigger] t[z], t.len()) by {}
}

/// Splicing a node out of a column shortens the column's list by it.
proof fn lemma_spliced_column(s: Seq<Node>, t: Seq<Node>, h: int, l: Seq<int>, i: int)
    requires
        is_column(h),
        is_column_list(s, h, l),
        0 <= i < l.len(),
        spliced(s, t, around(l, h, i - 1), around(l, h, i + 1), h),
    ensures
        is_column_list(t, h, l.remove(i)),
{
    let n = l.len() as int;
    let l2 = l.remove(i);
    assert forall|a: int, b: int| -1 <= a < l2.len() && b == a + 1 implies t[#[trigger] around(
        l2,
        h,
        a,
    )].down == #[trigger] around(l2, h, b) && t[around(l2, h, b)].up == around(l2, h, a) by {
        let a1 = if a < i {
            a
        } else {
            a + 1
        };
        let b1 = if b < i {
            b
        } else {
            b + 1
        };
        assert(around(l2, h, a) == around(l, h, a1));
        assert(around(l2, h, b) == around(l, h, b1));
        if 0 <= a1 < n {
            if i > 0 {
                lemma_ascending_apart(l, a1, i - 1);
            }
        }
        if 0 <= b1 < n {
            if i + 1 < n {
                lemma_ascending_apart(l, b1, i + 1);
            }
        }
    }
    assert forall|a: int| 0 <= a < l2.len() implies is_data(#[trigger] l2[a]) && l2[a] < t.len()
        && header_of(l2[a]) == h by {}
    assert(ascending(l2)) by {
        assert forall|a: int, b: int| 0 <= a < b < l2.len() implies l2[a] < l2[b] by {}
    }
}

/// Splicing a node out of one column leaves the list of another as it is.
proof fn lemma_spliced_elsewhere(
    s: Seq<Node>,
    t: Seq<Node>,
    h: int,
    l: Seq<int>,
    i: int,
    g: int,
    m: Seq<int>,
)
    requires
        is_column(h),
        is_column(g),
        g != h,
        is_column_list(s, h, l),
        is_column_list(s, g, m),
        0 <= i < l.len(),
        spliced(s, t, around(l, h, i - 1), around(l, h, i + 1), h),
    ensures
        is_column_list(t, g, m),
{
    assert forall|a: int, b: int| -1 <= a < m.len() && b == a + 1 implies t[#[trigger] around(
        m,
        g,
        a,
    )].down == #[trigger] around(m, g, b) && t[around(m, g, b)].up == around(m, g, a) by {}
}

/// What the list of a column says of the links of its `i`-th row.
proof fn lemma_column_item(s: Seq<Node>, h: int, l: Seq<int>, i: int)
    requires
        is_column(h),
        is_column_list(s, h, l),
        0 <= i < l.len(),
    ensures
        is_data(l[i]),
        l[i] < s.len(),
        header_of(l[i]) == h,
        s[l[i]].up == around(l, h, i - 1),
        s[l[i]].down == around(l, h, i + 1),
        s[around(l, h, i - 1)].down == l[i],
        s[around(l, h, i + 1)].up == l[i],
        around(l, h, i - 1) != l[i],
        around(l, h, i + 1) != l[i],
        s[h].size >= 1,
{
    assert(s[around(l, h, i - 1)].down == around(l, h, i));
}

/// Removing position `i` of an ascending list removes just that item.
proof fn lemma_remove_contains(l: Seq<int>, i: int, x: int)
    requires
        ascending(l),
        0 <= i < l.len(),
    ensures
        l.remove(i).contains(x) <==> l.contains(x) && x != l[i],
{
    let l2 = l.remove(i);
    if l2.contains(x) {
        let a = choose|a: int| 0 <= a < l2.len() && l2[a] == x;
        let a1 = if a < i {
            a
        } else {
            a + 1
        };
        lemma_ascending_apart(l, a1, i);
    }
    if l.contains(x) && x != l[i] {
        let a1 = choose|a1: int| 0 <= a1 < l.len() && l[a1] == x;
        let a = if a1 < i {
            a1
        } else {
            a1 - 1
        };
        assert(l2[a] == x);
    }
}

/// The first `k` items are the first `k - 1` and the one after them.
proof fn lemma_take_contains(ys: Seq<int>, k: int, x: int)
    requires
        1 <= k <= ys.len(),
    ensures
        ys.take(k).contains(x) <==> ys.take(k - 1).contains(x) || ys[k - 1] == x,
{
    if ys[k - 1] == x {
        assert(ys.take(k)[k - 1] == x);
    }
}

/// What taking a header out of the header row changes and what it keeps.
pub proof fn lemma_header_unlinked(s: Seq<Node>, h: int)
    requires
        well_formed(s),
        is_column(h),
        is_active(s, h),
    ensures
        header_row(s).contains(h),
        header_row(unlink_horizontal(s, h)) == header_row(s).remove(header_row(s).index_of(h)),
        is_header_row(unlink_horizontal(s, h), header_row(unlink_horizontal(s, h))),
        forall|g: int|
            is_column(g) ==> (#[trigger] is_active(unlink_horizontal(s, h), g) <==> is_active(s, g)
                && g != h),
        forall|g: int|
            is_column(g) ==> (#[trigger] is_active(unlink_horizontal(s, h), g) <==> header_row(
                unlink_horizontal(s, h),
            ).contains(g)),
        forall|z: int|
            0 <= z < s.len() ==> {
                &&& (#[trigger] unlink_horizontal(s, h)[z]).up == s[z].up
                &&& unlink_horizontal(s, h)[z].down == s[z].down
                &&& unlink_horizontal(s, h)[z].size == s[z].size
                &&& unlink_horizontal(s, h)[z].column_header == s[z].column_header
                &&& unlink_horizontal(s, h)[z].row_info == s[z].row_info
                &&& unlink_horizontal(s, h)[z].is_header == s[z].is_header
                &&& (z >= 325 ==> unlink_horizontal(s, h)[z] == s[z])
            },
        unlink_horizontal(s, h)[h] == s[h],
        relink_horizontal(unlink_horizontal(s, h), h) == s,
        links_closed(unlink_horizontal(s, h)),
        is_frame(unlink_horizontal(s, h)),
        unlink_horizontal(s, h).len() == s.len(),
{
    reveal(well_formed);
    let t = unlink_horizontal(s, h);
    let l = header_row(s);
    let i = l.index_of(h);
    let l2 = l.remove(i);
    let n = l.len() as int;
    let lh = around(l, 0, i - 1);
    let rh = around(l, 0, i + 1);
    assert(s[around(l, 0, i - 1)].right == around(l, 0, i));
    assert(lh != h && rh != h);
    assert(0 <= lh < 325 && 0 <= rh < 325);
    assert forall|z: int| 0 <= z < t.len() implies node_closed(#[trigger] t[z], t.len()) by {}
    lemma_relink_unlink(s, h, Direction::Right);
    assert forall|a: int, b: int| -1 <= a < l2.len() && b == a + 1 implies t[#[trigger] around(
        l2,
        0,
        a,
    )].right == #[trigger] around(l2, 0, b) && t[around(l2, 0, b)].left == around(l2, 0, a) by {
        let a1 = if a < i {
            a
        } else {
            a + 1
        };
        let b1 = if b < i {
            b
        } else {
            b + 1
        };
        assert(around(l2, 0, a) == around(l, 0, a1));
        assert(around(l2, 0, b) == around(l, 0, b1));
        if 0 <= a1 < n {
            if i > 0 {
                lemma_ascending_apart(l, a1, i - 1);
            }
        }
        if 0 <= b1 < n {
            if i + 1 < n {
                lemma_ascending_apart(l, b1, i + 1);
            }
        }
    }
    assert forall|a: int| 0 <= a < l2.len() implies is_column(#[trigger] l2[a]) by {}
    assert(ascending(l2)) by {
        assert forall|a: int, b: int| 0 <= a < b < l2.len() implies l2[a] < l2[b] by {}
    }
    lemma_header_row_unique(t, l2);
    assert forall|g: int| is_column(g) implies (#[trigger] is_active(t, g) <==> is_active(s, g) && g
        != h) && (is_active(t, g) <==> l2.contains(g)) by {
        lemma_remove_contains(l, i, g);
    }
    assert forall|z: int| 0 <= z < 325 implies (#[trigger] t[z]).left < 325 && t[z].right
        < 325 by {}
    assert forall|z: int| is_data(z) implies #[trigger] t[z] == s[z] by {}
}

/// The `k`-th node that covering the column under `h` takes out: it is
/// linked, and it lies in another column, which is not covered.
proof fn lemma_target(s: Seq<Node>, h: int, k: int)
    requires
        well_formed(s),
        is_column(h),
        is_active(s, h),
        0 <= k < 3 * column_rows(s, h).len(),
    ensures
        is_data(targets(column_rows(s, h))[k]),
        row_of(targets(column_rows(s, h))[k]) == row_of(column_rows(s, h)[k / 3]),
        family_of(targets(column_rows(s, h))[k]) == (family_of_column(h) + k % 3 + 1) % 4,
        column_rows(s, h)[k / 3] == node_of(
            row_of(column_rows(s, h)[k / 3]),
            family_of_column(h),
        ),
        is_placement(row_of(column_rows(s, h)[k / 3])),
        available(s, row_of(column_rows(s, h)[k / 3])),
        is_column(header_of(targets(column_rows(s, h))[k])),
        header_of(targets(column_rows(s, h))[k]) != h,
        is_active(s, header_of(targets(column_rows(s, h))[k])),
        linked(s, targets(column_rows(s, h))[k]),
{
    reveal(well_formed);
    let l = column_rows(s, h);
    let r = l[k / 3];
    let m = k % 3 + 1;
    assert(linked(s, r));
    lemma_data_node(r);
    let p = row_of(r);
    let f = family_of(r);
    lemma_node_of(p, f);
    let f2 = (f + m) % 4;
    lemma_node_of(p, f2);
    lemma_column_of(p, f);
    lemma_column_of(p, f2);
}

/// Covering takes no node out twice.
proof fn lemma_targets_apart(s: Seq<Node>, h: int, j: int, k: int)
    requires
        well_formed(s),
        is_column(h),
        is_active(s, h),
        0 <= j < k < 3 * column_rows(s, h).len(),
    ensures
        targets(column_rows(s, h))[j] != targets(column_rows(s, h))[k],
{
    reveal(well_formed);
    let l = column_rows(s, h);
    lemma_target(s, h, j);
    lemma_target(s, h, k);
    if targets(l)[j] == targets(l)[k] {
        lemma_ascending_distinct(l, j / 3, k / 3);
    }
}

/// No node that covering takes out lies among the rows of the column
/// itself, nor is taken out before its turn.
proof fn lemma_target_fresh(s: Seq<Node>, h: int, k: int)
    requires
        well_formed(s),
        is_column(h),
        is_active(s, h),
        0 <= k < 3 * column_rows(s, h).len(),
    ensures
        !targets(column_rows(s, h)).take(k).contains(targets(column_rows(s, h))[k]),
{
    let ys = targets(column_rows(s, h));
    if ys.take(k).contains(ys[k]) {
        let j = choose|j: int| 0 <= j < ys.take(k).len() && ys.take(k)[j] == ys[k];
        lemma_targets_apart(s, h, j, k);
    }
}

/// The matrix while the column under `h` is being covered: the header is
/// out of the header row and the first `k` nodes are detached.
pub open spec fn part_covered(s: Seq<Node>, h: int, k: int) -> Seq<Node> {
    detached_all(unlink_horizontal(s, h), targets(column_rows(s, h)), k)
}

/// What holds of the matrix while a column is being covered.
#[verifier::opaque]
pub open spec fn covering(s: Seq<Node>, h: int, k: int) -> bool {
    let t = part_covered(s, h, k);
    let ys = targets(column_rows(s, h));
    &&& links_closed(t)
    &&& same_rows(unlink_horizontal(s, h), t)
    &&& forall|x: int| is_data(x) ==> (#[trigger] t[x]).size == 0
    &&& forall|g: int| is_column(g) ==> is_column_list(t, g, #[trigger] column_rows(t, g))
    &&& column_rows(t, h) == column_rows(s, h)
    &&& forall|x: int|
        is_data(x) ==> (#[trigger] linked(t, x) <==> linked(s, x) && !ys.take(k).contains(x))
}

proof fn lemma_covering_start(s: Seq<Node>, h: int)
    requires
        well_formed(s),
        is_column(h),
        is_active(s, h),
    ensures
        covering(s, h, 0),
{
    reveal(well_formed);
    reveal(covering);
    let t = unlink_horizontal(s, h);
    lemma_header_unlinked(s, h);
    assert forall|g: int| is_column(g) implies is_column_list(t, g, #[trigger] column_rows(t, g))
        && column_rows(t, g) == column_rows(s, g) by {
        lemma_column_list_kept(s, t, g, column_rows(s, g));
        lemma_column_unique(t, g, column_rows(s, g));
    }
    assert forall|x: int| is_data(x) implies (#[trigger] linked(t, x) <==> linked(s, x)
        && !targets(column_rows(s, h)).take(0).contains(x)) by {
        lemma_data_node(x);
    }
    assert forall|x: int| is_data(x) implies (#[trigger] t[x]).size == 0 by {}
}

/// Each step of covering keeps the columns in order, and attaching the
/// node it took out leads back to the step before.
pub proof fn lemma_covering(s: Seq<Node>, h: int, k: int)
    requires
        well_formed(s),
        is_column(h),
        is_active(s, h),
        0 <= k <= 3 * column_rows(s, h).len(),
    ensures
        covering(s, h, k),
        k > 0 ==> {
            let y = targets(column_rows(s, h))[k - 1];
            &&& part_covered(s, h, k) == detached(part_covered(s, h, k - 1), y)
            &&& attached(part_covered(s, h, k), y) == part_covered(s, h, k - 1)
            &&& part_covered(s, h, k - 1)[header_of(y)].size >= 1
            &&& part_covered(s, h, k)[header_of(y)].size == part_covered(s, h, k - 1)[header_of(
                y,
            )].size - 1
            &&& part_covered(s, h, k - 1)[y].column_header == header_of(y)
            &&& y < s.len()
        },
    decreases k,
{
    reveal(well_formed);
    reveal(covering);
    if k == 0 {
        lemma_covering_start(s, h);
    } else {
        lemma_covering(s, h, k - 1);
        lemma_header_unlinked(s, h);
        let s0 = unlink_horizontal(s, h);
        let ys = targets(column_rows(s, h));
        let t1 = part_covered(s, h, k - 1);
        let t = part_covered(s, h, k);
        let y = ys[k - 1];
        let hy = header_of(y);
        lemma_target(s, h, k - 1);
        lemma_target_fresh(s, h, k - 1);
        assert(linked(t1, y));
        let l = column_rows(t1, hy);
        let i = choose|i: int| 0 <= i < l.len() && l[i] == y;
        lemma_column_item(t1, hy, l, i);
        assert(t1[y].column_header == hy);
        lemma_detached_nodes(t1, y);
        lemma_spliced_column(t1, t, hy, l, i);
        lemma_column_unique(t, hy, l.remove(i));
        assert forall|g: int| is_column(g) implies is_column_list(
            t,
            g,
            #[trigger] column_rows(t, g),
        ) && (g != hy ==> column_rows(t, g) == column_rows(t1, g)) by {
            if g != hy {
                lemma_spliced_elsewhere(t1, t, hy, l, i, g, column_rows(t1, g));
                lemma_column_unique(t, g, column_rows(t1, g));
            }
        }
        assert forall|x: int| is_data(x) implies (#[trigger] linked(t, x) <==> linked(s, x)
            && !ys.take(k).contains(x)) by {
            lemma_data_node(x);
            lemma_take_contains(ys, k, x);
            assert(linked(t1, x) <==> linked(s, x) && !ys.take(k - 1).contains(x));
            if header_of(x) == hy {
                lemma_remove_contains(l, i, x);
            }
        }
        assert forall|x: int| is_data(x) implies (#[trigger] t[x]).size == 0 by {}
        assert(same_rows(s0, t)) by {
            assert forall|z: int| 0 <= z < s0.len() implies {
                &&& (#[trigger] t[z]).left == s0[z].left
                &&& t[z].right == s0[z].right
                &&& t[z].is_header == s0[z].is_header
                &&& t[z].row_info == s0[z].row_info
                &&& t[z].column_header == s0[z].column_header
            } by {}
        }
    }
}

/// Attaching what the first `k` steps of covering took out, last first,
/// leads back to the matrix with only the header out of its row.
proof fn lemma_attached_all(s: Seq<Node>, h: int, k: int)
    requires
        well_formed(s),
        is_column(h),
        is_active(s, h),
        0 <= k <= 3 * column_rows(s, h).len(),
    ensures
        attached_all(part_covered(s, h, k), targets(column_rows(s, h)), k) == unlink_horizontal(
            s,
            h,
        ),
    decreases k,
{
    if k > 0 {
        lemma_covering(s, h, k);
        lemma_attached_all(s, h, k - 1);
    }
}

/// A node that covering the column under `h` finds linked is taken out
/// exactly if its row meets that column.
proof fn lemma_taken(s: Seq<Node>, h: int, x: int)
    requires
        well_formed(s),
        is_column(h),
        is_active(s, h),
        is_data(x),
        header_of(x) != h,
        is_active(s, header_of(x)),
        available(s, row_of(x)),
    ensures
        targets(column_rows(s, h)).contains(x) <==> meets(row_of(x), h),
{
    reveal(well_formed);
    let l = column_rows(s, h);
    let ys = targets(l);
    let p = row_of(x);
    let f = family_of(x);
    let fh = family_of_column(h);
    lemma_data_node(x);
    lemma_meets(p, h);
    if ys.contains(x) {
        let k = choose|k: int| 0 <= k < ys.len() && ys[k] == x;
        lemma_target(s, h, k);
        lemma_node_of(p, fh);
    }
    if meets(p, h) {
        let r = node_of(p, fh);
        lemma_node_of(p, fh);
        lemma_column_of(p, fh);
        lemma_column_of(p, f);
        assert(linked(s, r) <==> available(s, row_of(r)));
        let a = choose|a: int| 0 <= a < l.len() && l[a] == r;
        let m = if f > fh {
            f - fh
        } else {
            f - fh + 4
        };
        let k = 3 * a + m - 1;
        assert(ys[k] == mate(l[a], m));
    }
}

/// Covering a column of a well-formed matrix: the result is well formed,
/// the column alone has left the header row, its own list of rows stands
/// as it was, and uncovering it gives the matrix back.
pub proof fn lemma_covered(s: Seq<Node>, h: int)
    requires
        well_formed(s),
        is_column(h),
        is_active(s, h),
    ensures
        well_formed(covered(s, h)),
        forall|g: int|
            is_column(g) ==> (#[trigger] is_active(covered(s, h), g) <==> is_active(s, g) && g
                != h),
        header_row(s).contains(h),
        header_row(covered(s, h)) == header_row(s).remove(header_row(s).index_of(h)),
        column_rows(covered(s, h), h) == column_rows(s, h),
        uncovered(covered(s, h), h) == s,
{
    reveal(well_formed);
    reveal(covering);
    let l = column_rows(s, h);
    let ys = targets(l);
    let n3 = 3 * l.len() as int;
    let s0 = unlink_horizontal(s, h);
    let t = covered(s, h);
    lemma_header_unlinked(s, h);
    lemma_covering(s, h, n3);
    lemma_attached_all(s, h, n3);
    assert(ys.take(n3) =~= ys);
    let hdr = header_row(s0);
    crate::matrix::lemma_header_row_kept(s0, t, hdr);
    lemma_header_row_unique(t, hdr);
    assert forall|g: int| is_column(g) implies (#[trigger] is_active(t, g) <==> is_active(s0, g)) by {}
    assert(is_frame(t)) by {
        assert forall|x: int| 0 <= x < 325 implies {
            &&& (#[trigger] t[x]).is_header
            &&& t[x].row_info is None
            &&& t[x].column_header == x
            &&& t[x].left < 325
            &&& t[x].right < 325
        } by {}
        assert forall|x: int| is_data(x) implies {
            &&& !(#[trigger] t[x]).is_header
            &&& t[x].row_info == Some(crate::matrix::info_of(x))
            &&& t[x].column_header == header_of(x)
            &&& t[x].left == mate(x, 3)
            &&& t[x].right == mate(x, 1)
            &&& t[x].size == 0
        } by {}
    }
    assert forall|x: int| is_data(x) && is_active(t, header_of(x)) implies (#[trigger] linked(t, x)
        <==> available(t, row_of(x))) by {
        let p = row_of(x);
        lemma_data_node(x);
        lemma_meets(p, h);
        if available(s, p) {
            lemma_taken(s, h, x);
        }
        if available(t, p) {
            assert forall|f: int| is_family(f) implies is_active(s, #[trigger] header_for(p, f)) by {
                lemma_column_of(p, f);
            }
        }
        if available(s, p) && !meets(p, h) {
            assert forall|f: int| is_family(f) implies is_active(t, #[trigger] header_for(p, f)) by {
                lemma_column_of(p, f);
            }
        }
    }
    lemma_relink_unlink(s, h, Direction::Right);
}

/// Uncovering a column right after covering it leaves every link and
/// every size of the matrix as it was before.
pub proof fn lemma_uncover_cover(s: Seq<Node>, h: int)
    requires
        well_formed(s),
        is_column(h),
        is_active(s, h),
    ensures
        uncovered(covered(s, h), h) == s,
{
    lemma_covered(s, h);
}

/// The position of a target: row `a` of the column, `m` nodes along.
proof fn lemma_target_at(l: Seq<int>, a: int, m: int)
    requires
        0 <= a < l.len(),
        0 <= m < 3,
    ensures
        targets(l)[3 * a + m] == mate(l[a], m + 1),
{
}

/// While a column is being covered every row keeps its four nodes, each
/// in its own column.
proof fn lemma_part_covered_rows(s: Seq<Node>, h: int, k: int)
    requires
        well_formed(s),
        is_column(h),
        is_active(s, h),
        0 <= k <= 3 * column_rows(s, h).len(),
    ensures
        links_closed(part_covered(s, h, k)),
        part_covered(s, h, k).len() == 3241,
        part_covered(s, h, 0) == unlink_horizontal(s, h),
        forall|x: int|
            is_data(x) ==> {
                &&& (#[trigger] part_covered(s, h, k)[x]).right == mate(x, 1)
                &&& part_covered(s, h, k)[x].left == mate(x, 3)
                &&& part_covered(s, h, k)[x].column_header == header_of(x)
            },
{
    let t = part_covered(s, h, k);
    lemma_covering(s, h, k);
    lemma_header_unlinked(s, h);
    reveal(covering);
    assert forall|x: int| is_data(x) implies {
        &&& (#[trigger] t[x]).right == mate(x, 1)
        &&& t[x].left == mate(x, 3)
        &&& t[x].column_header == header_of(x)
    } by {}
}

/// While a column is being covered its own list of rows stands.
proof fn lemma_part_covered_column(s: Seq<Node>, h: int, k: int)
    requires
        well_formed(s),
        is_column(h),
        is_active(s, h),
        0 <= k <= 3 * column_rows(s, h).len(),
    ensures
        is_column_list(part_covered(s, h, k), h, column_rows(s, h)),
{
    lemma_covering(s, h, k);
    reveal(covering);
}

/// Step `k` of covering, forwards and backwards.
proof fn lemma_part_covered_step(s: Seq<Node>, h: int, k: int)
    requires
        well_formed(s),
        is_column(h),
        is_active(s, h),
        0 <= k < 3 * column_rows(s, h).len(),
    ensures
        ({
            let y = targets(column_rows(s, h))[k];
            let hy = header_of(y);
            let t = part_covered(s, h, k);
            let t2 = part_covered(s, h, k + 1);
            &&& is_data(y)
            &&& is_column(hy)
            &&& t[hy].size >= 1
            &&& unlink_vertical(t, y)[hy].size == t[hy].size
            &&& t2 == with_size(unlink_vertical(t, y), hy, (t[hy].size - 1) as usize)
            &&& t2[hy].size < usize::MAX
            &&& relink_vertical(t2, y)[hy].size == t2[hy].size
            &&& t == with_size(relink_vertical(t2, y), hy, (t2[hy].size + 1) as usize)
        }),
{
    lemma_target(s, h, k);
    lemma_covering(s, h, k + 1);
    lemma_part_covered_rows(s, h, k);
    lemma_part_covered_rows(s, h, k + 1);
}

/// The ends of the list of a column that is covered or being covered.
proof fn lemma_cover_ends(s: Seq<Node>, h: int, k: int)
    requires
        well_formed(s),
        is_column(h),
        is_active(s, h),
        0 <= k <= 3 * column_rows(s, h).len(),
    ensures
        ({
            let l = column_rows(s, h);
            let t = part_covered(s, h, k);
            &&& links_closed(t)
            &&& t.len() == 3241
            &&& t[h].down == around(l, h, 0)
            &&& t[h].up == around(l, h, l.len() - 1)
            &&& forall|i: int| 0 <= i < l.len() ==> is_data(#[trigger] l[i])
            &&& part_covered(s, h, 0) == unlink_horizontal(s, h)
            &&& links_closed(s)
            &&& s.len() == 3241
        }),
{
    let l = column_rows(s, h);
    let t = part_covered(s, h, k);
    lemma_part_covered_rows(s, h, k);
    lemma_part_covered_column(s, h, k);
    assert(t[around(l, h, -1)].down == around(l, h, 0));
    assert(t[around(l, h, l.len() as int)].up == around(l, h, l.len() - 1));
    assert(links_closed(s) && s.len() == 3241) by {
        reveal(well_formed);
    }
}

impl DancingLinks {
    /// Covers the column under header `column_node`: takes the header out
    /// of the header row, then takes every row of the column out of all
    /// the other columns it is linked into.
    pub fn cover(&mut self, column_node: usize)
        requires
            well_formed(old(self)@),
            is_column(column_node as int),
            is_active(old(self)@, column_node as int),
        ensures
            final(self)@ == covered(old(self)@, column_node as int),
            well_formed(final(self)@),
            forall|g: int|
                is_column(g) ==> (#[trigger] is_active(final(self)@, g) <==> is_active(
                    old(self)@,
                    g,
                ) && g != column_node),
            header_row(final(self)@) == header_row(old(self)@).remove(
                header_row(old(self)@).index_of(column_node as int),
            ),
            column_rows(final(self)@, column_node as int) == column_rows(
                old(self)@,
                column_node as int,
            ),
            uncovered(final(self)@, column_node as int) == old(self)@,
    {
        let ghost s = self@;
        let ghost h = column_node as int;
        let ghost l = column_rows(s, h);
        let ghost n = l.len() as int;
        proof {
            lemma_cover_ends(s, h, 0);
        }
        self.remove_from_neighbors(column_node, Direction::Right);
        let mut row = self.traverse(column_node, Direction::Down);
        let ghost mut a: int = 0;
        while row != column_node
            invariant
                well_formed(s),
                is_column(h),
                is_active(s, h),
                h == column_node,
                l == column_rows(s, h),
                n == l.len(),
                0 <= a <= n,
                row == around(l, h, a),
                self@ == part_covered(s, h, 3 * a),
            decreases n - a,
        {
            proof {
                lemma_cover_ends(s, h, 3 * a);
                lemma_part_covered_rows(s, h, 3 * a);
                lemma_mate(row as int, 0);
            }
            let mut row_ele = self.traverse(row, Direction::Right);
            let ghost mut m: int = 0;
            while row_ele != row
                invariant
                    well_formed(s),
                    is_column(h),
                    is_active(s, h),
                    l == column_rows(s, h),
                    n == l.len(),
                    0 <= a < n,
                    row == l[a],
                    is_data(row as int),
                    0 <= m <= 3,
                    row_ele == mate(row as int, (m + 1) % 4),
                    self@ == part_covered(s, h, 3 * a + m),
                decreases 3 - m,
            {
                proof {
                    lemma_mate(row as int, 0);
                    lemma_mate(row as int, m + 1);
                    lemma_target_at(l, a, m);
                    lemma_part_covered_rows(s, h, 3 * a + m);
                    lemma_part_covered_step(s, h, 3 * a + m);
                }
                let next = self.traverse(row_ele, Direction::Right);
                let header = self.get_column_header(row_ele);
                self.remove_from_neighbors(row_ele, Direction::Down);
                self.decrement_size(header);
                row_ele = next;
                proof {
                    m = m + 1;
                }
            }
            proof {
                lemma_mate(row as int, 1);
                lemma_mate(row as int, 2);
                lemma_mate(row as int, 3);
                lemma_part_covered_column(s, h, 3 * (a + 1));
                lemma_column_item(part_covered(s, h, 3 * (a + 1)), h, l, a);
            }
            row = self.traverse(row, Direction::Down);
            proof {
                a = a + 1;
            }
        }
        proof {
            lemma_cover_ends(s, h, 3 * a);
            lemma_covered(s, h);
        }
    }

    /// Uncovers the column under header `column_node`, the column covered
    /// last: puts its rows back into the other columns, bottom to top and
    /// right to left, then its header back into the header row.
    pub fn uncover(&mut self, column_node: usize)
        requires
            is_column(column_node as int),
            exists|before: Seq<Node>|
                well_formed(before) && is_active(before, column_node as int) && #[trigger] covered(
                    before,
                    column_node as int,
                ) == old(self)@,
        ensures
            final(self)@ == uncovered(old(self)@, column_node as int),
            well_formed(final(self)@),
            is_active(final(self)@, column_node as int),
            covered(final(self)@, column_node as int) == old(self)@,
            forall|before: Seq<Node>|
                well_formed(before) && is_active(before, column_node as int) && #[trigger] covered(
                    before,
                    column_node as int,
                ) == old(self)@ ==> final(self)@ == before,
    {
        let ghost h = column_node as int;
        let ghost s = choose|before: Seq<Node>|
            well_formed(before) && is_active(before, h) && #[trigger] covered(before, h) == self@;
        let ghost l = column_rows(s, h);
        let ghost n = l.len() as int;
        proof {
            lemma_cover_ends(s, h, 3 * n);
        }
        let mut row = self.traverse(column_node, Direction::Up);
        let ghost mut a: int = n;
        while row != column_node
            invariant
                well_formed(s),
                is_column(h),
                is_active(s, h),
                h == column_node,
                l == column_rows(s, h),
                n == l.len(),
                0 <= a <= n,
                row == around(l, h, a - 1),
                self@ == part_covered(s, h, 3 * a),
            decreases a,
        {
            proof {
                lemma_cover_ends(s, h, 3 * a);
                lemma_part_covered_rows(s, h, 3 * a);
            }
            let mut row_ele = self.traverse(row, Direction::Left);
            let ghost mut m: int = 3;
            while row_ele != row
                invariant
                    well_formed(s),
                    is_column(h),
                    is_active(s, h),
                    l == column_rows(s, h),
                    n == l.len(),
                    0 < a <= n,
                    row == l[a - 1],
                    is_data(row as int),
                    0 <= m <= 3,
                    row_ele == mate(row as int, m),
                    self@ == part_covered(s, h, 3 * (a - 1) + m),
                decreases m,
            {
                proof {
                    lemma_mate(row as int, 0);
                    lemma_mate(row as int, m);
                    lemma_target_at(l, a - 1, m - 1);
                    lemma_part_covered_rows(s, h, 3 * (a - 1) + m);
                    lemma_part_covered_step(s, h, 3 * (a - 1) + m - 1);
                }
                let next = self.traverse(row_ele, Direction::Left);
                let header = self.get_column_header(row_ele);
                self.restore_to_neighbors(row_ele, Direction::Down);
                self.increment_size(header);
                row_ele = next;
                proof {
                    m = m - 1;
                }
            }
            proof {
                lemma_mate(row as int, 1);
                lemma_mate(row as int, 2);
                lemma_mate(row as int, 3);
                lemma_part_covered_column(s, h, 3 * (a - 1));
                lemma_column_item(part_covered(s, h, 3 * (a - 1)), h, l, a - 1);
            }
            row = self.traverse(row, Direction::Up);
            proof {
                a = a - 1;
            }
        }
        proof {
            lemma_cover_ends(s, h, 3 * a);
            lemma_covered(s, h);
        }
        self.restore_to_neighbors(column_node, Direction::Right);
        proof {
            lemma_header_unlinked(s, h);
            assert forall|before: Seq<Node>|
                well_formed(before) && is_active(before, h) && #[trigger] covered(before, h) == old(
                    self,
                )@ implies self@ == before by {
                lemma_covered(before, h);
            }
        }
    }
}

} // verus!
