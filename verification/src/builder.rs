//! Building the matrix: the header row first, then one four-node row per
//! candidate placement, appended at the bottom of the four columns it meets.

use crate::layout::{
    column_nodes, family_of, family_of_column, header_for, header_index, header_of, is_column,
    is_data, is_family, is_placement, lemma_column_of, lemma_data_node, lemma_node_of,
    lemma_slot_row, lemma_slot_row_ascends, mate, meets, node_of, placement, row_of, slot_of,
    slot_row,
};
use crate::links::{inserted, links_closed, node_closed, with_column, with_size, DancingLinks};
use crate::matrix::{
    around, available, column_rows, header_row, info_of, is_active, is_column_list, is_header_row,
    lemma_column_list_kept, lemma_column_unique, lemma_header_row_kept, lemma_header_row_unique,
    linked, nothing_covered, well_formed,
};
use crate::node::{Direction, Node, RowInfo};
use vstd::prelude::*;

verus! {

/// The headers `1..=n`, left to right.
pub open spec fn first_columns(n: int) -> Seq<int> {
    Seq::new(n as nat, |i: int| i + 1)
}

/// The store holds the root and the first `n` column headers, linked into
/// the header row in order, each with an empty column.
pub open spec fn headers_built(s: Seq<Node>, n: int) -> bool {
    &&& s.len() == n + 1
    &&& links_closed(s)
    &&& is_header_row(s, first_columns(n))
    &&& forall|x: int|
        0 <= x <= n ==> {
            &&& (#[trigger] s[x]).is_header
            &&& s[x].row_info is None
            &&& s[x].column_header == x
            &&& s[x].up == x
            &&& s[x].down == x
            &&& s[x].size == 0
        }
}

/// The column under header `h` holds, in order, its rows among the first
/// `p` placements, and no others.
pub open spec fn column_built(s: Seq<Node>, h: int, p: int) -> bool {
    let m = s[h].size as int;
    &&& 0 <= m <= 9
    &&& is_column_list(s, h, column_nodes(h).take(m))
    &&& forall|i: int| 0 <= i < m ==> #[trigger] slot_row(h, i) < p
    &&& m < 9 ==> slot_row(h, m) >= p
}

/// What holds of the store while rows are being added, apart from the
/// columns: the header row is complete, and the rows of the first `p`
/// placements stand with their fixed fields.
pub open spec fn rows_framed(s: Seq<Node>, p: int) -> bool {
    &&& s.len() == 325 + 4 * p
    &&& links_closed(s)
    &&& is_header_row(s, first_columns(324))
    &&& s[0].up == 0
    &&& s[0].down == 0
    &&& s[0].size == 0
    &&& forall|x: int|
        0 <= x < 325 ==> {
            &&& (#[trigger] s[x]).is_header
            &&& s[x].row_info is None
            &&& s[x].column_header == x
        }
    &&& forall|x: int|
        325 <= x < s.len() ==> {
            &&& !(#[trigger] s[x]).is_header
            &&& s[x].row_info == Some(info_of(x))
            &&& s[x].column_header == header_of(x)
            &&& s[x].left == mate(x, 3)
            &&& s[x].right == mate(x, 1)
            &&& s[x].size == 0
        }
}

/// The rows of the first `p` placements are in place.
#[verifier::opaque]
pub open spec fn rows_built(s: Seq<Node>, p: int) -> bool {
    &&& rows_framed(s, p)
    &&& forall|h: int| is_column(h) ==> #[trigger] column_built(s, h, p)
}

/// The matrix as built, before anything is covered: every column is in the
/// header row and holds its nine rows.
pub open spec fn is_fresh(s: Seq<Node>) -> bool {
    &&& well_formed(s)
    &&& s[0].up == 0
    &&& s[0].down == 0
    &&& s[0].size == 0
    &&& header_row(s) == first_columns(324)
    &&& forall|h: int| is_column(h) ==> #[trigger] column_rows(s, h) == column_nodes(h)
}

/// Node `x` appended at the bottom of the column under header `h`, which
/// becomes its column header and counts it.
pub open spec fn appended(s: Seq<Node>, x: int, h: int) -> Seq<Node> {
    let s1 = with_column(s, x, h as usize);
    let s2 = inserted(s1, s1[h].up as int, x, Direction::Down);
    with_size(s2, h, (s2[h].size + 1) as usize)
}

/// The column under header `h` while the row of placement `p` is being
/// appended family by family: it counts that row once family `f` is past
/// its own.
pub open spec fn column_pending(s: Seq<Node>, h: int, p: int, f: int) -> bool {
    column_built(
        s,
        h,
        if family_of_column(h) < f {
            p + 1
        } else {
            p
        },
    )
}

/// While the four nodes of placement `p` are being appended: the families
/// below `f` are done, the others not yet.
#[verifier::opaque]
pub open spec fn row_pending(s: Seq<Node>, p: int, f: int) -> bool {
    &&& s.len() == 325 + 4 * (p + 1)
    &&& links_closed(s)
    &&& is_header_row(s, first_columns(324))
    &&& s[0].up == 0
    &&& s[0].down == 0
    &&& s[0].size == 0
    &&& forall|x: int|
        0 <= x < 325 ==> {
            &&& (#[trigger] s[x]).is_header
            &&& s[x].row_info is None
            &&& s[x].column_header == x
        }
    &&& forall|x: int|
        325 <= x < s.len() ==> {
            &&& !(#[trigger] s[x]).is_header
            &&& s[x].row_info == Some(info_of(x))
            &&& (x < node_of(p, f) ==> s[x].column_header == header_of(x))
            &&& s[x].left == mate(x, 3)
            &&& s[x].right == mate(x, 1)
            &&& s[x].size == 0
        }
    &&& forall|h: int| is_column(h) ==> #[trigger] column_pending(s, h, p, f)
}

/// Appending a node below the last of a column list extends the list by
/// it and leaves every other column as it was.
proof fn lemma_appended(s: Seq<Node>, x: int, h: int, l: Seq<int>)
    requires
        links_closed(s),
        is_column(h),
        is_data(x),
        x < s.len(),
        header_of(x) == h,
        is_column_list(s, h, l),
        l.len() < 9,
        forall|i: int| 0 <= i < l.len() ==> l[i] < x,
    ensures
        is_column_list(appended(s, x, h), h, l.push(x)),
        forall|g: int, m: Seq<int>|
            is_column(g) && g != h && is_column_list(s, g, m) ==> is_column_list(
                appended(s, x, h),
                g,
                m,
            ),
        forall|y: int|
            0 <= y < s.len() ==> {
                &&& (#[trigger] appended(s, x, h)[y]).left == s[y].left
                &&& appended(s, x, h)[y].right == s[y].right
                &&& appended(s, x, h)[y].is_header == s[y].is_header
                &&& appended(s, x, h)[y].row_info == s[y].row_info
                &&& (y != x ==> appended(s, x, h)[y].column_header == s[y].column_header)
                &&& (y != h ==> appended(s, x, h)[y].size == s[y].size)
            },
        appended(s, x, h)[x].column_header == h,
        appended(s, x, h)[h].size == s[h].size + 1,
        appended(s, x, h).len() == s.len(),
        appended(s, x, h)[0] == s[0],
        links_closed(appended(s, x, h)),
{
    let t = appended(s, x, h);
    let n = l.len() as int;
    let l2 = l.push(x);
    let u = around(l, h, n - 1);
    assert(s[around(l, h, n)].up == around(l, h, n - 1));
    assert(u != 0);
    assert forall|y: int| 0 <= y < t.len() implies node_closed(#[trigger] t[y], t.len()) by {}
    assert forall|i: int, j: int| -1 <= i < l2.len() && j == i + 1 implies t[#[trigger] around(
        l2,
        h,
        i,
    )].down == #[trigger] around(l2, h, j) && t[around(l2, h, j)].up == around(l2, h, i) by {
        if i < n - 1 {
            assert(s[around(l, h, i)].down == around(l, h, j));
        }
    }
    assert forall|i: int| 0 <= i < l2.len() implies is_data(#[trigger] l2[i]) && l2[i] < t.len()
        && header_of(l2[i]) == h by {}
    assert forall|g: int, m: Seq<int>|
        is_column(g) && g != h && is_column_list(s, g, m) implies is_column_list(t, g, m) by {
        assert forall|i: int, j: int| -1 <= i < m.len() && j == i + 1 implies t[#[trigger] around(
            m,
            g,
            i,
        )].down == #[trigger] around(m, g, j) && t[around(m, g, j)].up == around(m, g, i) by {}
    }
}

/// Appending the node of family `f` completes that family of the row.
proof fn lemma_pending_step(s: Seq<Node>, p: int, f: int)
    requires
        row_pending(s, p, f),
        is_placement(p),
        is_family(f),
    ensures
        s[header_for(p, f)].size < 9,
        row_pending(appended(s, node_of(p, f), header_for(p, f)), p, f + 1),
        links_closed(s),
        s.len() == 325 + 4 * (p + 1),
        is_column(header_for(p, f)),
{
    reveal(row_pending);
    let x = node_of(p, f);
    let h = header_for(p, f);
    let t = appended(s, x, h);
    lemma_column_of(p, f);
    lemma_node_of(p, f);
    let sl = slot_of(p, f);
    let m = s[h].size as int;
    assert(column_pending(s, h, p, f));
    let l = column_nodes(h).take(m);
    if m < sl {
        lemma_slot_row_ascends(h, m, sl);
    }
    assert forall|i: int| 0 <= i < l.len() implies l[i] < x by {}
    lemma_appended(s, x, h, l);
    assert(l.push(x) =~= column_nodes(h).take(m + 1));
    if m + 1 < 9 {
        lemma_slot_row_ascends(h, m, m + 1);
    }
    assert forall|g: int| is_column(g) implies #[trigger] column_pending(t, g, p, f + 1) by {
        assert(column_pending(s, g, p, f));
        if g != h {
            let n = s[g].size as int;
            if family_of_column(g) == f && n < 9 {
                lemma_slot_row(g, n);
            }
        }
    }
    lemma_header_row_kept(s, t, first_columns(324));
    assert forall|y: int| 325 <= y < t.len() implies {
        &&& !(#[trigger] t[y]).is_header
        &&& t[y].row_info == Some(info_of(y))
        &&& (y < node_of(p, f + 1) ==> t[y].column_header == header_of(y))
        &&& t[y].left == mate(y, 3)
        &&& t[y].right == mate(y, 1)
        &&& t[y].size == 0
    } by {}
    assert forall|y: int| 0 <= y < 325 implies {
        &&& (#[trigger] t[y]).is_header
        &&& t[y].row_info is None
        &&& t[y].column_header == y
    } by {}
}

/// Once the fourth family is appended the row is built.
proof fn lemma_row_finished(s: Seq<Node>, p: int)
    requires
        row_pending(s, p, 4),
        is_placement(p),
    ensures
        rows_built(s, p + 1),
{
    reveal(rows_built);
    reveal(row_pending);
    assert forall|h: int| is_column(h) implies #[trigger] column_built(s, h, p + 1) by {
        assert(column_pending(s, h, p, 4));
        lemma_slot_row(h, 0);
    }
}

/// The extent of the store while rows are being added.
proof fn lemma_rows_built_extent(s: Seq<Node>, p: int)
    requires
        rows_built(s, p),
    ensures
        s.len() == 325 + 4 * p,
        links_closed(s),
{
    reveal(rows_built);
}

/// With the header row alone, no row is built yet.
proof fn lemma_no_rows_built(s: Seq<Node>)
    requires
        headers_built(s, 324),
    ensures
        rows_built(s, 0),
{
    reveal(rows_built);
    assert forall|h: int| is_column(h) implies #[trigger] column_built(s, h, 0) by {
        lemma_slot_row(h, 0);
        let l = column_nodes(h).take(0);
        assert forall|i: int, j: int| -1 <= i < l.len() && j == i + 1 implies s[#[trigger] around(
            l,
            h,
            i,
        )].down == #[trigger] around(l, h, j) && s[around(l, h, j)].up == around(l, h, i) by {}
    }
}

/// With all 729 rows in place the matrix is complete and well formed.
proof fn lemma_all_rows_built(s: Seq<Node>)
    requires
        rows_built(s, 729),
    ensures
        is_fresh(s),
{
    reveal(rows_built);
    reveal(well_formed);
    let l = first_columns(324);
    lemma_header_row_unique(s, l);
    assert forall|h: int| is_column(h) implies #[trigger] column_rows(s, h) == column_nodes(h)
        && is_column_list(s, h, column_nodes(h)) by {
        assert(column_built(s, h, 729));
        let m = s[h].size as int;
        if m < 9 {
            lemma_slot_row(h, m);
        }
        assert(column_nodes(h).take(9) =~= column_nodes(h));
        lemma_column_unique(s, h, column_nodes(h));
    }
    assert forall|h: int| is_column(h) implies is_active(s, h) && l.contains(h) && (
    #[trigger] s[h]).left < 325 && s[h].right < 325 by {
        assert(s[around(l, 0, h - 2)].right == around(l, 0, h - 1));
        assert(s[around(l, 0, h - 1)].right == around(l, 0, h));
    }
    assert(s[0].left < 325 && s[0].right < 325) by {
        assert(s[around(l, 0, -1)].right == around(l, 0, 0));
        assert(s[around(l, 0, 323)].right == around(l, 0, 324));
    }
    assert forall|x: int| is_data(x) implies #[trigger] linked(s, x) && available(s, row_of(x)) by {
        lemma_data_node(x);
        let p = row_of(x);
        let f = family_of(x);
        lemma_column_of(p, f);
        let h = header_of(x);
        assert(column_nodes(h)[slot_of(p, f)] == x);
        assert forall|g: int| is_family(g) implies is_active(s, #[trigger] header_for(p, g)) by {
            lemma_column_of(p, g);
        }
    }
    assert forall|x: int| 0 <= x < 325 implies (#[trigger] s[x]).left < 325 && s[x].right
        < 325 by {}
}

/// Four fresh nodes linked into a circle start the row of placement `p`.
proof fn lemma_row_started(before: Seq<Node>, t: Seq<Node>, p: int, info: RowInfo)
    requires
        is_placement(p),
        rows_built(before, p),
        info == (RowInfo {
            row: (p / 81) as usize,
            col: ((p / 9) % 9) as usize,
            val: (p % 9 + 1) as usize,
        }),
        t.len() == before.len() + 4,
        links_closed(t),
        forall|y: int| 0 <= y < before.len() ==> #[trigger] t[y] == before[y],
        forall|k: int|
            0 <= k < 4 ==> #[trigger] t[before.len() + k] == (Node {
                left: (before.len() + (k + 3) % 4) as usize,
                right: (before.len() + (k + 1) % 4) as usize,
                ..Node::alone((before.len() + k) as usize, Some(info), false)
            }),
    ensures
        row_pending(t, p, 0),
{
    reveal(rows_built);
    reveal(row_pending);
    lemma_header_row_kept(before, t, first_columns(324));
    assert forall|h: int| is_column(h) implies #[trigger] column_pending(t, h, p, 0) by {
        assert(column_built(before, h, p));
        lemma_slot_row(h, 0);
        lemma_column_list_kept(before, t, h, column_nodes(h).take(before[h].size as int));
    }
    assert forall|x: int| 325 <= x < t.len() implies {
        &&& !(#[trigger] t[x]).is_header
        &&& t[x].row_info == Some(info_of(x))
        &&& (x < node_of(p, 0) ==> t[x].column_header == header_of(x))
        &&& t[x].left == mate(x, 3)
        &&& t[x].right == mate(x, 1)
        &&& t[x].size == 0
    } by {
        if x >= before.len() {
            let k = x - before.len();
            lemma_node_of(p, k);
            crate::matrix::lemma_info_of(p, k);
        }
    }
    assert forall|x: int| 0 <= x < 325 implies {
        &&& (#[trigger] t[x]).is_header
        &&& t[x].row_info is None
        &&& t[x].column_header == x
    } by {}
}

/// The matrix as built.
pub open spec fn fresh_matrix() -> Seq<Node> {
    choose|s: Seq<Node>| is_fresh(s)
}

/// The links up and down of the rows of a column and of its header, as
/// the list of the column gives them.
proof fn lemma_column_links(s: Seq<Node>, h: int, l: Seq<int>, i: int)
    requires
        is_column_list(s, h, l),
        -1 <= i < l.len(),
    ensures
        s[around(l, h, i)].down == around(l, h, i + 1),
        s[around(l, h, i + 1)].up == around(l, h, i),
{
}

/// There is one matrix as built.
pub proof fn lemma_fresh_is_one(s: Seq<Node>)
    requires
        is_fresh(s),
    ensures
        s == fresh_matrix(),
{
    let t = fresh_matrix();
    reveal(well_formed);
    let hdr = first_columns(324);
    assert forall|x: int| 0 <= x < 3241 implies s[x] == t[x] by {
        if x == 0 {
            assert(s[around(hdr, 0, -1)].right == around(hdr, 0, 0));
            assert(s[around(hdr, 0, 324)].left == around(hdr, 0, 323));
        } else if x < 325 {
            assert(s[around(hdr, 0, x - 1)].left == around(hdr, 0, x - 2));
            let l = column_nodes(x);
            assert(column_rows(s, x) == l && column_rows(t, x) == l);
            lemma_column_links(s, x, l, -1);
            lemma_column_links(t, x, l, -1);
            lemma_column_links(s, x, l, 8);
            lemma_column_links(t, x, l, 8);
        } else {
            lemma_data_node(x);
            let p = row_of(x);
            let f = family_of(x);
            lemma_column_of(p, f);
            let h = header_of(x);
            let l = column_nodes(h);
            let i = slot_of(p, f);
            assert(column_rows(s, h) == l && column_rows(t, h) == l);
            lemma_column_links(s, h, l, i - 1);
            lemma_column_links(t, h, l, i - 1);
            lemma_column_links(s, h, l, i);
            lemma_column_links(t, h, l, i);
        }
    }
}

/// In the matrix as built, each of the 324 columns counts nine rows.
pub proof fn lemma_fresh_sizes(s: Seq<Node>)
    requires
        is_fresh(s),
    ensures
        forall|h: int| is_column(h) ==> (#[trigger] s[h]).size == 9,
{
    reveal(well_formed);
    assert forall|h: int| is_column(h) implies (#[trigger] s[h]).size == 9 by {
        assert(is_column_list(s, h, column_rows(s, h)));
    }
}

/// In the matrix as built, nothing is covered.
pub proof fn lemma_fresh(s: Seq<Node>)
    requires
        is_fresh(s),
    ensures
        well_formed(s),
        nothing_covered(s),
{
    reveal(well_formed);
    assert forall|h: int| is_column(h) implies is_active(s, h) by {
        assert(first_columns(324)[h - 1] == h);
    }
}

impl DancingLinks {
    /// Appends `node` at the bottom of the column under `header`.
    fn append_to_column(&mut self, node: usize, header: usize)
        requires
            node < old(self)@.len(),
            header < old(self)@.len(),
            links_closed(old(self)@),
            old(self)@[header as int].size < 9,
        ensures
            final(self)@ == appended(old(self)@, node as int, header as int),
            links_closed(final(self)@),
    {
        self.set_column_header(node, header);
        let prev_last = self.traverse(header, Direction::Up);
        self.link_down(prev_last, node);
        self.increment_size(header);
    }

    /// Adds four nodes that carry `info`, linked left to right into a
    /// circle and not yet part of any column; returns the first.
    fn new_row(&mut self, info: RowInfo) -> (first: usize)
        requires
            links_closed(old(self)@),
            old(self)@.len() + 4 <= usize::MAX,
        ensures
            first == old(self)@.len(),
            final(self)@.len() == first + 4,
            links_closed(final(self)@),
            forall|y: int| 0 <= y < first ==> #[trigger] final(self)@[y] == old(self)@[y],
            forall|k: int|
                0 <= k < 4 ==> #[trigger] final(self)@[first + k] == (Node {
                    left: (first + (k + 3) % 4) as usize,
                    right: (first + (k + 1) % 4) as usize,
                    ..Node::alone((first + k) as usize, Some(info), false)
                }),
    {
        let n0 = self.new_node(Some(info), false);
        let n1 = self.new_node(Some(info), false);
        let n2 = self.new_node(Some(info), false);
        let n3 = self.new_node(Some(info), false);
        self.link_right(n0, n1);
        self.link_right(n1, n2);
        self.link_right(n2, n3);
        n0
    }

    /// Adds the row of the placement of digit `num` at (`row`, `col`):
    /// four nodes linked into a circle, each appended at the bottom of the
    /// column it belongs to.
    fn add_row(&mut self, row: usize, col: usize, num: usize)
        requires
            row < 9,
            col < 9,
            1 <= num <= 9,
            rows_built(old(self)@, placement(row as int, col as int, num as int)),
        ensures
            rows_built(final(self)@, placement(row as int, col as int, num as int) + 1),
    {
        let ghost p = placement(row as int, col as int, num as int);
        let ghost before = self@;
        proof {
            crate::layout::lemma_placement(row as int, col as int, num as int);
            lemma_rows_built_extent(before, p);
        }
        let info = RowInfo { row, col, val: num };
        let n0 = self.new_row(info);
        let n1 = n0 + 1;
        let n2 = n0 + 2;
        let n3 = n0 + 3;
        proof {
            lemma_row_started(before, self@, p, info);
        }
        let h0 = header_index(row, col, num, 0);
        let h1 = header_index(row, col, num, 1);
        let h2 = header_index(row, col, num, 2);
        let h3 = header_index(row, col, num, 3);
        proof {
            lemma_pending_step(self@, p, 0);
        }
        self.append_to_column(n0, h0);
        proof {
            lemma_pending_step(self@, p, 1);
        }
        self.append_to_column(n1, h1);
        proof {
            lemma_pending_step(self@, p, 2);
        }
        self.append_to_column(n2, h2);
        proof {
            lemma_pending_step(self@, p, 3);
        }
        self.append_to_column(n3, h3);
        proof {
            lemma_row_finished(self@, p);
        }
    }

    /// Adds the 729 candidate rows, in the order of rows, then columns,
    /// then digits of the board.
    pub fn init_constraint_matrix(&mut self)
        requires
            headers_built(old(self)@, 324),
        ensures
            final(self)@ == fresh_matrix(),
            final(self)@.len() == 3241,
            links_closed(final(self)@),
            is_fresh(final(self)@),
            well_formed(final(self)@),
            nothing_covered(final(self)@),
            forall|h: int| is_column(h) ==> (#[trigger] final(self)@[h]).size == 9,
    {
        proof {
            lemma_no_rows_built(self@);
        }
        let mut row: usize = 0;
        while row < 9
            invariant
                row <= 9,
                rows_built(self@, row * 81),
            decreases 9 - row,
        {
            let mut col: usize = 0;
            while col < 9
                invariant
                    row < 9,
                    col <= 9,
                    rows_built(self@, (row * 9 + col) * 9),
                decreases 9 - col,
            {
                let mut num: usize = 1;
                while num <= 9
                    invariant
                        row < 9,
                        col < 9,
                        1 <= num <= 10,
                        rows_built(self@, (row * 9 + col) * 9 + (num - 1)),
                    decreases 10 - num,
                {
                    self.add_row(row, col, num);
                    num += 1;
                }
                col += 1;
            }
            row += 1;
        }
        proof {
            lemma_all_rows_built(self@);
            lemma_fresh_is_one(self@);
            lemma_fresh(self@);
            lemma_fresh_sizes(self@);
            reveal(well_formed);
        }
    }

    /// A fresh matrix for the 9x9 puzzle, fully linked.
    pub fn build_matrix() -> (dl: Self)
        ensures
            dl@ == fresh_matrix(),
            dl@.len() == 3241,
            links_closed(dl@),
            is_fresh(dl@),
            well_formed(dl@),
            nothing_covered(dl@),
            forall|h: int| is_column(h) ==> (#[trigger] dl@[h]).size == 9,
    {
        let mut dl = DancingLinks::new();
        dl.init_header_row();
        dl.init_constraint_matrix();
        proof {
            lemma_fresh_is_one(dl@);
            lemma_fresh(dl@);
        }
        dl
    }

    /// Links the 324 column headers into the header row, in the order
    /// cells, row-digits, column-digits, box-digits.
    pub fn init_header_row(&mut self)
        requires
            old(self)@ =~= seq![Node::alone(0, None, true)],
        ensures
            headers_built(final(self)@, 324),
    {
        let mut prev: usize = 0;
        while prev < 324
            invariant
                prev <= 324,
                headers_built(self@, prev as int),
            decreases 324 - prev,
        {
            let ghost before = self@;
            let ghost l = first_columns(prev as int);
            let new_header = self.new_header();
            proof {
                assert(before[around(l, 0, prev as int - 1)].right == around(l, 0, prev as int));
            }
            self.link_right(prev, new_header);
            proof {
                let s = self@;
                let l2 = first_columns(prev + 1);
                assert forall|i: int, j: int| -1 <= i < l2.len() && j == i + 1 implies s[#[trigger] around(
                    l2,
                    0,
                    i,
                )].right == #[trigger] around(l2, 0, j) && s[around(l2, 0, j)].left == around(
                    l2,
                    0,
                    i,
                ) by {
                    if i < prev as int - 1 {
                        assert(before[around(l, 0, i)].right == around(l, 0, j));
                    }
                }
            }
            prev = new_header;
        }
    }
}

} // verus!
