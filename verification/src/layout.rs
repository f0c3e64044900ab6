//! Where everything sits in the node store of the 9x9 matrix: the root at
//! index 0, the 324 column headers at `1..325`, and for each of the 729
//! candidate placements four data nodes, one per constraint family.

use crate::board::unit_cell;
use vstd::prelude::*;

verus! {

/// Index of the root of the header row.
pub const ROOT: usize = 0;

/// Number of constraint columns.
pub const COLUMNS: usize = 324;

/// Number of candidate placements (matrix rows).
pub const PLACEMENTS: usize = 729;

/// Index of the first data node.
pub const FIRST_DATA: usize = 325;

/// Number of nodes of the full matrix.
pub const NODES: usize = 3241;

/// The placement "digit `v` at row `r`, column `c`" (`r`, `c` in `0..9`,
/// `v` in `1..=9`).
pub open spec fn placement(r: int, c: int, v: int) -> int {
    (r * 9 + c) * 9 + (v - 1)
}

/// The constraint column (`0..324`) that placement `p` meets in family `f`:
/// cell, row-digit, column-digit, box-digit.
pub closed spec fn column_of(p: int, f: int) -> int {
    let r = p / 81;
    let c = (p / 9) % 9;
    let d = p % 9;
    if f == 0 {
        r * 9 + c
    } else if f == 1 {
        81 + r * 9 + d
    } else if f == 2 {
        162 + c * 9 + d
    } else {
        243 + ((r / 3) * 3 + c / 3) * 9 + d
    }
}

/// `p` numbers a candidate placement.
pub open spec fn is_placement(p: int) -> bool {
    0 <= p < 729
}

/// `f` numbers a constraint family.
pub open spec fn is_family(f: int) -> bool {
    0 <= f < 4
}

/// `h` is the index of a column header.
pub open spec fn is_column(h: int) -> bool {
    1 <= h < 325
}

/// `x` is the index of a data node.
pub open spec fn is_data(x: int) -> bool {
    325 <= x < 3241
}

/// The data node of placement `p` in family `f`.
pub open spec fn node_of(p: int, f: int) -> int {
    325 + 4 * p + f
}

/// The placement whose row holds data node `x`.
pub closed spec fn row_of(x: int) -> int {
    (x - 325) / 4
}

/// The family of data node `x`.
pub closed spec fn family_of(x: int) -> int {
    (x - 325) % 4
}

/// The header of the column that holds data node `x`.
pub closed spec fn header_of(x: int) -> int {
    column_of(row_of(x), family_of(x)) + 1
}

/// The header of the column that placement `p` meets in family `f`.
pub open spec fn header_for(p: int, f: int) -> int {
    column_of(p, f) + 1
}

/// The node `m` steps to the right of data node `x` in its row.
pub closed spec fn mate(x: int, m: int) -> int {
    node_of(row_of(x), (family_of(x) + m) % 4)
}

/// The family of the column under header `h`.
pub closed spec fn family_of_column(h: int) -> int {
    (h - 1) / 81
}

/// Placement `p` has a node in the column under header `h`.
pub closed spec fn meets(p: int, h: int) -> bool {
    header_for(p, family_of_column(h)) == h
}

/// The `i`-th placement, in ascending order, of the nine that meet the
/// column under header `h`.
pub closed spec fn slot_row(h: int, i: int) -> int {
    let k = (h - 1) % 81;
    let a = k / 9;
    let d = k % 9;
    let f = family_of_column(h);
    if f == 0 {
        k * 9 + i
    } else if f == 1 {
        (a * 9 + i) * 9 + d
    } else if f == 2 {
        (i * 9 + a) * 9 + d
    } else {
        (((a / 3) * 3 + i / 3) * 9 + (a % 3) * 3 + i % 3) * 9 + d
    }
}

/// The position of placement `p` among the nine of its column in family `f`.
pub closed spec fn slot_of(p: int, f: int) -> int {
    let r = p / 81;
    let c = (p / 9) % 9;
    if f == 0 {
        p % 9
    } else if f == 1 {
        c
    } else if f == 2 {
        r
    } else {
        (r % 3) * 3 + c % 3
    }
}

/// The nine data nodes of the column under header `h`, top to bottom as the
/// fresh matrix links them.
pub open spec fn column_nodes(h: int) -> Seq<int> {
    Seq::new(9, |i: int| node_of(slot_row(h, i), family_of_column(h)))
}

/// Quotient and remainder of `q * n + m` by `n`.
proof fn lemma_split(x: int, n: int, q: int, m: int)
    requires
        n > 0,
        0 <= m < n,
        x == q * n + m,
    ensures
        x / n == q,
        x % n == m,
{
    vstd::arithmetic::div_mod::lemma_fundamental_div_mod_converse(x, n, q, m);
}

/// Row, column and digit of a placement.
pub proof fn lemma_coordinates(p: int)
    requires
        is_placement(p),
    ensures
        0 <= p / 81 < 9,
        0 <= (p / 9) % 9 < 9,
        0 <= p % 9 < 9,
        p == placement(p / 81, (p / 9) % 9, p % 9 + 1),
        p / 9 == (p / 81) * 9 + (p / 9) % 9,
{
    let q = p / 9;
    assert(p == q * 9 + p % 9);
    assert(q == (q / 9) * 9 + q % 9);
    lemma_split(p, 81, q / 9, (q % 9) * 9 + p % 9);
}

/// The header of the column that the placement of digit `num` at (`row`,
/// `col`) meets in `family`.
pub fn header_index(row: usize, col: usize, num: usize, family: usize) -> (h: usize)
    requires
        row < 9,
        col < 9,
        1 <= num <= 9,
        family < 4,
    ensures
        h == header_for(placement(row as int, col as int, num as int), family as int),
        is_column(h as int),
{
    proof {
        let p = placement(row as int, col as int, num as int);
        lemma_split(p, 9, row * 9 + col, num - 1);
        lemma_split(p, 81, row as int, col * 9 + (num - 1));
        lemma_split(p / 9, 9, row as int, col as int);
    }
    if family == 0 {
        row * 9 + col + 1
    } else if family == 1 {
        81 + row * 9 + num
    } else if family == 2 {
        162 + col * 9 + num
    } else {
        243 + ((row / 3) * 3 + col / 3) * 9 + num
    }
}

/// The index of the data node of the placement of digit `num` at (`row`,
/// `col`) in `family`.
pub fn node_index(row: usize, col: usize, num: usize, family: usize) -> (x: usize)
    requires
        row < 9,
        col < 9,
        1 <= num <= 9,
        family < 4,
    ensures
        x == node_of(placement(row as int, col as int, num as int), family as int),
        is_data(x as int),
{
    325 + 4 * ((row * 9 + col) * 9 + (num - 1)) + family
}

/// The candidates are numbered row by row, cell by cell, digit by digit.
pub proof fn lemma_placement(r: int, c: int, v: int)
    requires
        0 <= r < 9,
        0 <= c < 9,
        1 <= v <= 9,
    ensures
        is_placement(placement(r, c, v)),
        placement(r, c, v) / 81 == r,
        (placement(r, c, v) / 9) % 9 == c,
        placement(r, c, v) % 9 == v - 1,
{
    let p = placement(r, c, v);
    lemma_split(p, 9, r * 9 + c, v - 1);
    lemma_split(p, 81, r, c * 9 + (v - 1));
    lemma_split(p / 9, 9, r, c);
}

/// Each placement meets four distinct columns, one per family.
pub proof fn lemma_column_of(p: int, f: int)
    requires
        is_placement(p),
        is_family(f),
    ensures
        81 * f <= column_of(p, f) < 81 * f + 81,
        is_column(header_for(p, f)),
        family_of_column(header_for(p, f)) == f,
        meets(p, header_for(p, f)),
        0 <= slot_of(p, f) < 9,
        slot_row(header_for(p, f), slot_of(p, f)) == p,
{
    lemma_coordinates(p);
    let r = p / 81;
    let c = (p / 9) % 9;
    let d = p % 9;
    let h = header_for(p, f);
    let k = column_of(p, f) - 81 * f;
    if f == 3 {
        let a = (r / 3) * 3 + c / 3;
        let i = (r % 3) * 3 + c % 3;
        assert(0 <= a < 9);
        assert(k == a * 9 + d);
        lemma_split(h - 1, 81, f, k);
        lemma_split(k, 9, a, d);
        lemma_split(a, 3, r / 3, c / 3);
        lemma_split(i, 3, r % 3, c % 3);
        assert((a / 3) * 3 + i / 3 == r);
        assert((a % 3) * 3 + i % 3 == c);
    } else if f == 2 {
        assert(k == c * 9 + d);
        lemma_split(h - 1, 81, f, k);
        lemma_split(k, 9, c, d);
    } else if f == 1 {
        assert(k == r * 9 + d);
        lemma_split(h - 1, 81, f, k);
        lemma_split(k, 9, r, d);
    } else {
        assert(k == r * 9 + c);
        lemma_split(h - 1, 81, f, k);
    }
}

/// What the slots of a column are: placements that meet it, in ascending
/// order.
pub proof fn lemma_slot_row(h: int, i: int)
    requires
        is_column(h),
        0 <= i < 9,
    ensures
        is_placement(slot_row(h, i)),
        is_family(family_of_column(h)),
        header_for(slot_row(h, i), family_of_column(h)) == h,
        slot_of(slot_row(h, i), family_of_column(h)) == i,
        i + 1 < 9 ==> slot_row(h, i) < slot_row(h, i + 1),
{
    let f = family_of_column(h);
    let k = (h - 1) % 81;
    let a = k / 9;
    let d = k % 9;
    let p = slot_row(h, i);
    assert(h - 1 == f * 81 + k);
    assert(k == a * 9 + d);
    assert(0 <= a < 9);
    if f == 0 {
        lemma_split(p, 9, k, i);
        lemma_split(p, 81, a, d * 9 + i);
        lemma_split(p / 9, 9, a, d);
    } else if f == 1 {
        lemma_split(p, 9, a * 9 + i, d);
        lemma_split(p, 81, a, i * 9 + d);
        lemma_split(p / 9, 9, a, i);
    } else if f == 2 {
        lemma_split(p, 9, i * 9 + a, d);
        lemma_split(p, 81, i, a * 9 + d);
        lemma_split(p / 9, 9, i, a);
    } else {
        let r = (a / 3) * 3 + i / 3;
        let c = (a % 3) * 3 + i % 3;
        assert(0 <= r < 9 && 0 <= c < 9);
        lemma_split(p, 9, r * 9 + c, d);
        lemma_split(p, 81, r, c * 9 + d);
        lemma_split(p / 9, 9, r, c);
        lemma_split(r, 3, a / 3, i / 3);
        lemma_split(c, 3, a % 3, i % 3);
        if i + 1 < 9 {
            let i2 = i + 1;
            let r2 = (a / 3) * 3 + i2 / 3;
            let c2 = (a % 3) * 3 + i2 % 3;
            assert(r2 > r || (r2 == r && c2 > c));
        }
    }
}

/// The slots of a column ascend.
pub proof fn lemma_slot_row_ascends(h: int, i: int, j: int)
    requires
        is_column(h),
        0 <= i < j < 9,
    ensures
        slot_row(h, i) < slot_row(h, j),
    decreases j - i,
{
    lemma_slot_row(h, i);
    if i + 1 < j {
        lemma_slot_row_ascends(h, i + 1, j);
    }
}

/// Row, family and header of a data node, and its neighbours in the row.
pub proof fn lemma_node_of(p: int, f: int)
    requires
        is_placement(p),
        is_family(f),
    ensures
        is_data(node_of(p, f)),
        row_of(node_of(p, f)) == p,
        family_of(node_of(p, f)) == f,
        header_of(node_of(p, f)) == header_for(p, f),
        forall|m: int| 0 <= m < 4 ==> #[trigger] mate(node_of(p, f), m) == node_of(p, (f + m) % 4),
{
}

/// A data node is the node of its row in its family, and lies in the
/// column that its row meets there.
pub proof fn lemma_data_node(x: int)
    requires
        is_data(x),
    ensures
        is_placement(row_of(x)),
        is_family(family_of(x)),
        node_of(row_of(x), family_of(x)) == x,
        is_column(header_of(x)),
        header_of(x) == header_for(row_of(x), family_of(x)),
        family_of_column(header_of(x)) == family_of(x),
        meets(row_of(x), header_of(x)),
{
    lemma_column_of(row_of(x), family_of(x));
}

/// The four nodes of a row, reached from any of them.
pub proof fn lemma_mate(x: int, m: int)
    requires
        is_data(x),
        0 <= m < 4,
    ensures
        is_data(mate(x, m)),
        row_of(mate(x, m)) == row_of(x),
        family_of(mate(x, m)) == (family_of(x) + m) % 4,
        mate(x, 0) == x,
        m != 0 ==> mate(x, m) != x,
        mate(mate(x, m), 1) == mate(x, (m + 1) % 4),
        mate(mate(x, m), 3) == mate(x, (m + 3) % 4),
{
}

/// A placement that meets a column has its node there, and no other node
/// of that family lies in the column.
pub proof fn lemma_meets(p: int, h: int)
    requires
        is_placement(p),
        is_column(h),
    ensures
        is_family(family_of_column(h)),
        meets(p, h) <==> header_of(node_of(p, family_of_column(h))) == h,
        meets(p, h) <==> header_for(p, family_of_column(h)) == h,
        forall|f: int|
            is_family(f) && #[trigger] header_for(p, f) == h ==> f == family_of_column(h),
{
    let fh = family_of_column(h);
    lemma_node_of(p, fh);
    assert forall|f: int| is_family(f) && header_for(p, f) == h implies f == fh by {
        lemma_column_of(p, f);
    }
}

/// Cell `i` belongs to unit `u` (see `unit_cell` for the numbering).
pub open spec fn in_unit(u: int, i: int) -> bool {
    if u < 9 {
        i / 9 == u
    } else if u < 18 {
        i % 9 == u - 9
    } else {
        ((i / 9) / 3) * 3 + (i % 9) / 3 == u - 18
    }
}

/// The position of cell `i` within unit `u`.
pub open spec fn unit_position(u: int, i: int) -> int {
    if u < 9 {
        i % 9
    } else if u < 18 {
        i / 9
    } else {
        ((i / 9) % 3) * 3 + (i % 9) % 3
    }
}

/// The header of the column "unit `u` holds digit `v`".
pub open spec fn unit_header(u: int, v: int) -> int {
    82 + u * 9 + (v - 1)
}

/// The unit of the kind of family `f` (1 for rows, 2 for columns, 3 for
/// boxes) that cell `i` belongs to.
pub open spec fn unit_of(f: int, i: int) -> int {
    if f == 1 {
        i / 9
    } else if f == 2 {
        9 + i % 9
    } else {
        18 + ((i / 9) / 3) * 3 + (i % 9) / 3
    }
}

/// The four columns of a placement, by its cell and its digit.
pub proof fn lemma_headers(p: int)
    requires
        is_placement(p),
    ensures
        0 <= p / 9 < 81,
        0 <= p % 9 < 9,
        header_for(p, 0) == 1 + p / 9,
        forall|f: int|
            1 <= f < 4 ==> {
                &&& #[trigger] header_for(p, f) == unit_header(unit_of(f, p / 9), p % 9 + 1)
                &&& 0 <= unit_of(f, p / 9) < 27
                &&& in_unit(unit_of(f, p / 9), p / 9)
            },
{
    lemma_coordinates(p);
    let i = p / 9;
    lemma_split(i, 9, p / 81, (p / 9) % 9);
}

/// The cells of a unit, by position.
pub proof fn lemma_unit_cell(u: int, k: int)
    requires
        0 <= u < 27,
        0 <= k < 9,
    ensures
        0 <= unit_cell(u, k) < 81,
        in_unit(u, unit_cell(u, k)),
        unit_position(u, unit_cell(u, k)) == k,
{
    let i = unit_cell(u, k);
    if u < 9 {
        lemma_split(i, 9, u, k);
    } else if u < 18 {
        lemma_split(i, 9, k, u - 9);
    } else {
        let b = u - 18;
        let r = (b / 3) * 3 + k / 3;
        let c = (b % 3) * 3 + k % 3;
        assert(i == r * 9 + c);
        lemma_split(i, 9, r, c);
        lemma_split(r, 3, b / 3, k / 3);
        lemma_split(c, 3, b % 3, k % 3);
    }
}

/// The position of a cell in a unit it belongs to.
pub proof fn lemma_unit_position(u: int, i: int)
    requires
        0 <= u < 27,
        0 <= i < 81,
        in_unit(u, i),
    ensures
        0 <= unit_position(u, i) < 9,
        unit_cell(u, unit_position(u, i)) == i,
{
    let k = unit_position(u, i);
    if u >= 18 {
        let b = u - 18;
        let r = i / 9;
        let c = i % 9;
        lemma_split(b, 3, r / 3, c / 3);
        lemma_split(k, 3, r % 3, c % 3);
    }
}

/// Which placements meet the column of a cell.
pub proof fn lemma_cell_header(p: int, i: int)
    requires
        is_placement(p),
        0 <= i < 81,
    ensures
        is_column(1 + i),
        meets(p, 1 + i) <==> p / 9 == i,
        0 <= p / 9 < 81,
        0 <= p % 9 < 9,
{
    lemma_coordinates(p);
    lemma_split(i, 81, 0, i);
}

/// Which placements meet the column of a unit and a digit.
pub proof fn lemma_unit_header(p: int, u: int, v: int)
    requires
        is_placement(p),
        0 <= u < 27,
        1 <= v <= 9,
    ensures
        is_column(unit_header(u, v)),
        meets(p, unit_header(u, v)) <==> p % 9 == v - 1 && in_unit(u, p / 9),
{
    lemma_coordinates(p);
    let h = unit_header(u, v);
    let f = 1 + u / 9;
    let a = u % 9;
    lemma_split(h - 1, 81, f, a * 9 + (v - 1));
    let i = p / 9;
    lemma_split(i, 9, p / 81, (p / 9) % 9);
}

} // verus!
