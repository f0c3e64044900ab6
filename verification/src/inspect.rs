//! Questions about the link structure that need no knowledge of how the
//! matrix was built: whether a list closes into a circle.

use crate::links::{links_closed, opposite, DancingLinks};
use crate::matrix::around;
use crate::node::{Direction, Node};
use crate::text::column_name;
use crate::layout::is_column;
use crate::matrix::is_active;
use vstd::prelude::*;

verus! {

/// `l` lists the nodes met on the way from `head` in `direction` as far as
/// it goes without meeting `head`, each linking back to the one before.
pub open spec fn is_walk(s: Seq<Node>, head: int, direction: Direction, l: Seq<int>) -> bool {
    &&& forall|i: int| 0 <= i < l.len() ==> 0 <= #[trigger] l[i] < s.len() && l[i] != head
    &&& forall|i: int, j: int|
        -1 <= i < l.len() - 1 && j == i + 1 ==> s[#[trigger] around(l, head, i)].neighbour(
            direction,
        ) == #[trigger] around(l, head, j) && s[around(l, head, j)].neighbour(opposite(direction))
            == around(l, head, i)
}

/// `l` lists the nodes of a circle through `head`: the walk from `head` in
/// `direction` along `l` comes back to `head`, and back again the other
/// way, having met fewer nodes than the store holds.
pub open spec fn is_cycle(s: Seq<Node>, head: int, direction: Direction, l: Seq<int>) -> bool {
    &&& l.len() < s.len()
    &&& is_walk(s, head, direction, l)
    &&& s[around(l, head, l.len() - 1)].neighbour(direction) == head
    &&& s[head].neighbour(opposite(direction)) == around(l, head, l.len() - 1)
}

/// The list that runs from `head` in `direction` is a circle.
pub open spec fn is_circular(s: Seq<Node>, head: int, direction: Direction) -> bool {
    exists|l: Seq<int>| is_cycle(s, head, direction, l)
}

/// A walk and a circle from the same node in the same direction agree as
/// far as the walk goes.
proof fn lemma_walk_prefix(
    s: Seq<Node>,
    head: int,
    direction: Direction,
    l: Seq<int>,
    w: Seq<int>,
    i: int,
)
    requires
        is_cycle(s, head, direction, l),
        is_walk(s, head, direction, w),
        0 <= i <= w.len(),
    ensures
        i <= l.len(),
        forall|j: int| 0 <= j < i ==> l[j] == w[j],
    decreases i,
{
    if i > 0 {
        lemma_walk_prefix(s, head, direction, l, w, i - 1);
        assert(s[around(w, head, i - 2)].neighbour(direction) == around(w, head, i - 1));
        if i - 1 < l.len() {
            assert(s[around(l, head, i - 2)].neighbour(direction) == around(l, head, i - 1));
        }
    }
}

impl DancingLinks {
    /// Whether the list that runs from `head` in `direction` closes into a
    /// circle whose links agree in both directions.
    pub fn is_circular_from(&self, head: usize, direction: Direction) -> (circular: bool)
        requires
            head < self@.len(),
            links_closed(self@),
        ensures
            circular == is_circular(self@, head as int, direction),
    {
        let back = match direction {
            Direction::Left => Direction::Right,
            Direction::Right => Direction::Left,
            Direction::Up => Direction::Down,
            Direction::Down => Direction::Up,
        };
        let ghost s = self@;
        let ghost h = head as int;
        let n = self.nodes.len();
        let mut current = head;
        let mut steps: usize = 0;
        let ghost mut walked: Seq<int> = Seq::empty();
        loop
            invariant
                s == self@,
                h == head,
                n == s.len(),
                back == opposite(direction),
                links_closed(s),
                steps < n,
                walked.len() == steps,
                current == around(walked, h, steps - 1),
                current < n,
                is_walk(s, h, direction, walked),
            decreases n - steps,
        {
            let next = self.traverse(current, direction);
            let ghost longer = walked.push(next as int);
            if self.traverse(next, back) != current {
                proof {
                    if is_circular(s, h, direction) {
                        let l = choose|l: Seq<int>| is_cycle(s, h, direction, l);
                        lemma_walk_prefix(s, h, direction, l, walked, steps as int);
                        if (steps as int) < l.len() {
                            assert(s[around(l, h, steps - 1)].neighbour(direction) == around(
                                l,
                                h,
                                steps as int,
                            ));
                            assert(s[around(l, h, steps as int)].neighbour(opposite(direction))
                                == around(l, h, steps - 1));
                        }
                    }
                }
                return false;
            }
            if next == head {
                proof {
                    assert(is_cycle(s, h, direction, walked));
                }
                return true;
            }
            proof {
                assert forall|i: int, j: int|
                    -1 <= i < longer.len() - 1 && j == i + 1 implies s[#[trigger] around(
                    longer,
                    h,
                    i,
                )].neighbour(direction) == #[trigger] around(longer, h, j) && s[around(
                    longer,
                    h,
                    j,
                )].neighbour(opposite(direction)) == around(longer, h, i) by {
                    if j < steps {
                        assert(s[around(walked, h, i)].neighbour(direction) == around(
                            walked,
                            h,
                            j,
                        ));
                    }
                }
                walked = longer;
            }
            steps += 1;
            current = next;
            if steps >= n {
                proof {
                    if is_circular(s, h, direction) {
                        let l = choose|l: Seq<int>| is_cycle(s, h, direction, l);
                        lemma_walk_prefix(s, h, direction, l, walked, steps as int);
                    }
                }
                return false;
            }
        }
    }

    /// Whether the header row closes into a circle through the root.
    pub fn verify_header_row_is_circular(&self) -> (circular: bool)
        requires
            self@.len() > 0,
            links_closed(self@),
        ensures
            circular == is_circular(self@, 0, Direction::Right),
    {
        self.is_circular_from(0, Direction::Right)
    }

    /// Whether the column of the header row that bears the name `col_name`
    /// closes into a circle through its header; an error if the header row
    /// has no such column.
    pub fn verify_column_is_circular(&self, col_name: &String) -> (result: Result<
        bool,
        &'static str,
    >)
        requires
            self@.len() >= 325,
            links_closed(self@),
        ensures
            match result {
                Ok(circular) => exists|h: int|
                    {
                        &&& is_column(h)
                        &&& is_active(self@, h)
                        &&& #[trigger] column_name(h) == col_name@
                        &&& forall|g: int|
                            1 <= g < h && is_active(self@, g) ==> column_name(g) != col_name@
                        &&& circular == is_circular(self@, h, Direction::Down)
                    },
                Err(e) => {
                    &&& e@ == "Header is not circular"@
                    &&& forall|h: int|
                        is_column(h) && is_active(self@, h) ==> column_name(h) != col_name@
                },
            },
    {
        match self.get_col(col_name) {
            Ok(h) => Ok(self.is_circular_from(h, Direction::Down)),
            Err(e) => Err(e),
        }
    }
}

} // verus!
