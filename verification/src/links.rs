//! The node store and the elementary operations on its links.

use crate::node::{Direction, Node, RowInfo};
use vstd::prelude::*;

verus! {

/// A Dancing Links matrix: every node lives in `nodes`, and links are
/// indices into it. Index 0 is the root of the header row.
pub struct DancingLinks {
    pub nodes: Vec<Node>,
}

impl View for DancingLinks {
    type V = Seq<Node>;

    open spec fn view(&self) -> Seq<Node> {
        self.nodes@
    }
}

/// Every link of `n` points into a store of `len` nodes.
pub open spec fn node_closed(n: Node, len: nat) -> bool {
    &&& n.up < len
    &&& n.down < len
    &&& n.left < len
    &&& n.right < len
    &&& n.column_header < len
}

/// No link of `s` points outside `s`.
pub open spec fn links_closed(s: Seq<Node>) -> bool {
    forall|x: int| 0 <= x < s.len() ==> node_closed(#[trigger] s[x], s.len())
}

/// `s` with the link of node `x` in `direction` set to `target`.
pub open spec fn with_link(s: Seq<Node>, x: int, direction: Direction, target: usize) -> Seq<Node> {
    s.update(
        x,
        match direction {
            Direction::Left => Node { left: target, ..s[x] },
            Direction::Right => Node { right: target, ..s[x] },
            Direction::Up => Node { up: target, ..s[x] },
            Direction::Down => Node { down: target, ..s[x] },
        },
    )
}

/// `s` with the size of node `x` set to `size`.
pub open spec fn with_size(s: Seq<Node>, x: int, size: usize) -> Seq<Node> {
    s.update(x, Node { size, ..s[x] })
}

/// `s` with the column header of node `x` set to `header`.
pub open spec fn with_column(s: Seq<Node>, x: int, header: usize) -> Seq<Node> {
    s.update(x, Node { column_header: header, ..s[x] })
}

/// Node `x` taken out of its column: its upper and lower neighbours link
/// to each other; `x` keeps its own links.
pub open spec fn unlink_vertical(s: Seq<Node>, x: int) -> Seq<Node> {
    let s1 = with_link(s, s[x].up as int, Direction::Down, s[x].down);
    with_link(s1, s[x].down as int, Direction::Up, s[x].up)
}

/// Node `x` put back between the neighbours its own links name.
pub open spec fn relink_vertical(s: Seq<Node>, x: int) -> Seq<Node> {
    let s1 = with_link(s, s[x].up as int, Direction::Down, x as usize);
    with_link(s1, s[x].down as int, Direction::Up, x as usize)
}

/// Node `x` taken out of its row: its left and right neighbours link to
/// each other; `x` keeps its own links.
pub open spec fn unlink_horizontal(s: Seq<Node>, x: int) -> Seq<Node> {
    let s1 = with_link(s, s[x].left as int, Direction::Right, s[x].right);
    with_link(s1, s[x].right as int, Direction::Left, s[x].left)
}

/// Node `x` put back between the neighbours its own links name.
pub open spec fn relink_horizontal(s: Seq<Node>, x: int) -> Seq<Node> {
    let s1 = with_link(s, s[x].left as int, Direction::Right, x as usize);
    with_link(s1, s[x].right as int, Direction::Left, x as usize)
}

/// `direction` runs along a row.
pub open spec fn is_horizontal(direction: Direction) -> bool {
    direction is Left || direction is Right
}

/// Node `x` taken out of the list that runs along `direction`.
pub open spec fn unlinked(s: Seq<Node>, x: int, direction: Direction) -> Seq<Node> {
    if is_horizontal(direction) {
        unlink_horizontal(s, x)
    } else {
        unlink_vertical(s, x)
    }
}

/// Node `x` put back into the list that runs along `direction`.
pub open spec fn relinked(s: Seq<Node>, x: int, direction: Direction) -> Seq<Node> {
    if is_horizontal(direction) {
        relink_horizontal(s, x)
    } else {
        relink_vertical(s, x)
    }
}

/// The direction that leads back.
pub open spec fn opposite(direction: Direction) -> Direction {
    match direction {
        Direction::Left => Direction::Right,
        Direction::Right => Direction::Left,
        Direction::Up => Direction::Down,
        Direction::Down => Direction::Up,
    }
}

/// Node `new` inserted next to `current` on the side `direction`, between
/// `current` and the neighbour it had there.
pub open spec fn inserted(s: Seq<Node>, current: int, new: int, direction: Direction) -> Seq<Node> {
    let back = opposite(direction);
    let old_next = s[current].neighbour(direction);
    let s1 = with_link(s, new, back, current as usize);
    let s2 = with_link(s1, new, direction, old_next);
    let s3 = with_link(s2, current, direction, new as usize);
    with_link(s3, old_next as int, back, new as usize)
}

/// Taking a node out of a list it is linked into, then putting it back,
/// changes nothing.
pub proof fn lemma_relink_unlink(s: Seq<Node>, x: int, direction: Direction)
    requires
        0 <= x < s.len(),
        links_closed(s),
        is_horizontal(direction) ==> s[s[x].left as int].right == x && s[s[x].right as int].left
            == x,
        !is_horizontal(direction) ==> s[s[x].up as int].down == x && s[s[x].down as int].up == x,
    ensures
        relinked(unlinked(s, x, direction), x, direction) == s,
{
}

impl DancingLinks {
    /// A store that holds the root alone, circular on its own.
    pub fn new() -> (dl: Self)
        ensures
            dl@ == seq![Node::alone(0, None, true)],
            links_closed(dl@),
    {
        let mut nodes: Vec<Node> = Vec::new();
        nodes.push(Node::new(0, None, true));
        DancingLinks { nodes }
    }

    /// Adds a node that is circular on its own and returns its index.
    pub fn new_node(&mut self, row_info: Option<RowInfo>, is_header: bool) -> (index: usize)
        requires
            links_closed(old(self)@),
        ensures
            index == old(self)@.len(),
            final(self)@ == old(self)@.push(Node::alone(index, row_info, is_header)),
            links_closed(final(self)@),
    {
        let index = self.nodes.len();
        self.nodes.push(Node::new(index, row_info, is_header));
        index
    }

    /// Adds a column header with no rows and returns its index.
    pub fn new_header(&mut self) -> (index: usize)
        requires
            links_closed(old(self)@),
        ensures
            index == old(self)@.len(),
            final(self)@ == old(self)@.push(Node::alone(index, None, true)),
            links_closed(final(self)@),
    {
        self.new_node(None, true)
    }

    /// The neighbour of `node` in `direction`.
    pub fn traverse(&self, node: usize, direction: Direction) -> (next: usize)
        requires
            node < self@.len(),
        ensures
            next == self@[node as int].neighbour(direction),
    {
        self.nodes[node].traverse(direction)
    }

    /// Points the link of `node` in `direction` at `target`.
    pub fn set_link(&mut self, node: usize, direction: Direction, target: usize)
        requires
            node < old(self)@.len(),
            target < old(self)@.len(),
            links_closed(old(self)@),
        ensures
            final(self)@ == with_link(old(self)@, node as int, direction, target),
            links_closed(final(self)@),
    {
        let mut n: Node = self.nodes[node];
        match direction {
            Direction::Left => {
                n.left = target;
            },
            Direction::Right => {
                n.right = target;
            },
            Direction::Up => {
                n.up = target;
            },
            Direction::Down => {
                n.down = target;
            },
        }
        self.nodes.set(node, n);
        assert forall|x: int| 0 <= x < self@.len() implies node_closed(
            #[trigger] self@[x],
            self@.len(),
        ) by {}
    }

    /// The header of the column that holds `node`.
    pub fn get_column_header(&self, node: usize) -> (header: usize)
        requires
            node < self@.len(),
        ensures
            header == self@[node as int].column_header,
    {
        self.nodes[node].column_header
    }

    /// Makes `header` the column header of `node`.
    pub fn set_column_header(&mut self, node: usize, header: usize)
        requires
            node < old(self)@.len(),
            header < old(self)@.len(),
            links_closed(old(self)@),
        ensures
            final(self)@ == with_column(old(self)@, node as int, header),
            links_closed(final(self)@),
    {
        let mut n: Node = self.nodes[node];
        n.column_header = header;
        self.nodes.set(node, n);
        assert forall|x: int| 0 <= x < self@.len() implies node_closed(
            #[trigger] self@[x],
            self@.len(),
        ) by {}
    }

    /// The size that `node` holds.
    pub fn get_size(&self, node: usize) -> (size: usize)
        requires
            node < self@.len(),
        ensures
            size == self@[node as int].size,
    {
        self.nodes[node].size
    }

    /// Adds one to the size that `node` holds.
    pub fn increment_size(&mut self, node: usize)
        requires
            node < old(self)@.len(),
            old(self)@[node as int].size < usize::MAX,
        ensures
            final(self)@ == with_size(
                old(self)@,
                node as int,
                (old(self)@[node as int].size + 1) as usize,
            ),
            links_closed(old(self)@) ==> links_closed(final(self)@),
    {
        let mut n: Node = self.nodes[node];
        n.size = n.size + 1;
        self.nodes.set(node, n);
        assert(self@ =~= with_size(
            old(self)@,
            node as int,
            (old(self)@[node as int].size + 1) as usize,
        ));
        assert(links_closed(old(self)@) ==> links_closed(self@)) by {
            if links_closed(old(self)@) {
                assert forall|x: int| 0 <= x < self@.len() implies node_closed(
                    #[trigger] self@[x],
                    self@.len(),
                ) by {}
            }
        }
    }

    /// Takes one from the size that `node` holds.
    pub fn decrement_size(&mut self, node: usize)
        requires
            node < old(self)@.len(),
            old(self)@[node as int].size > 0,
        ensures
            final(self)@ == with_size(
                old(self)@,
                node as int,
                (old(self)@[node as int].size - 1) as usize,
            ),
            links_closed(old(self)@) ==> links_closed(final(self)@),
    {
        let mut n: Node = self.nodes[node];
        n.size = n.size - 1;
        self.nodes.set(node, n);
        assert(self@ =~= with_size(
            old(self)@,
            node as int,
            (old(self)@[node as int].size - 1) as usize,
        ));
        assert(links_closed(old(self)@) ==> links_closed(self@)) by {
            if links_closed(old(self)@) {
                assert forall|x: int| 0 <= x < self@.len() implies node_closed(
                    #[trigger] self@[x],
                    self@.len(),
                ) by {}
            }
        }
    }

    /// Takes `node` out of the list that runs along `direction`: its two
    /// neighbours there link to each other, and `node` keeps its own links.
    pub fn remove_from_neighbors(&mut self, node: usize, direction: Direction)
        requires
            node < old(self)@.len(),
            links_closed(old(self)@),
        ensures
            final(self)@ == unlinked(old(self)@, node as int, direction),
            links_closed(final(self)@),
    {
        match direction {
            Direction::Left | Direction::Right => {
                let left = self.traverse(node, Direction::Left);
                let right = self.traverse(node, Direction::Right);
                self.set_link(left, Direction::Right, right);
                self.set_link(right, Direction::Left, left);
            },
            Direction::Up | Direction::Down => {
                let up = self.traverse(node, Direction::Up);
                let down = self.traverse(node, Direction::Down);
                self.set_link(up, Direction::Down, down);
                self.set_link(down, Direction::Up, up);
            },
        }
    }

    /// Puts `node` back into the list that runs along `direction`, between
    /// the neighbours that its own links name.
    pub fn restore_to_neighbors(&mut self, node: usize, direction: Direction)
        requires
            node < old(self)@.len(),
            links_closed(old(self)@),
        ensures
            final(self)@ == relinked(old(self)@, node as int, direction),
            links_closed(final(self)@),
    {
        match direction {
            Direction::Left | Direction::Right => {
                let left = self.traverse(node, Direction::Left);
                let right = self.traverse(node, Direction::Right);
                self.set_link(left, Direction::Right, node);
                self.set_link(right, Direction::Left, node);
            },
            Direction::Up | Direction::Down => {
                let up = self.traverse(node, Direction::Up);
                let down = self.traverse(node, Direction::Down);
                self.set_link(up, Direction::Down, node);
                self.set_link(down, Direction::Up, node);
            },
        }
    }

    /// Inserts `new` next to `current` on the side `direction`.
    fn link(&mut self, current: usize, new: usize, direction: Direction)
        requires
            current < old(self)@.len(),
            new < old(self)@.len(),
            links_closed(old(self)@),
        ensures
            final(self)@ == inserted(old(self)@, current as int, new as int, direction),
            links_closed(final(self)@),
    {
        let back = match direction {
            Direction::Left => Direction::Right,
            Direction::Right => Direction::Left,
            Direction::Up => Direction::Down,
            Direction::Down => Direction::Up,
        };
        let old_next = self.traverse(current, direction);
        self.set_link(new, back, current);
        self.set_link(new, direction, old_next);
        self.set_link(current, direction, new);
        self.set_link(old_next, back, new);
    }

    /// Inserts `right` immediately to the right of `current`.
    pub fn link_right(&mut self, current: usize, right: usize)
        requires
            current < old(self)@.len(),
            right < old(self)@.len(),
            links_closed(old(self)@),
        ensures
            final(self)@ == inserted(old(self)@, current as int, right as int, Direction::Right),
            links_closed(final(self)@),
    {
        self.link(current, right, Direction::Right)
    }

    /// Inserts `left` immediately to the left of `current`.
    pub fn link_left(&mut self, current: usize, left: usize)
        requires
            current < old(self)@.len(),
            left < old(self)@.len(),
            links_closed(old(self)@),
        ensures
            final(self)@ == inserted(old(self)@, current as int, left as int, Direction::Left),
            links_closed(final(self)@),
    {
        self.link(current, left, Direction::Left)
    }

    /// Inserts `up` immediately above `current`.
    pub fn link_up(&mut self, current: usize, up: usize)
        requires
            current < old(self)@.len(),
            up < old(self)@.len(),
            links_closed(old(self)@),
        ensures
            final(self)@ == inserted(old(self)@, current as int, up as int, Direction::Up),
            links_closed(final(self)@),
    {
        self.link(current, up, Direction::Up)
    }

    /// Inserts `down` immediately below `current`.
    pub fn link_down(&mut self, current: usize, down: usize)
        requires
            current < old(self)@.len(),
            down < old(self)@.len(),
            links_closed(old(self)@),
        ensures
            final(self)@ == inserted(old(self)@, current as int, down as int, Direction::Down),
            links_closed(final(self)@),
    {
        self.link(current, down, Direction::Down)
    }
}

} // verus!
