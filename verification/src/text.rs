//! Names of the columns and text for diagnostics.

use crate::board::Board;
use crate::layout::is_column;
use crate::links::{links_closed, DancingLinks};
use crate::matrix::{around, header_row, is_active, well_formed};
use crate::node::{Direction, Node};
use crate::search::lemma_header_item;
use vstd::prelude::*;
use vstd::string::StringExecFns;

verus! {

/// The text of a digit `0..=9`.
pub open spec fn digit_text(d: int) -> Seq<char> {
    if d == 0 {
        "0"@
    } else if d == 1 {
        "1"@
    } else if d == 2 {
        "2"@
    } else if d == 3 {
        "3"@
    } else if d == 4 {
        "4"@
    } else if d == 5 {
        "5"@
    } else if d == 6 {
        "6"@
    } else if d == 7 {
        "7"@
    } else if d == 8 {
        "8"@
    } else {
        "9"@
    }
}

/// The decimal text of `n`.
pub open spec fn decimal_text(n: int) -> Seq<char>
    decreases n,
{
    if n < 10 {
        digit_text(n)
    } else {
        decimal_text(n / 10) + digit_text(n % 10)
    }
}

/// The name of the node at index `h` if it is the root or a column header:
/// `h` for the root, `R3C4` for the cell at row 3, column 4, `R3#5` for
/// digit 5 in row 3, `C4#5` for digit 5 in column 4, `B2#5` for digit 5 in
/// box 2, all counted from 1.
pub open spec fn column_name(h: int) -> Seq<char> {
    if h == 0 {
        "h"@
    } else {
        let k = (h - 1) % 81;
        let a = digit_text(k / 9 + 1);
        let b = digit_text(k % 9 + 1);
        if h <= 81 {
            "R"@ + a + "C"@ + b
        } else if h <= 162 {
            "R"@ + a + "#"@ + b
        } else if h <= 243 {
            "C"@ + a + "#"@ + b
        } else {
            "B"@ + a + "#"@ + b
        }
    }
}

/// The name under which node `x` of `s` is shown: that of its column if it
/// is a header, else `unnamed`.
pub open spec fn shown_name(s: Seq<Node>, x: int) -> Seq<char> {
    if s[x].is_header && x < 325 {
        column_name(x)
    } else {
        "unnamed"@
    }
}

/// The name of node `x` of `s` as a neighbour is shown by: that of its
/// column if it is a header, else `<unnamed>`.
pub open spec fn link_name(s: Seq<Node>, x: int) -> Seq<char> {
    if s[x].is_header && x < 325 {
        column_name(x)
    } else {
        "<unnamed>"@
    }
}

/// The text that shows node `x` of `s`: its name, the names of its four
/// neighbours, its size if it is a header, and its candidate if it has
/// one.
pub open spec fn node_text(s: Seq<Node>, x: int) -> Seq<char> {
    let n = s[x];
    let links = "Node ["@ + link_name(s, x) + "]Links [Up: "@ + link_name(s, n.up as int)
        + ", Down: "@ + link_name(s, n.down as int) + ", Left: "@ + link_name(s, n.left as int)
        + ", Right: "@ + link_name(s, n.right as int);
    let sized = if n.is_header {
        links + ", Size: Ok("@ + decimal_text(n.size as int) + ")"@
    } else {
        links
    };
    let placed = match n.row_info {
        Some(info) => sized + "Row: "@ + decimal_text(info.row as int) + ", Col: "@ + decimal_text(
            info.col as int,
        ) + ", Val: "@ + decimal_text(info.val as int),
        None => sized,
    };
    placed + "]"@
}

/// The text of a truth value.
pub open spec fn bool_text(b: bool) -> Seq<char> {
    if b {
        "true"@
    } else {
        "false"@
    }
}

/// The line that describes node `x` of `s` as a column.
pub open spec fn column_info(s: Seq<Node>, x: int) -> Seq<char> {
    "Column ["@ + shown_name(s, x) + "] Size: "@ + decimal_text(s[x].size as int) + " Header: "@
        + bool_text(s[x].is_header)
}

/// The text of the first `n` cells of a board under the opening rule:
/// each cell as `| v `, and after every ninth the end of the line and a
/// rule.
pub open spec fn cells_text(cells: Seq<u8>, n: int) -> Seq<char>
    decreases n,
{
    if n <= 0 {
        "\r\n-------------------------------------\n"@
    } else {
        let line = cells_text(cells, n - 1) + "| "@ + decimal_text(cells[n - 1] as int) + " "@;
        if n % 9 == 0 {
            line + "| \r\n-------------------------------------\n"@
        } else {
            line
        }
    }
}

/// The names of the root and of the first `n` columns of the header row
/// `l`, each followed by a space.
pub open spec fn names_text(l: Seq<int>, n: int) -> Seq<char>
    decreases n,
{
    if n <= 0 {
        "h "@
    } else {
        names_text(l, n - 1) + column_name(l[n - 1]) + " "@
    }
}

/// One line of the list of sizes: the name of node `x` and its size.
pub open spec fn size_line(s: Seq<Node>, x: int) -> Seq<char> {
    "    "@ + column_name(x) + ": Some("@ + decimal_text(s[x].size as int) + ")\n"@
}

/// The lines of sizes of the root and of the first `n` columns of the
/// header row `l`.
pub open spec fn sizes_text(s: Seq<Node>, l: Seq<int>, n: int) -> Seq<char>
    decreases n,
{
    if n <= 0 {
        size_line(s, 0)
    } else {
        sizes_text(s, l, n - 1) + size_line(s, l[n - 1])
    }
}

/// The text that shows the matrix `s`: the names along the header row,
/// then the size of each of its columns.
pub open spec fn matrix_text(s: Seq<Node>) -> Seq<char> {
    let l = header_row(s);
    "DancingLinks [\n  Header Row: "@ + names_text(l, l.len() as int) + "\n  Column Sizes:\n"@
        + sizes_text(s, l, l.len() as int) + "]"@
}

/// The text of the digit `d`.
pub fn digit_str(d: usize) -> (text: &'static str)
    requires
        d <= 9,
    ensures
        text@ == digit_text(d as int),
{
    if d == 0 {
        "0"
    } else if d == 1 {
        "1"
    } else if d == 2 {
        "2"
    } else if d == 3 {
        "3"
    } else if d == 4 {
        "4"
    } else if d == 5 {
        "5"
    } else if d == 6 {
        "6"
    } else if d == 7 {
        "7"
    } else if d == 8 {
        "8"
    } else {
        "9"
    }
}

/// The decimal text of `n`.
pub fn decimal(n: usize) -> (text: String)
    ensures
        text@ == decimal_text(n as int),
    decreases n,
{
    if n < 10 {
        String::from_str(digit_str(n))
    } else {
        let mut text = decimal(n / 10);
        text.append(digit_str(n % 10));
        text
    }
}

/// The name of the root or of the column header at index `h`.
pub fn name_of_column(h: usize) -> (name: String)
    requires
        h < 325,
    ensures
        name@ == column_name(h as int),
{
    if h == 0 {
        return String::from_str("h");
    }
    let k = (h - 1) % 81;
    let (first, middle) = if h <= 81 {
        ("R", "C")
    } else if h <= 162 {
        ("R", "#")
    } else if h <= 243 {
        ("C", "#")
    } else {
        ("B", "#")
    };
    let mut name = String::from_str(first);
    name.append(digit_str(k / 9 + 1));
    name.append(middle);
    name.append(digit_str(k % 9 + 1));
    name
}

impl Board {
    /// The board as text: nine lines of cells between rules.
    pub fn to_text(&self) -> (text: String)
        ensures
            text@ == cells_text(self.cells@, 81),
    {
        let mut text = String::from_str("\r\n-------------------------------------\n");
        let mut n: usize = 0;
        while n < 81
            invariant
                n <= 81,
                text@ == cells_text(self.cells@, n as int),
            decreases 81 - n,
        {
            text.append("| ");
            let value = decimal(self.cells[n] as usize);
            text.append(value.as_str());
            text.append(" ");
            n += 1;
            if n % 9 == 0 {
                text.append("| \r\n-------------------------------------\n");
            }
        }
        text
    }
}

impl DancingLinks {
    /// The name under which `node` is shown.
    fn name_of(&self, node: usize) -> (name: String)
        requires
            node < self@.len(),
        ensures
            name@ == shown_name(self@, node as int),
    {
        if self.nodes[node].is_header && node < 325 {
            name_of_column(node)
        } else {
            String::from_str("unnamed")
        }
    }

    /// The name by which `node` is shown as a neighbour.
    fn link_name_of(&self, node: usize) -> (name: String)
        requires
            node < self@.len(),
        ensures
            name@ == link_name(self@, node as int),
    {
        if self.nodes[node].is_header && node < 325 {
            name_of_column(node)
        } else {
            String::from_str("<unnamed>")
        }
    }

    /// The text that shows `node`: its name, the names of its neighbours,
    /// its size if it is a header, and its candidate if it has one.
    pub fn node_to_text(&self, node: usize) -> (text: String)
        requires
            node < self@.len(),
            links_closed(self@),
        ensures
            text@ == node_text(self@, node as int),
    {
        let n = self.nodes[node];
        let mut text = String::from_str("Node [");
        text.append(self.link_name_of(node).as_str());
        text.append("]Links [Up: ");
        text.append(self.link_name_of(n.up).as_str());
        text.append(", Down: ");
        text.append(self.link_name_of(n.down).as_str());
        text.append(", Left: ");
        text.append(self.link_name_of(n.left).as_str());
        text.append(", Right: ");
        text.append(self.link_name_of(n.right).as_str());
        if n.is_header {
            text.append(", Size: Ok(");
            text.append(decimal(n.size).as_str());
            text.append(")");
        }
        match n.row_info {
            Some(info) => {
                text.append("Row: ");
                text.append(decimal(info.row).as_str());
                text.append(", Col: ");
                text.append(decimal(info.col).as_str());
                text.append(", Val: ");
                text.append(decimal(info.val).as_str());
            },
            None => {},
        }
        text.append("]");
        text
    }

    /// A line that describes `node` as a column: its name, its size and
    /// whether it is a header.
    pub fn debug_column_info(&self, node: usize) -> (text: String)
        requires
            node < self@.len(),
        ensures
            text@ == column_info(self@, node as int),
    {
        let mut text = String::from_str("Column [");
        let name = self.name_of(node);
        text.append(name.as_str());
        text.append("] Size: ");
        let size = decimal(self.nodes[node].size);
        text.append(size.as_str());
        text.append(" Header: ");
        if self.nodes[node].is_header {
            text.append("true");
        } else {
            text.append("false");
        }
        text
    }

    /// The column of the header row that bears the name `col_name`.
    pub fn get_col(&self, col_name: &String) -> (result: Result<usize, &'static str>)
        requires
            self@.len() >= 325,
            links_closed(self@),
        ensures
            match result {
                Ok(h) => {
                    &&& is_column(h as int)
                    &&& is_active(self@, h as int)
                    &&& column_name(h as int) == col_name@
                    &&& forall|g: int|
                        1 <= g < h && is_active(self@, g) ==> column_name(g) != col_name@
                },
                Err(e) => {
                    &&& e@ == "Header is not circular"@
                    &&& forall|h: int|
                        is_column(h) && is_active(self@, h) ==> column_name(h) != col_name@
                },
            },
    {
        let mut next: usize = 1;
        while next < 325
            invariant
                1 <= next <= 325,
                self@.len() >= 325,
                links_closed(self@),
                forall|h: int|
                    1 <= h < next && is_active(self@, h) ==> column_name(h) != col_name@,
            decreases 325 - next,
        {
            if self.is_in_header_row(next) {
                let name = name_of_column(next);
                if name == *col_name {
                    return Ok(next);
                }
            }
            next += 1;
        }
        Err("Header is not circular")
    }

    /// The matrix as text: the names along the header row, then the size
    /// of each of its columns.
    pub fn to_text(&self) -> (text: String)
        requires
            well_formed(self@),
        ensures
            text@ == matrix_text(self@),
    {
        let ghost s = self@;
        let ghost l = header_row(s);
        proof {
            lemma_header_item(s, 0);
        }
        let mut text = String::from_str("DancingLinks [\n  Header Row: ");
        text.append("h ");
        let mut node = self.traverse(0, Direction::Right);
        let ghost mut i: int = 0;
        while node != 0
            invariant
                well_formed(s),
                s == self@,
                l == header_row(s),
                0 <= i <= l.len(),
                node == around(l, 0, i),
                text@ == "DancingLinks [\n  Header Row: "@ + names_text(l, i),
            decreases l.len() - i,
        {
            proof {
                lemma_header_item(s, i);
            }
            let name = name_of_column(node);
            text.append(name.as_str());
            text.append(" ");
            node = self.traverse(node, Direction::Right);
            proof {
                i = i + 1;
            }
        }
        proof {
            lemma_header_item(s, i);
        }
        text.append("\n  Column Sizes:\n");
        let ghost head = text@;
        self.append_size_line(&mut text, 0);
        let mut node = self.traverse(0, Direction::Right);
        let ghost mut i: int = 0;
        while node != 0
            invariant
                well_formed(s),
                s == self@,
                l == header_row(s),
                0 <= i <= l.len(),
                node == around(l, 0, i),
                text@ == head + sizes_text(s, l, i),
            decreases l.len() - i,
        {
            proof {
                lemma_header_item(s, i);
            }
            self.append_size_line(&mut text, node);
            node = self.traverse(node, Direction::Right);
            proof {
                i = i + 1;
            }
        }
        proof {
            lemma_header_item(s, i);
        }
        text.append("]");
        text
    }

    /// Appends to `text` the line of the size of the column under `node`.
    fn append_size_line(&self, text: &mut String, node: usize)
        requires
            node < 325,
            node < self@.len(),
        ensures
            final(text)@ == old(text)@ + size_line(self@, node as int),
    {
        text.append("    ");
        let name = name_of_column(node);
        text.append(name.as_str());
        text.append(": Some(");
        let size = decimal(self.nodes[node].size);
        text.append(size.as_str());
        text.append(")\n");
    }
}

} // verus!
