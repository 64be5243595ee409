//! The text of a matrix: its uncovered columns and its rows, for reading
//! by eye.

use vstd::prelude::*;
use vstd::string::*;
use crate::board::{digit_char, digit_text};
use crate::links::{Links, Node, NodeKind};

verus! {

/// A number in decimal digits, without leading zeros.
pub open spec fn decimal(n: nat) -> Seq<char>
    decreases n,
{
    if n < 10 {
        seq![digit_char(n as usize)]
    } else {
        decimal(n / 10) + seq![digit_char((n % 10) as usize)]
    }
}

/// The name of a kind of node.
pub open spec fn kind_name(kind: NodeKind) -> Seq<char> {
    match kind {
        NodeKind::Root => "Root"@,
        NodeKind::Header => "Header"@,
        NodeKind::Entry => "Entry"@,
    }
}

/// A text followed by all the fields of a node with their names.
pub open spec fn with_node(text: Seq<char>, node: Node) -> Seq<char> {
    text + "Node { kind: "@ + kind_name(node.kind) + ", column_size: "@ + decimal(
        node.column_size as nat,
    ) + ", column_index: "@ + decimal(node.column_index as nat) + ", row_index: "@ + decimal(
        node.row_index as nat,
    ) + ", up: "@ + decimal(node.up as nat) + ", down: "@ + decimal(node.down as nat) + ", left: "@
        + decimal(node.left as nat) + ", right: "@ + decimal(node.right as nat) + " }"@
}

/// A text followed by the index, the column and the four links of an
/// entry.
pub open spec fn with_links(text: Seq<char>, index: int, node: Node) -> Seq<char> {
    text + "(i="@ + decimal(index as nat) + ";c="@ + decimal(node.column_index as nat) + ";l="@
        + decimal(node.left as nat) + ";r="@ + decimal(node.right as nat) + ";u="@ + decimal(
        node.up as nat,
    ) + ";d="@ + decimal(node.down as nat) + ") "@
}

/// A text followed by a line for each of the first `k` columns on the
/// root's ring: the word `col` and the header of the column.
pub open spec fn with_columns(text: Seq<char>, l: Links, k: int) -> Seq<char>
    decreases k,
{
    if k <= 0 {
        text
    } else {
        with_node(with_columns(text, l, k - 1) + "col "@, l.nodes[l.live[k - 1] + 1]) + "\n"@
    }
}

/// A text followed by the first `k` entries of the ring of row `r`, going
/// right from its front.
pub open spec fn with_ring(text: Seq<char>, l: Links, r: int, k: int) -> Seq<char>
    decreases k,
{
    if k <= 0 {
        text
    } else {
        with_links(with_ring(text, l, r, k - 1), l.rows[r][k - 1], l.nodes[l.rows[r][k - 1]])
    }
}

/// A text followed by a line for each of the first `r` rows that has an
/// entry: the word `row`, the number of the row, and its entries in
/// brackets.
pub open spec fn with_rows(text: Seq<char>, l: Links, r: int) -> Seq<char>
    decreases r,
{
    if r <= 0 {
        text
    } else {
        let before = with_rows(text, l, r - 1);
        if l.rows[r - 1].len() == 0 {
            before
        } else {
            with_ring(
                before + "row "@ + decimal((r - 1) as nat) + ": [ "@,
                l,
                r - 1,
                l.rows[r - 1].len() as int,
            ) + "]\n"@
        }
    }
}

/// The text of a matrix: a line for each column on the root's ring, in the
/// order of the ring, and then a line for each row that has an entry.
pub open spec fn matrix_text(l: Links) -> Seq<char> {
    with_rows(with_columns(Seq::empty(), l, l.live.len() as int), l, l.row_count)
}

/// Appends a number in decimal digits.
pub fn append_number(buf: &mut String, n: usize)
    ensures
        final(buf)@ == old(buf)@ + decimal(n as nat),
    decreases n,
{
    if n >= 10 {
        append_number(buf, n / 10);
    }
    buf.append(digit_text(n % 10));
    proof {
        if n >= 10 {
            assert(buf@ =~= old(buf)@ + decimal(n as nat));
        }
    }
}

/// Appends the name of a kind of node.
fn append_kind(buf: &mut String, kind: NodeKind)
    ensures
        final(buf)@ == old(buf)@ + kind_name(kind),
{
    match kind {
        NodeKind::Root => buf.append("Root"),
        NodeKind::Header => buf.append("Header"),
        NodeKind::Entry => buf.append("Entry"),
    }
}

/// Appends all the fields of a node with their names.
pub fn append_node(buf: &mut String, node: Node)
    ensures
        final(buf)@ == with_node(old(buf)@, node),
{
    buf.append("Node { kind: ");
    append_kind(buf, node.kind);
    buf.append(", column_size: ");
    append_number(buf, node.column_size);
    buf.append(", column_index: ");
    append_number(buf, node.column_index);
    buf.append(", row_index: ");
    append_number(buf, node.row_index);
    buf.append(", up: ");
    append_number(buf, node.up);
    buf.append(", down: ");
    append_number(buf, node.down);
    buf.append(", left: ");
    append_number(buf, node.left);
    buf.append(", right: ");
    append_number(buf, node.right);
    buf.append(" }");
}

/// Appends the index, the column and the four links of an entry.
pub fn append_links(buf: &mut String, index: usize, node: Node)
    ensures
        final(buf)@ == with_links(old(buf)@, index as int, node),
{
    buf.append("(i=");
    append_number(buf, index);
    buf.append(";c=");
    append_number(buf, node.column_index);
    buf.append(";l=");
    append_number(buf, node.left);
    buf.append(";r=");
    append_number(buf, node.right);
    buf.append(";u=");
    append_number(buf, node.up);
    buf.append(";d=");
    append_number(buf, node.down);
    buf.append(") ");
}

} // verus!
