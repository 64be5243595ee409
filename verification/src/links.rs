//! The mathematical model of the cover matrix.
//!
//! A matrix is an arena of nodes whose four links form rings: one vertical
//! ring per column, through its header; one horizontal ring per non-empty
//! row; and one horizontal ring through the root and the headers of the
//! columns that are not covered.  [`Links`] holds the arena together with
//! the order of the nodes on each ring, and a record of the covers that
//! have not been undone.  Every contract of the matrix is stated over it.

use vstd::prelude::*;

verus! {

/// What a node of the arena stands for.
#[derive(Debug, Clone, Copy, PartialEq, Eq, Structural)]
pub enum NodeKind {
    Root,
    Header,
    Entry,
}

/// One node of the arena.  Links are indices into the arena.
#[derive(Debug, Clone, Copy, PartialEq, Eq, Structural)]
pub struct Node {
    pub kind: NodeKind,
    /// Number of entries on the column's ring.  Only kept for headers.
    pub column_size: usize,
    /// Column of a header or an entry.
    pub column_index: usize,
    /// Row of an entry.
    pub row_index: usize,
    pub up: usize,
    pub down: usize,
    pub left: usize,
    pub right: usize,
}

/// The state of the rings just before a column was covered.
pub ghost struct Frame {
    /// The column that was covered.
    pub column: int,
    pub nodes: Seq<Node>,
    pub cols: Seq<Seq<int>>,
    pub live: Seq<int>,
}

/// The arena and the order of its rings.
pub ghost struct Links {
    pub row_count: int,
    pub column_count: int,
    /// The arena: the root, then one header per column, then the entries.
    pub nodes: Seq<Node>,
    /// For each row, one of its entries, if it has any.
    pub fronts: Seq<Option<usize>>,
    /// For each row, its entries in ring order, going right from its front.
    pub rows: Seq<Seq<int>>,
    /// For each column, the entries on its ring, going down from its header.
    pub cols: Seq<Seq<int>>,
    /// The columns on the root's ring, going right from the root.
    pub live: Seq<int>,
    /// The covers that have not been undone, oldest first.
    pub trail: Seq<Frame>,
}

/// Position `k` brought back into `0..len` after one step off either end.
pub open spec fn wrap(k: int, len: int) -> int {
    if k >= len {
        k - len
    } else if k < 0 {
        k + len
    } else {
        k
    }
}

/// The node that the root is in a cleared matrix of `columns` columns.
pub open spec fn root_node(columns: int) -> Node {
    Node {
        kind: NodeKind::Root,
        column_size: usize::MAX,
        column_index: usize::MAX,
        row_index: usize::MAX,
        up: 0,
        down: 0,
        left: columns as usize,
        right: 1,
    }
}

/// The header of column `c` in a cleared matrix of `columns` columns.
pub open spec fn header_node(columns: int, c: int) -> Node {
    Node {
        kind: NodeKind::Header,
        column_size: 0,
        column_index: c as usize,
        row_index: usize::MAX,
        up: (c + 1) as usize,
        down: (c + 1) as usize,
        left: c as usize,
        right: if c == columns - 1 { 0usize } else { (c + 2) as usize },
    }
}

/// The four links of a node point into an arena of `n` nodes.
pub open spec fn links_within(node: Node, n: int) -> bool {
    &&& node.up < n
    &&& node.down < n
    &&& node.left < n
    &&& node.right < n
}

impl Links {
    /// The cleared matrix: every column on the root's ring, and no entry.
    pub open spec fn empty(rows: int, columns: int) -> Links {
        Links {
            row_count: rows,
            column_count: columns,
            nodes: Seq::new(
                (columns + 1) as nat,
                |i: int| if i == 0 { root_node(columns) } else { header_node(columns, i - 1) },
            ),
            fronts: Seq::new(rows as nat, |r: int| None),
            rows: Seq::new(rows as nat, |r: int| Seq::empty()),
            cols: Seq::new(columns as nat, |c: int| Seq::empty()),
            live: Seq::new(columns as nat, |k: int| k),
            trail: Seq::empty(),
        }
    }

    /// Index `e` is that of an entry of the arena.
    pub open spec fn is_entry(self, e: int) -> bool {
        self.column_count < e < self.nodes.len()
    }

    /// The column of a node.
    pub open spec fn col_of(self, e: int) -> int {
        self.nodes[e].column_index as int
    }

    /// The row of an entry.
    pub open spec fn row_of(self, e: int) -> int {
        self.nodes[e].row_index as int
    }

    /// The kinds, coordinates and bounds that never change once a node exists.
    pub open spec fn shape_ok(self) -> bool {
        &&& 0 < self.row_count <= usize::MAX
        &&& 0 < self.column_count < usize::MAX
        &&& self.column_count < self.nodes.len() <= usize::MAX
        &&& self.nodes[0].kind == NodeKind::Root
        &&& forall|i: int|
            1 <= i <= self.column_count ==> (#[trigger] self.nodes[i]).kind == NodeKind::Header
                && self.nodes[i].column_index == i - 1
        &&& forall|i: int|
            self.is_entry(i) ==> (#[trigger] self.nodes[i]).kind == NodeKind::Entry
                && self.nodes[i].column_index < self.column_count && self.nodes[i].row_index
                < self.row_count
        &&& forall|i: int|
            0 <= i < self.nodes.len() ==> links_within(#[trigger] self.nodes[i], self.nodes.len() as int)
    }

    /// The node at position `k` of column `c`'s ring; the header stands at
    /// both ends.
    pub open spec fn vat(self, c: int, k: int) -> int {
        if 0 <= k < self.cols[c].len() {
            self.cols[c][k]
        } else {
            c + 1
        }
    }

    /// Positions `k` and `k + 1` of column `c`'s ring point at each other.
    pub open spec fn col_link(self, c: int, k: int) -> bool {
        &&& self.nodes[self.vat(c, k)].down == self.vat(c, k + 1)
        &&& self.nodes[self.vat(c, k + 1)].up == self.vat(c, k)
    }

    /// The ring of column `c` is a ring of entries of that column, each
    /// once, and the header counts them.
    pub open spec fn col_ok(self, c: int) -> bool {
        let ring = self.cols[c];
        &&& forall|k: int|
            0 <= k < ring.len() ==> self.is_entry(#[trigger] ring[k]) && self.col_of(ring[k]) == c
        &&& ring.no_duplicates()
        &&& forall|k: int| -1 <= k < ring.len() ==> #[trigger] self.col_link(c, k)
        &&& self.nodes[c + 1].column_size == ring.len()
    }

    /// Every column has its ring.
    pub open spec fn cols_ok(self) -> bool {
        &&& self.cols.len() == self.column_count
        &&& forall|c: int| 0 <= c < self.column_count ==> #[trigger] self.col_ok(c)
    }

    /// The node at position `k` of the root's ring; the root stands at both
    /// ends.
    pub open spec fn hat(self, k: int) -> int {
        if 0 <= k < self.live.len() {
            self.live[k] + 1
        } else {
            0
        }
    }

    /// Positions `k` and `k + 1` of the root's ring point at each other.
    pub open spec fn live_link(self, k: int) -> bool {
        &&& self.nodes[self.hat(k)].right == self.hat(k + 1)
        &&& self.nodes[self.hat(k + 1)].left == self.hat(k)
    }

    /// The root's ring is a ring of headers, each once.
    pub open spec fn live_ok(self) -> bool {
        &&& forall|k: int| 0 <= k < self.live.len() ==> 0 <= #[trigger] self.live[k] < self.column_count
        &&& self.live.no_duplicates()
        &&& forall|k: int| -1 <= k < self.live.len() ==> #[trigger] self.live_link(k)
    }

    /// Position `k` of row `r`'s ring and the one to its right point at each
    /// other.
    pub open spec fn row_link(self, r: int, k: int) -> bool {
        let ring = self.rows[r];
        let next = ring[wrap(k + 1, ring.len() as int)];
        &&& self.nodes[ring[k]].right == next
        &&& self.nodes[next].left == ring[k]
    }

    /// The ring of row `r` is a ring of entries of that row, each once, and
    /// starts at the row's front.
    pub open spec fn row_ring(self, r: int) -> bool {
        let ring = self.rows[r];
        &&& forall|k: int|
            0 <= k < ring.len() ==> self.is_entry(#[trigger] ring[k]) && self.row_of(ring[k]) == r
        &&& ring.no_duplicates()
        &&& forall|k: int| 0 <= k < ring.len() ==> #[trigger] self.row_link(r, k)
        &&& self.fronts[r] == if ring.len() == 0 {
            None
        } else {
            Some(ring[0] as usize)
        }
    }

    /// Row `r` has its ring, and no two of its entries stand in one column.
    pub open spec fn row_ok(self, r: int) -> bool {
        let ring = self.rows[r];
        &&& self.row_ring(r)
        &&& forall|i: int, j: int|
            0 <= i < j < ring.len() ==> self.col_of(#[trigger] ring[i]) != self.col_of(
                #[trigger] ring[j],
            )
    }

    /// Every row has its ring, and every entry is on the ring of its row.
    /// A row may hold two entries in one column.
    pub open spec fn rows_ring(self) -> bool {
        &&& self.rows.len() == self.row_count
        &&& self.fronts.len() == self.row_count
        &&& forall|r: int| 0 <= r < self.row_count ==> #[trigger] self.row_ring(r)
        &&& forall|e: int| self.is_entry(e) ==> #[trigger] self.rows[self.row_of(e)].contains(e)
    }

    /// Every row has its ring with no two entries in one column, and every
    /// entry is on the ring of its row.
    pub open spec fn rows_ok(self) -> bool {
        &&& self.rows.len() == self.row_count
        &&& self.fronts.len() == self.row_count
        &&& forall|r: int| 0 <= r < self.row_count ==> #[trigger] self.row_ok(r)
        &&& forall|e: int| self.is_entry(e) ==> #[trigger] self.rows[self.row_of(e)].contains(e)
    }

    /// The rings are rings: what every operation keeps, also half way
    /// through a cover.
    pub open spec fn rings_ok(self) -> bool {
        &&& self.shape_ok()
        &&& self.rows_ok()
        &&& self.cols_ok()
        &&& self.live_ok()
    }

    /// The matrix has a one at row `r`, column `c`.
    pub open spec fn has(self, r: int, c: int) -> bool {
        exists|k: int| 0 <= k < self.rows[r].len() && self.col_of(#[trigger] self.rows[r][k]) == c
    }

    /// Every column in which row `r` has a one is on the root's ring.
    pub open spec fn active(self, r: int) -> bool {
        forall|k: int|
            0 <= k < self.rows[r].len() ==> self.live.contains(
                self.col_of(#[trigger] self.rows[r][k]),
            )
    }

    /// Entry `e` is on the ring of its column.
    pub open spec fn linked(self, e: int) -> bool {
        self.cols[self.col_of(e)].contains(e)
    }

    /// Below a column that is not covered hang the entries of the rows that
    /// touch no covered column, and no others.
    pub open spec fn rows_match(self) -> bool {
        forall|e: int|
            self.is_entry(e) && self.live.contains(self.col_of(e)) ==> (#[trigger] self.linked(e)
                <==> self.active(self.row_of(e)))
    }

    /// With no cover outstanding, every column is on the root's ring.
    pub open spec fn all_live_at_rest(self) -> bool {
        self.trail.len() == 0 ==> forall|c: int|
            0 <= c < self.column_count ==> #[trigger] self.live.contains(c)
    }

    /// What holds between operations of a state taken by itself.
    pub open spec fn base_wf(self) -> bool {
        &&& self.rings_ok()
        &&& self.rows_match()
        &&& self.all_live_at_rest()
    }

    /// What holds of a matrix while it is being built: all that holds
    /// between operations, but that a row may hold two entries in one
    /// column.  Such a matrix takes entries; it cannot be covered.
    pub open spec fn loose_ok(self) -> bool {
        &&& self.shape_ok()
        &&& self.rows_ring()
        &&& self.cols_ok()
        &&& self.live_ok()
        &&& self.rows_match()
        &&& self.all_live_at_rest()
    }

    /// No row holds two entries in one column.
    pub open spec fn no_doubles(self) -> bool {
        forall|r: int, i: int, j: int|
            0 <= r < self.row_count && 0 <= i < j < self.rows[r].len() ==> self.col_of(
                #[trigger] self.rows[r][i],
            ) != self.col_of(#[trigger] self.rows[r][j])
    }

    /// The dimensions are positive and leave room for the root.
    pub open spec fn dims_ok(self) -> bool {
        &&& 0 < self.row_count <= usize::MAX
        &&& 0 < self.column_count < usize::MAX
        &&& self.fronts.len() == self.row_count
    }
}

/// The cleared matrix is well formed.
pub proof fn lemma_empty_wf(rows: int, columns: int)
    requires
        0 < rows <= usize::MAX,
        0 < columns < usize::MAX,
    ensures
        Links::empty(rows, columns).base_wf(),
{
    let l = Links::empty(rows, columns);
    assert forall|c: int| 0 <= c < columns implies #[trigger] l.col_ok(c) by {
        assert(l.cols[c].len() == 0);
        assert forall|k: int| -1 <= k < l.cols[c].len() implies #[trigger] l.col_link(c, k) by {
            assert(l.vat(c, k) == c + 1);
            assert(l.vat(c, k + 1) == c + 1);
        }
    }
    assert forall|k: int| -1 <= k < l.live.len() implies #[trigger] l.live_link(k) by {
        if k == -1 {
            assert(l.hat(k) == 0);
            assert(l.hat(k + 1) == 1);
        } else if k == columns - 1 {
            assert(l.hat(k) == columns);
            assert(l.hat(k + 1) == 0);
        } else {
            assert(l.hat(k) == k + 1);
            assert(l.hat(k + 1) == k + 2);
        }
    }
    assert forall|r: int| 0 <= r < rows implies #[trigger] l.row_ok(r) by {
        assert(l.rows[r].len() == 0);
    }
    assert forall|c: int| 0 <= c < columns implies #[trigger] l.live.contains(c) by {
        assert(l.live[c] == c);
    }
}

/// A well-formed matrix is one that can be built on, and more: none of its
/// rows holds two entries in one column.
pub proof fn lemma_wf_is_loose(l: Links)
    ensures
        l.base_wf() <==> l.loose_ok() && l.no_doubles(),
{
    if l.base_wf() {
        assert forall|r: int| 0 <= r < l.row_count implies #[trigger] l.row_ring(r) by {
            assert(l.row_ok(r));
        }
        assert forall|r: int, i: int, j: int|
            0 <= r < l.row_count && 0 <= i < j < l.rows[r].len() implies l.col_of(
            #[trigger] l.rows[r][i],
        ) != l.col_of(#[trigger] l.rows[r][j]) by {
            assert(l.row_ok(r));
        }
    }
    if l.loose_ok() && l.no_doubles() {
        assert forall|r: int| 0 <= r < l.row_count implies #[trigger] l.row_ok(r) by {
            assert(l.row_ring(r));
        }
    }
}

} // verus!
