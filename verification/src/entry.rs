//! Adding an entry to a matrix that is at rest.

use vstd::prelude::*;
use crate::links::{Links, Node, NodeKind, lemma_wf_is_loose, links_within, wrap};

verus! {

/// The arena with the link up of node `i` set to `v`.
pub open spec fn set_up(nodes: Seq<Node>, i: int, v: int) -> Seq<Node> {
    nodes.update(i, Node { up: v as usize, ..nodes[i] })
}

/// The arena with the link down of node `i` set to `v`.
pub open spec fn set_down(nodes: Seq<Node>, i: int, v: int) -> Seq<Node> {
    nodes.update(i, Node { down: v as usize, ..nodes[i] })
}

/// The arena with the link left of node `i` set to `v`.
pub open spec fn set_left(nodes: Seq<Node>, i: int, v: int) -> Seq<Node> {
    nodes.update(i, Node { left: v as usize, ..nodes[i] })
}

/// The arena with the link right of node `i` set to `v`.
pub open spec fn set_right(nodes: Seq<Node>, i: int, v: int) -> Seq<Node> {
    nodes.update(i, Node { right: v as usize, ..nodes[i] })
}

/// The arena with the size kept in node `i` set to `v`.
pub open spec fn set_size(nodes: Seq<Node>, i: int, v: int) -> Seq<Node> {
    nodes.update(i, Node { column_size: v as usize, ..nodes[i] })
}

impl Links {
    /// The arena after a new entry was hung below the header of column `c`,
    /// above the entries that were there.
    pub open spec fn hung(self, c: int) -> Seq<Node> {
        let e = self.nodes.len() as int;
        let h = c + 1;
        let d = self.nodes[h].down as int;
        set_up(set_down(set_size(self.nodes, h, self.nodes[h].column_size + 1), h, e), d, e)
    }

    /// The matrix with one more entry, at row `r` and column `c`: the new
    /// node is topmost in its column and stands to the right of the
    /// row's front.
    pub open spec fn with_entry(self, r: int, c: int) -> Links {
        let e = self.nodes.len() as int;
        let d = self.nodes[c + 1].down;
        let hung = self.hung(c);
        let entry = Node {
            kind: NodeKind::Entry,
            column_size: usize::MAX,
            column_index: c as usize,
            row_index: r as usize,
            up: (c + 1) as usize,
            down: d,
            left: e as usize,
            right: e as usize,
        };
        let cols = self.cols.update(c, self.cols[c].insert(0, e));
        match self.fronts[r] {
            Some(f) => {
                let next = hung[f as int].right;
                Links {
                    nodes: set_left(set_right(hung, f as int, e), next as int, e).push(
                        Node { left: f, right: next, ..entry },
                    ),
                    rows: self.rows.update(r, self.rows[r].insert(1, e)),
                    cols,
                    ..self
                }
            },
            None => Links {
                nodes: hung.push(entry),
                fronts: self.fronts.update(r, Some(e as usize)),
                rows: self.rows.update(r, seq![e]),
                cols,
                ..self
            },
        }
    }

    /// What adding an entry at row `r`, column `c` asks of the matrix: that
    /// it is being built, with no cover outstanding, that the place lies in
    /// it, and that the arena has room.  The place may hold an entry already.
    pub open spec fn can_add(self, r: int, c: int) -> bool {
        &&& self.loose_ok()
        &&& self.trail.len() == 0
        &&& 0 <= r < self.row_count
        &&& 0 <= c < self.column_count
        &&& self.nodes.len() < usize::MAX
    }
}

/// What adding an entry does to each node of the arena.
proof fn lemma_with_entry_nodes(l: Links, r: int, c: int)
    requires
        l.can_add(r, c),
    ensures
        ({
            let m = l.with_entry(r, c);
            let e = l.nodes.len() as int;
            let h = c + 1;
            let d = l.nodes[h].down as int;
            &&& m.nodes.len() == e + 1
            &&& m.row_count == l.row_count
            &&& m.column_count == l.column_count
            &&& m.live == l.live
            &&& m.trail == l.trail
            &&& m.nodes[e].kind == NodeKind::Entry
            &&& m.nodes[e].column_index == c
            &&& m.nodes[e].row_index == r
            &&& m.nodes[e].up == h
            &&& m.nodes[e].down == d
            &&& 0 <= d < e
            &&& d == l.vat(c, 0)
            &&& forall|i: int|
                0 <= i < e ==> {
                    &&& (#[trigger] m.nodes[i]).kind == l.nodes[i].kind
                    &&& m.nodes[i].column_index == l.nodes[i].column_index
                    &&& m.nodes[i].row_index == l.nodes[i].row_index
                    &&& m.nodes[i].up == if i == d { e } else { l.nodes[i].up as int }
                    &&& m.nodes[i].down == if i == h { e } else { l.nodes[i].down as int }
                    &&& m.nodes[i].column_size == if i == h {
                        l.nodes[i].column_size + 1
                    } else {
                        l.nodes[i].column_size as int
                    }
                }
            &&& match l.fronts[r] {
                Some(f) => {
                    let next = l.nodes[f as int].right as int;
                    &&& l.rows[r].len() > 0
                    &&& f == l.rows[r][0]
                    &&& next == l.rows[r][wrap(1, l.rows[r].len() as int)]
                    &&& m.nodes[e].left == f
                    &&& m.nodes[e].right == next
                    &&& m.fronts == l.fronts
                    &&& forall|i: int|
                        0 <= i < e ==> {
                            &&& (#[trigger] m.nodes[i]).left == if i == next {
                                e
                            } else {
                                l.nodes[i].left as int
                            }
                            &&& m.nodes[i].right == if i == f {
                                e
                            } else {
                                l.nodes[i].right as int
                            }
                        }
                },
                None => {
                    &&& l.rows[r].len() == 0
                    &&& m.nodes[e].left == e
                    &&& m.nodes[e].right == e
                    &&& m.fronts == l.fronts.update(r, Some(e as usize))
                    &&& forall|i: int|
                        0 <= i < e ==> {
                            &&& (#[trigger] m.nodes[i]).left == l.nodes[i].left
                            &&& m.nodes[i].right == l.nodes[i].right
                        }
                },
            }
        }),
{
    let h = c + 1;
    assert(l.col_ok(c));
    assert(l.col_link(c, -1));
    assert(l.row_ring(r));
    let d = l.nodes[h].down as int;
    assert(d == l.vat(c, 0));
    assert(l.nodes[h].column_size == l.cols[c].len());
    if l.cols[c].len() > 0 {
        assert(l.is_entry(l.cols[c][0]));
    }
    assert(l.cols[c].len() <= l.nodes.len()) by {
        lemma_ring_fits(l, c);
    }
    match l.fronts[r] {
        Some(f) => {
            assert(l.row_link(r, 0));
            assert(l.is_entry(l.rows[r][0]));
        },
        None => {},
    }
}

/// A column's ring holds fewer entries than the arena has nodes.
pub proof fn lemma_ring_fits(l: Links, c: int)
    requires
        l.cols_ok(),
        0 <= c < l.column_count < l.nodes.len(),
    ensures
        l.cols[c].len() < l.nodes.len(),
{
    let ring = l.cols[c];
    assert(l.col_ok(c));
    ring.unique_seq_to_set();
    let all = vstd::set_lib::set_int_range(1, l.nodes.len() as int);
    vstd::set_lib::lemma_int_range(1, l.nodes.len() as int);
    assert(ring.to_set().subset_of(all)) by {
        assert forall|x: int| ring.to_set().contains(x) implies all.contains(x) by {
            let k = choose|k: int| 0 <= k < ring.len() && ring[k] == x;
            assert(l.is_entry(ring[k]));
        }
    }
    vstd::set_lib::lemma_len_subset(ring.to_set(), all);
}

/// Adding an entry keeps kinds, coordinates and bounds.
proof fn lemma_with_entry_shape(l: Links, r: int, c: int)
    requires
        l.can_add(r, c),
    ensures
        l.with_entry(r, c).shape_ok(),
{
    lemma_with_entry_nodes(l, r, c);
    let m = l.with_entry(r, c);
    let e = l.nodes.len() as int;
    assert forall|i: int| 1 <= i <= m.column_count implies (#[trigger] m.nodes[i]).kind
        == NodeKind::Header && m.nodes[i].column_index == i - 1 by {
        assert(l.nodes[i].kind == NodeKind::Header);
    }
    assert forall|i: int| m.is_entry(i) implies (#[trigger] m.nodes[i]).kind == NodeKind::Entry
        && m.nodes[i].column_index < m.column_count && m.nodes[i].row_index < m.row_count by {
        if i < e {
            assert(l.is_entry(i));
            assert(l.nodes[i].kind == NodeKind::Entry);
        }
    }
    assert forall|i: int| 0 <= i < m.nodes.len() implies links_within(
        #[trigger] m.nodes[i],
        m.nodes.len() as int,
    ) by {
        if i < e {
            assert(links_within(l.nodes[i], l.nodes.len() as int));
        } else {
            assert(l.row_ring(r));
            if l.fronts[r] is Some {
                assert(l.is_entry(l.rows[r][0]));
                assert(links_within(l.nodes[l.rows[r][0]], l.nodes.len() as int));
            }
        }
    }
}

/// Adding an entry keeps the rings of the columns.
proof fn lemma_with_entry_cols(l: Links, r: int, c: int)
    requires
        l.can_add(r, c),
    ensures
        l.with_entry(r, c).cols_ok(),
{
    lemma_with_entry_nodes(l, r, c);
    let m = l.with_entry(r, c);
    let e = l.nodes.len() as int;
    let h = c + 1;
    let d = l.nodes[h].down as int;
    assert forall|c2: int| 0 <= c2 < m.column_count implies #[trigger] m.col_ok(c2) by {
        assert(l.col_ok(c2));
        let ring = l.cols[c2];
        let ring2 = m.cols[c2];
        if c2 == c {
            assert(ring2 =~= ring.insert(0, e));
            assert forall|k: int| 0 <= k < ring2.len() implies m.is_entry(#[trigger] ring2[k])
                && m.col_of(ring2[k]) == c2 by {
                if k > 0 {
                    assert(ring2[k] == ring[k - 1]);
                    assert(l.is_entry(ring[k - 1]));
                }
            }
            assert forall|i: int, j: int| 0 <= i < ring2.len() && 0 <= j < ring2.len() && i != j implies ring2[i] != ring2[j] by {
                if i > 0 {
                    assert(l.is_entry(ring[i - 1]));
                }
                if j > 0 {
                    assert(l.is_entry(ring[j - 1]));
                }
            }
            assert forall|k: int| -1 <= k < ring2.len() implies #[trigger] m.col_link(c2, k) by {
                if k == -1 {
                    assert(m.vat(c, -1) == h);
                    assert(m.vat(c, 0) == e);
                } else if k == 0 {
                    assert(m.vat(c, 0) == e);
                    assert(m.vat(c, 1) == l.vat(c, 0));
                } else {
                    assert(m.vat(c, k) == l.vat(c, k - 1));
                    assert(m.vat(c, k + 1) == l.vat(c, k));
                    assert(l.col_link(c, k - 1));
                    assert(l.is_entry(ring[k - 1]));
                    assert(l.is_entry(ring[0]));
                    if k < ring.len() {
                        assert(ring[k] != ring[0]);
                    }
                }
            }
        } else {
            assert(ring2 == ring);
            if l.cols[c].len() > 0 {
                assert(l.col_ok(c));
                assert(l.is_entry(l.cols[c][0]));
                assert(l.col_of(l.cols[c][0]) == c);
            }
            assert forall|k: int| -1 <= k < ring2.len() implies #[trigger] m.col_link(c2, k) by {
                assert(l.col_link(c2, k));
                assert(m.vat(c2, k) == l.vat(c2, k));
                assert(m.vat(c2, k + 1) == l.vat(c2, k + 1));
                if 0 <= k {
                    assert(l.is_entry(ring[k]));
                }
                if k + 1 < ring.len() {
                    assert(l.is_entry(ring[k + 1]));
                }
            }
        }
    }
}

/// Adding an entry keeps the rings of the rows.
proof fn lemma_with_entry_rows(l: Links, r: int, c: int)
    requires
        l.can_add(r, c),
    ensures
        l.with_entry(r, c).rows_ring(),
{
    lemma_with_entry_nodes(l, r, c);
    let m = l.with_entry(r, c);
    let e = l.nodes.len() as int;
    assert(l.row_ring(r));
    assert forall|r2: int| 0 <= r2 < m.row_count implies #[trigger] m.row_ring(r2) by {
        assert(l.row_ring(r2));
        let ring = l.rows[r2];
        let ring2 = m.rows[r2];
        let len = ring.len() as int;
        let len2 = ring2.len() as int;
        if r2 == r {
            if len == 0 {
                assert(ring2 =~= seq![e]);
                assert(m.row_link(r, 0));
            } else {
                let f = ring[0];
                let next = ring[wrap(1, len)];
                assert(ring2 =~= ring.insert(1, e));
                assert(l.is_entry(f));
                assert(l.is_entry(next));
                assert forall|k: int| 0 <= k < len2 implies m.is_entry(#[trigger] ring2[k])
                    && m.row_of(ring2[k]) == r by {
                    if k == 0 {
                        assert(l.is_entry(ring[0]));
                    } else if k > 1 {
                        assert(ring2[k] == ring[k - 1]);
                        assert(l.is_entry(ring[k - 1]));
                    }
                }
                assert forall|i: int, j: int|
                    0 <= i < len2 && 0 <= j < len2 && i != j implies ring2[i] != ring2[j] by {
                    let a = if i == 0 { 0 } else { i - 1 };
                    let b = if j == 0 { 0 } else { j - 1 };
                    if i != 1 {
                        assert(ring2[i] == ring[a]);
                        assert(l.is_entry(ring[a]));
                    }
                    if j != 1 {
                        assert(ring2[j] == ring[b]);
                        assert(l.is_entry(ring[b]));
                    }
                }
                assert forall|k: int| 0 <= k < len2 implies #[trigger] m.row_link(r, k) by {
                    if k == 0 {
                    } else if k == 1 {
                        assert(l.row_link(r, 0));
                        if len == 1 {
                            assert(ring2[wrap(2, len2)] == f);
                        } else {
                            assert(ring2[wrap(2, len2)] == ring[1]);
                        }
                    } else {
                        assert(l.row_link(r, k - 1));
                        assert(ring2[k] == ring[k - 1]);
                        assert(l.is_entry(ring[k - 1]));
                        let nx = ring[wrap(k, len)];
                        assert(ring2[wrap(k + 1, len2)] == nx);
                        assert(l.is_entry(nx));
                        assert(ring[k - 1] != ring[0]);
                        assert(wrap(k, len) != wrap(1, len));
                        assert(nx != next);
                    }
                }
            }
        } else {
            assert(ring2 == ring);
            assert forall|k: int| 0 <= k < len2 implies #[trigger] m.row_link(r2, k) by {
                assert(l.row_link(r2, k));
                assert(l.is_entry(ring[k]));
                assert(l.is_entry(ring[wrap(k + 1, len)]));
                if len > 0 && l.rows[r].len() > 0 {
                    assert(l.is_entry(l.rows[r][0]));
                    assert(l.is_entry(l.rows[r][wrap(1, l.rows[r].len() as int)]));
                }
            }
            assert forall|k: int| 0 <= k < len2 implies m.is_entry(#[trigger] ring2[k])
                && m.row_of(ring2[k]) == r2 by {
                assert(l.is_entry(ring[k]));
            }
        }
    }
    assert forall|x: int| m.is_entry(x) implies #[trigger] m.rows[m.row_of(x)].contains(x) by {
        if x == e {
            if l.rows[r].len() == 0 {
                assert(m.rows[r][0] == e);
            } else {
                assert(m.rows[r][1] == e);
            }
        } else {
            assert(l.is_entry(x));
            let rx = l.row_of(x);
            assert(l.rows[rx].contains(x));
            let k = choose|k: int| 0 <= k < l.rows[rx].len() && l.rows[rx][k] == x;
            if rx == r {
                if k == 0 {
                    assert(m.rows[r][0] == x);
                } else {
                    assert(m.rows[r][k + 1] == x);
                }
            } else {
                assert(m.rows[rx][k] == x);
            }
        }
    }
}

/// Adding an entry at a place that holds none leaves no row with two
/// entries in one column; adding one at a place that holds one makes such a
/// row.
proof fn lemma_with_entry_doubles(l: Links, r: int, c: int)
    requires
        l.can_add(r, c),
    ensures
        l.with_entry(r, c).no_doubles() <==> l.no_doubles() && !l.has(r, c),
{
    lemma_with_entry_nodes(l, r, c);
    let m = l.with_entry(r, c);
    let e = l.nodes.len() as int;
    let ring = l.rows[r];
    let ring2 = m.rows[r];
    assert(l.row_ring(r));
    if ring.len() == 0 {
        assert(ring2 =~= seq![e]);
    } else {
        assert(ring2 =~= ring.insert(1, e));
    }
    let at = if ring.len() == 0 { 0int } else { 1int };
    assert(ring2[at] == e);
    assert forall|k: int| 0 <= k < ring.len() implies m.col_of(#[trigger] ring[k]) == l.col_of(
        ring[k],
    ) by {
        assert(l.is_entry(ring[k]));
    }
    if l.no_doubles() && !l.has(r, c) {
        assert forall|r2: int, i: int, j: int|
            0 <= r2 < m.row_count && 0 <= i < j < m.rows[r2].len() implies m.col_of(
            #[trigger] m.rows[r2][i],
        ) != m.col_of(#[trigger] m.rows[r2][j]) by {
            assert(l.row_ring(r2));
            if r2 == r {
                let a = if i == 0 { 0 } else { i - 1 };
                let b = j - 1;
                if i != at {
                    assert(ring2[i] == ring[a]);
                    assert(l.is_entry(ring[a]));
                }
                if j != at {
                    assert(ring2[j] == ring[b]);
                    assert(l.is_entry(ring[b]));
                }
                if i != at && j != at {
                    assert(l.col_of(ring[a]) != l.col_of(ring[b]));
                }
            } else {
                assert(m.rows[r2] == l.rows[r2]);
                assert(l.is_entry(l.rows[r2][i]));
                assert(l.is_entry(l.rows[r2][j]));
                assert(l.col_of(l.rows[r2][i]) != l.col_of(l.rows[r2][j]));
            }
        }
    }
    if m.no_doubles() {
        assert forall|r2: int, i: int, j: int|
            0 <= r2 < l.row_count && 0 <= i < j < l.rows[r2].len() implies l.col_of(
            #[trigger] l.rows[r2][i],
        ) != l.col_of(#[trigger] l.rows[r2][j]) by {
            assert(l.row_ring(r2));
            assert(l.is_entry(l.rows[r2][i]));
            assert(l.is_entry(l.rows[r2][j]));
            if r2 == r {
                let i2 = if i == 0 { 0 } else { i + 1 };
                let j2 = j + 1;
                assert(ring2[i2] == ring[i]);
                assert(ring2[j2] == ring[j]);
                assert(m.col_of(m.rows[r2][i2]) != m.col_of(m.rows[r2][j2]));
            } else {
                assert(m.rows[r2] == l.rows[r2]);
                assert(m.col_of(m.rows[r2][i]) != m.col_of(m.rows[r2][j]));
            }
        }
        if l.has(r, c) {
            let k = choose|k: int| 0 <= k < ring.len() && l.col_of(#[trigger] ring[k]) == c;
            let k2 = if k == 0 { 0 } else { k + 1 };
            assert(ring2[k2] == ring[k]);
            assert(l.is_entry(ring[k]));
            if k2 < at {
                assert(m.col_of(m.rows[r][k2]) != m.col_of(m.rows[r][at]));
            } else {
                assert(m.col_of(m.rows[r][at]) != m.col_of(m.rows[r][k2]));
            }
        }
    }
}

/// Adding an entry keeps the root's ring.
proof fn lemma_with_entry_live(l: Links, r: int, c: int)
    requires
        l.can_add(r, c),
    ensures
        l.with_entry(r, c).live_ok(),
        forall|c2: int| 0 <= c2 < l.column_count ==> #[trigger] l.with_entry(r, c).live.contains(c2),
{
    lemma_with_entry_nodes(l, r, c);
    let m = l.with_entry(r, c);
    assert(l.row_ring(r));
    if l.rows[r].len() > 0 {
        assert(l.is_entry(l.rows[r][0]));
        assert(l.is_entry(l.rows[r][wrap(1, l.rows[r].len() as int)]));
    }
    assert forall|k: int| -1 <= k < m.live.len() implies #[trigger] m.live_link(k) by {
        assert(l.live_link(k));
        assert(m.hat(k) == l.hat(k));
        assert(m.hat(k + 1) == l.hat(k + 1));
    }
    assert forall|c2: int| 0 <= c2 < l.column_count implies #[trigger] m.live.contains(c2) by {
        assert(l.live.contains(c2));
    }
}

/// Adding an entry keeps the matrix one that can be built on: the arena has
/// one more node, the column of the entry one more entry, on top of its
/// ring, and no other column changes.  The matrix is well formed after it
/// exactly if it was before and the place held no entry.
pub proof fn lemma_with_entry_wf(l: Links, r: int, c: int)
    requires
        l.can_add(r, c),
    ensures
        l.with_entry(r, c).loose_ok(),
        l.with_entry(r, c).base_wf() <==> l.base_wf() && !l.has(r, c),
        l.with_entry(r, c).trail.len() == 0,
        l.with_entry(r, c).row_count == l.row_count,
        l.with_entry(r, c).column_count == l.column_count,
        l.with_entry(r, c).live == l.live,
        l.with_entry(r, c).nodes.len() == l.nodes.len() + 1,
        l.with_entry(r, c).cols[c] == l.cols[c].insert(0, l.nodes.len() as int),
        forall|c2: int|
            0 <= c2 < l.column_count ==> (#[trigger] l.with_entry(r, c).nodes[c2 + 1]).column_size
                == if c2 == c {
                l.nodes[c2 + 1].column_size + 1
            } else {
                l.nodes[c2 + 1].column_size as int
            },
        forall|c2: int|
            0 <= c2 < l.column_count && c2 != c ==> #[trigger] l.with_entry(r, c).cols[c2]
                == l.cols[c2],
{
    lemma_with_entry_nodes(l, r, c);
    lemma_with_entry_shape(l, r, c);
    lemma_with_entry_cols(l, r, c);
    lemma_with_entry_rows(l, r, c);
    lemma_with_entry_live(l, r, c);
    lemma_with_entry_doubles(l, r, c);
    lemma_wf_is_loose(l);
    lemma_wf_is_loose(l.with_entry(r, c));
    let m = l.with_entry(r, c);
    let e = l.nodes.len() as int;
    assert forall|x: int| m.is_entry(x) && m.live.contains(m.col_of(x)) implies (
    #[trigger] m.linked(x) <==> m.active(m.row_of(x))) by {
        let rx = m.row_of(x);
        assert(m.row_ring(rx));
        assert forall|k: int| 0 <= k < m.rows[rx].len() implies m.live.contains(
            m.col_of(#[trigger] m.rows[rx][k]),
        ) by {
            assert(m.is_entry(m.rows[rx][k]));
            assert(m.live.contains(m.col_of(m.rows[rx][k])));
        }
        if x == e {
            assert(m.cols[c][0] == e);
        } else {
            assert(l.is_entry(x));
            let cx = l.col_of(x);
            assert(l.linked(x) <==> l.active(l.row_of(x)));
            assert(l.row_ring(l.row_of(x)));
            assert forall|k: int| 0 <= k < l.rows[rx].len() implies l.live.contains(
                l.col_of(#[trigger] l.rows[rx][k]),
            ) by {
                assert(l.is_entry(l.rows[rx][k]));
                assert(l.live.contains(l.col_of(l.rows[rx][k])));
            }
            assert(l.linked(x));
            let k = choose|k: int| 0 <= k < l.cols[cx].len() && l.cols[cx][k] == x;
            if cx == c {
                assert(m.cols[c][k + 1] == x);
            } else {
                assert(m.cols[cx][k] == x);
            }
        }
    }
}

/// Adding an entry adds one one to the matrix, and changes no other.
pub proof fn lemma_with_entry_has(l: Links, r: int, c: int)
    requires
        l.can_add(r, c),
    ensures
        forall|r2: int, c2: int|
            0 <= r2 < l.row_count ==> (#[trigger] l.with_entry(r, c).has(r2, c2) <==> l.has(r2, c2)
                || (r2 == r && c2 == c)),
{
    lemma_with_entry_nodes(l, r, c);
    let m = l.with_entry(r, c);
    let e = l.nodes.len() as int;
    assert forall|r2: int, c2: int| 0 <= r2 < l.row_count implies (#[trigger] m.has(r2, c2)
        <==> l.has(r2, c2) || (r2 == r && c2 == c)) by {
        let ring = l.rows[r2];
        let ring2 = m.rows[r2];
        assert(l.row_ring(r2));
        if r2 == r {
            if ring.len() == 0 {
                assert(ring2 =~= seq![e]);
            } else {
                assert(ring2 =~= ring.insert(1, e));
            }
            if m.has(r2, c2) {
                let k = choose|k: int| 0 <= k < ring2.len() && m.col_of(#[trigger] ring2[k]) == c2;
                if ring2[k] != e {
                    let k0 = if k == 0 { 0 } else { k - 1 };
                    assert(ring2[k] == ring[k0]);
                    assert(l.is_entry(ring[k0]));
                    assert(l.col_of(ring[k0]) == c2);
                }
            }
            if l.has(r2, c2) {
                let k0 = choose|k: int| 0 <= k < ring.len() && l.col_of(#[trigger] ring[k]) == c2;
                let k = if k0 == 0 { 0 } else { k0 + 1 };
                assert(l.is_entry(ring[k0]));
                assert(ring2[k] == ring[k0]);
                assert(m.col_of(ring2[k]) == c2);
            }
            if c2 == c {
                let k = if ring.len() == 0 { 0 } else { 1int };
                assert(m.col_of(ring2[k]) == c2);
            }
        } else {
            assert(ring2 == ring);
            if m.has(r2, c2) {
                let k = choose|k: int| 0 <= k < ring2.len() && m.col_of(#[trigger] ring2[k]) == c2;
                assert(l.is_entry(ring[k]));
                assert(l.col_of(ring[k]) == c2);
            }
            if l.has(r2, c2) {
                let k = choose|k: int| 0 <= k < ring.len() && l.col_of(#[trigger] ring[k]) == c2;
                assert(l.is_entry(ring[k]));
                assert(m.col_of(ring2[k]) == c2);
            }
        }
    }
}

} // verus!
