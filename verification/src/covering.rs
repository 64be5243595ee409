//! Covering a column, step by step, and why each step can be undone.
//!
//! To cover a column is to take its header off the root's ring and then to
//! take every other entry of every row on the column's ring off the ring of
//! its own column.  The entries leave one at a time, in a fixed order; an
//! entry that has left keeps its links, so that putting the entries back in
//! the opposite order restores every ring.

use vstd::prelude::*;
use crate::entry::{set_down, set_left, set_right, set_size, set_up};
use crate::links::{Frame, Links, Node, NodeKind, links_within, wrap};

verus! {

/// The arena after entry `f` was taken off the ring of its column.
pub open spec fn unlink_nodes(nodes: Seq<Node>, f: int) -> Seq<Node> {
    let u = nodes[f].up as int;
    let d = nodes[f].down as int;
    let h = nodes[f].column_index + 1;
    let bridged = set_up(set_down(nodes, u, d), d, u);
    set_size(bridged, h, bridged[h].column_size - 1)
}

/// The arena after entry `f` was put back between the two nodes that it
/// still points at.
pub open spec fn relink_nodes(nodes: Seq<Node>, f: int) -> Seq<Node> {
    let u = nodes[f].up as int;
    let d = nodes[f].down as int;
    let h = nodes[f].column_index + 1;
    let joined = set_up(set_down(nodes, u, f), d, f);
    set_size(joined, h, joined[h].column_size + 1)
}

/// Two nodes agree in all but their vertical links and their size.
pub open spec fn same_across(a: Node, b: Node) -> bool {
    &&& a.kind == b.kind
    &&& a.column_index == b.column_index
    &&& a.row_index == b.row_index
    &&& a.left == b.left
    &&& a.right == b.right
}

impl Links {
    /// The matrix after entry `f` was taken off the ring of its column.
    pub open spec fn unlink(self, f: int) -> Links {
        let c = self.col_of(f);
        Links {
            nodes: unlink_nodes(self.nodes, f),
            cols: self.cols.update(c, self.cols[c].remove(self.cols[c].index_of(f))),
            ..self
        }
    }

    /// The matrix after the entries `fs` were taken off their rings, first
    /// to last.
    pub open spec fn unlink_all(self, fs: Seq<int>) -> Links
        decreases fs.len(),
    {
        if fs.len() == 0 {
            self
        } else {
            self.unlink_all(fs.drop_last()).unlink(fs.last())
        }
    }

    /// The other entries of the row of `e`, in the order in which they are
    /// met going right from `e`.
    pub open spec fn others(self, e: int) -> Seq<int> {
        let ring = self.rows[self.row_of(e)];
        let p = ring.index_of(e);
        Seq::new((ring.len() - 1) as nat, |j: int| ring[wrap(p + 1 + j, ring.len() as int)])
    }

    /// The node `j` steps to the right of `e` on its row's ring, for `j`
    /// from 0 to the length of the ring.
    pub open spec fn oat(self, e: int, j: int) -> int {
        if 1 <= j <= self.others(e).len() {
            self.others(e)[j - 1]
        } else {
            e
        }
    }

    /// The matrix after, for each entry of `es` in turn, the other entries
    /// of its row were taken off their rings.
    pub open spec fn unlink_rows(self, es: Seq<int>) -> Links
        decreases es.len(),
    {
        if es.len() == 0 {
            self
        } else {
            self.unlink_rows(es.drop_last()).unlink_all(self.others(es.last()))
        }
    }

    /// The matrix after the header of column `c` was taken off the root's
    /// ring, as the first step of a cover; the state before is kept on the
    /// trail.
    pub open spec fn hidden(self, c: int) -> Links {
        let h = c + 1;
        let left = self.nodes[h].left as int;
        let right = self.nodes[h].right as int;
        Links {
            nodes: set_right(set_left(self.nodes, right, left), left, right),
            live: self.live.remove(self.live.index_of(c)),
            trail: self.trail.push(
                Frame { column: c, nodes: self.nodes, cols: self.cols, live: self.live },
            ),
            ..self
        }
    }

    /// The matrix after column `c` was covered: its header is off the
    /// root's ring, and for each entry on its ring, from the top down, the
    /// other entries of that row are off the rings of their columns.
    pub open spec fn covered(self, c: int) -> Links {
        self.hidden(c).unlink_rows(self.cols[c])
    }

    /// The state before the `i`-th outstanding cover.
    pub open spec fn before(self, i: int) -> Links {
        Links {
            nodes: self.trail[i].nodes,
            cols: self.trail[i].cols,
            live: self.trail[i].live,
            trail: self.trail.take(i),
            ..self
        }
    }

    /// The state after the `i`-th outstanding cover.
    pub open spec fn after(self, i: int) -> Links {
        if i + 1 < self.trail.len() {
            self.before(i + 1)
        } else {
            self
        }
    }

    /// The `i`-th outstanding cover was a cover of a column that was then on
    /// the root's ring, and led from the state kept on the trail to the
    /// next one.
    pub open spec fn frame_ok(self, i: int) -> bool {
        &&& self.before(i).base_wf()
        &&& self.before(i).live.contains(self.trail[i].column)
        &&& self.after(i) == self.before(i).covered(self.trail[i].column)
    }

    /// The matrix is well formed, and so is its history.
    pub open spec fn wf(self) -> bool {
        &&& self.base_wf()
        &&& forall|i: int| 0 <= i < self.trail.len() ==> #[trigger] self.frame_ok(i)
    }

    /// The matrix after the latest outstanding cover was undone.
    pub open spec fn uncovered(self) -> Links {
        let frame = self.trail.last();
        Links {
            nodes: frame.nodes,
            cols: frame.cols,
            live: frame.live,
            trail: self.trail.drop_last(),
            ..self
        }
    }

    /// `m` has the rows, the root's ring and the horizontal links of `self`.
    pub open spec fn same_rows(self, m: Links) -> bool {
        &&& m.row_count == self.row_count
        &&& m.column_count == self.column_count
        &&& m.fronts == self.fronts
        &&& m.rows == self.rows
        &&& m.live == self.live
        &&& m.trail == self.trail
        &&& m.nodes.len() == self.nodes.len()
        &&& m.cols.len() == self.cols.len()
        &&& forall|i: int|
            0 <= i < self.nodes.len() ==> same_across(#[trigger] m.nodes[i], self.nodes[i])
    }

    /// `m` is a state of the matrix of `self`: it has the same entries in
    /// the same rows.
    pub open spec fn same_matrix(self, m: Links) -> bool {
        &&& same_size(self, m)
        &&& m.rows == self.rows
        &&& m.fronts == self.fronts
        &&& forall|e: int| self.is_entry(e) ==> same_across(#[trigger] m.nodes[e], self.nodes[e])
    }

    /// The matrix after the columns `cs` were covered, first to last.
    pub open spec fn cover_each(self, cs: Seq<int>) -> Links
        decreases cs.len(),
    {
        if cs.len() == 0 {
            self
        } else {
            self.cover_each(cs.drop_last()).covered(cs.last())
        }
    }

    /// The matrix after the latest `n` outstanding covers were undone, the
    /// latest first.
    pub open spec fn uncover_each(self, n: nat) -> Links
        decreases n,
    {
        if n == 0 {
            self
        } else {
            self.uncover_each((n - 1) as nat).uncovered()
        }
    }

    /// The columns `cs` can be covered one after another: each is on the
    /// root's ring, and none comes twice.
    pub open spec fn can_cover_each(self, cs: Seq<int>) -> bool {
        &&& self.wf()
        &&& cs.no_duplicates()
        &&& forall|i: int| 0 <= i < cs.len() ==> self.live.contains(#[trigger] cs[i])
    }

    /// The columns of the other entries of the row of `e`, in the order in
    /// which they are met going right from `e`.
    pub open spec fn other_columns(self, e: int) -> Seq<int> {
        Seq::new(self.others(e).len(), |j: int| self.col_of(self.others(e)[j]))
    }

    /// `m` is `self` part of the way through a cover of column `c`: the
    /// entries in `gone` have left their rings, and nothing else changed.
    pub open spec fn mid_cover(self, c: int, m: Links, gone: Set<int>) -> bool {
        &&& m.rings_ok()
        &&& self.same_rows(m)
        &&& m.cols[c] == self.cols[c]
        &&& forall|e: int|
            self.is_entry(e) ==> (#[trigger] m.linked(e) <==> self.linked(e) && !gone.contains(e))
    }
}

/// Two positions of a column's ring hold two nodes, but for the header at
/// both ends.
pub proof fn lemma_vat_distinct(m: Links, c: int, i: int, j: int)
    requires
        m.rings_ok(),
        0 <= c < m.column_count,
        -1 <= i < j <= m.cols[c].len(),
        !(i == -1 && j == m.cols[c].len()),
    ensures
        m.vat(c, i) != m.vat(c, j),
        0 <= m.vat(c, i) < m.nodes.len(),
        0 <= m.vat(c, j) < m.nodes.len(),
{
    assert(m.col_ok(c));
    if 0 <= i {
        assert(m.is_entry(m.cols[c][i]));
    }
    if j < m.cols[c].len() {
        assert(m.is_entry(m.cols[c][j]));
    }
}

/// Where an entry on a ring stands, and what it points at.
pub proof fn lemma_linked_at(m: Links, f: int) -> (p: int)
    requires
        m.rings_ok(),
        m.is_entry(f),
        m.linked(f),
    ensures
        p == m.cols[m.col_of(f)].index_of(f),
        0 <= p < m.cols[m.col_of(f)].len(),
        m.cols[m.col_of(f)][p] == f,
        m.nodes[f].up == m.vat(m.col_of(f), p - 1),
        m.nodes[f].down == m.vat(m.col_of(f), p + 1),
        m.nodes[m.vat(m.col_of(f), p - 1)].down == f,
        m.nodes[m.vat(m.col_of(f), p + 1)].up == f,
        m.vat(m.col_of(f), p - 1) != f,
        m.vat(m.col_of(f), p + 1) != f,
        0 <= m.vat(m.col_of(f), p - 1) < m.nodes.len(),
        0 <= m.vat(m.col_of(f), p + 1) < m.nodes.len(),
        m.nodes[m.col_of(f) + 1].column_size >= 1,
        0 <= m.col_of(f) < m.column_count,
{
    let c = m.col_of(f);
    let ring = m.cols[c];
    let p = ring.index_of(f);
    assert(m.col_ok(c));
    assert(m.col_link(c, p - 1));
    assert(m.col_link(c, p));
    assert(m.vat(c, p) == f);
    lemma_vat_distinct(m, c, p - 1, p);
    lemma_vat_distinct(m, c, p, p + 1);
    p
}

/// Two nodes agree in all but their horizontal links.
pub open spec fn same_along(a: Node, b: Node) -> bool {
    &&& a.kind == b.kind
    &&& a.column_index == b.column_index
    &&& a.row_index == b.row_index
    &&& a.up == b.up
    &&& a.down == b.down
    &&& a.column_size == b.column_size
}

/// Two states have the same dimensions and as many nodes.
pub open spec fn same_size(m: Links, w: Links) -> bool {
    &&& w.row_count == m.row_count
    &&& w.column_count == m.column_count
    &&& w.nodes.len() == m.nodes.len()
}

/// Kinds, coordinates and bounds hold of a state that keeps them.
proof fn lemma_shape_kept(m: Links, w: Links)
    requires
        m.shape_ok(),
        same_size(m, w),
        forall|i: int|
            0 <= i < m.nodes.len() ==> (#[trigger] w.nodes[i]).kind == m.nodes[i].kind
                && w.nodes[i].column_index == m.nodes[i].column_index && w.nodes[i].row_index
                == m.nodes[i].row_index && links_within(w.nodes[i], m.nodes.len() as int),
    ensures
        w.shape_ok(),
{
    assert forall|i: int| 1 <= i <= w.column_count implies (#[trigger] w.nodes[i]).kind
        == NodeKind::Header && w.nodes[i].column_index == i - 1 by {
        assert(m.nodes[i].kind == NodeKind::Header);
    }
    assert forall|i: int| w.is_entry(i) implies (#[trigger] w.nodes[i]).kind == NodeKind::Entry
        && w.nodes[i].column_index < w.column_count && w.nodes[i].row_index < w.row_count by {
        assert(m.is_entry(i));
        assert(m.nodes[i].kind == NodeKind::Entry);
    }
}

/// The rings of the rows hold of a state that keeps the entries' places
/// and horizontal links.
proof fn lemma_rows_kept(m: Links, w: Links)
    requires
        m.rows_ok(),
        same_size(m, w),
        w.rows == m.rows,
        w.fronts == m.fronts,
        forall|i: int| m.is_entry(i) ==> same_across(#[trigger] w.nodes[i], m.nodes[i]),
    ensures
        w.rows_ok(),
{
    assert forall|r: int| 0 <= r < w.row_count implies #[trigger] w.row_ok(r) by {
        assert(m.row_ok(r));
        let row = m.rows[r];
        assert forall|k: int| 0 <= k < row.len() implies #[trigger] w.row_link(r, k) by {
            assert(m.row_link(r, k));
            assert(m.is_entry(row[k]));
            assert(m.is_entry(row[wrap(k + 1, row.len() as int)]));
        }
        assert forall|k: int| 0 <= k < row.len() implies w.is_entry(#[trigger] row[k])
            && w.row_of(row[k]) == r by {
            assert(m.is_entry(row[k]));
        }
        assert forall|i: int, j: int| 0 <= i < j < row.len() implies w.col_of(#[trigger] row[i])
            != w.col_of(#[trigger] row[j]) by {
            assert(m.is_entry(row[i]));
            assert(m.is_entry(row[j]));
        }
    }
    assert forall|e: int| w.is_entry(e) implies #[trigger] w.rows[w.row_of(e)].contains(e) by {
        assert(m.is_entry(e));
        assert(m.rows[m.row_of(e)].contains(e));
    }
}

/// The root's ring holds of a state that keeps the horizontal links of the
/// root and the headers.
proof fn lemma_live_kept(m: Links, w: Links)
    requires
        m.live_ok(),
        same_size(m, w),
        0 <= m.column_count < m.nodes.len(),
        w.live == m.live,
        forall|i: int|
            0 <= i <= m.column_count ==> (#[trigger] w.nodes[i]).left == m.nodes[i].left
                && w.nodes[i].right == m.nodes[i].right,
    ensures
        w.live_ok(),
{
    assert forall|k: int| -1 <= k < w.live.len() implies #[trigger] w.live_link(k) by {
        assert(m.live_link(k));
        assert(w.hat(k) == m.hat(k));
        assert(w.hat(k + 1) == m.hat(k + 1));
        if 0 <= k {
            assert(0 <= m.live[k] < m.column_count);
        }
        if k + 1 < m.live.len() {
            assert(0 <= m.live[k + 1] < m.column_count);
        }
    }
}

/// The ring of a column holds of a state that keeps the vertical links
/// and the size of its nodes.
proof fn lemma_col_kept(m: Links, w: Links, c: int)
    requires
        m.col_ok(c),
        0 <= c < m.column_count < m.nodes.len(),
        same_size(m, w),
        w.cols[c] == m.cols[c],
        same_along(w.nodes[c + 1], m.nodes[c + 1]),
        forall|i: int|
            m.is_entry(i) && m.col_of(i) == c ==> same_along(#[trigger] w.nodes[i], m.nodes[i]),
    ensures
        w.col_ok(c),
{
    let ring = m.cols[c];
    assert forall|k: int| 0 <= k < ring.len() implies w.is_entry(#[trigger] ring[k]) && w.col_of(
        ring[k],
    ) == c by {
        assert(m.is_entry(ring[k]));
    }
    assert forall|k: int| -1 <= k < ring.len() implies #[trigger] w.col_link(c, k) by {
        assert(m.col_link(c, k));
        assert(w.vat(c, k) == m.vat(c, k));
        assert(w.vat(c, k + 1) == m.vat(c, k + 1));
        if 0 <= k {
            assert(m.is_entry(ring[k]));
        }
        if k + 1 < ring.len() {
            assert(m.is_entry(ring[k + 1]));
        }
    }
}

/// What taking `f` off its ring does to each node.
pub open spec fn unlinked_at(m: Links, w: Links, f: int) -> bool {
    let h = m.col_of(f) + 1;
    let u = m.nodes[f].up as int;
    let d = m.nodes[f].down as int;
    &&& same_size(m, w)
    &&& forall|i: int|
        0 <= i < m.nodes.len() ==> {
            &&& same_across(#[trigger] w.nodes[i], m.nodes[i])
            &&& w.nodes[i].up == if i == d { u } else { m.nodes[i].up as int }
            &&& w.nodes[i].down == if i == u { d } else { m.nodes[i].down as int }
            &&& w.nodes[i].column_size == if i == h {
                m.nodes[i].column_size - 1
            } else {
                m.nodes[i].column_size as int
            }
        }
}

/// Taking a linked entry off its ring changes two links and one size, and
/// putting it back restores them.
proof fn lemma_unlinked_at(m: Links, f: int)
    requires
        m.rings_ok(),
        m.is_entry(f),
        m.linked(f),
    ensures
        unlinked_at(m, m.unlink(f), f),
        relink_nodes(m.unlink(f).nodes, f) == m.nodes,
{
    let p = lemma_linked_at(m, f);
    let w = m.unlink(f);
    assert(w.nodes.len() == m.nodes.len());
    assert(relink_nodes(w.nodes, f) =~= m.nodes);
}

/// The ring that an entry has left is a ring.
proof fn lemma_unlink_col(m: Links, w: Links, f: int, p: int)
    requires
        m.rings_ok(),
        m.is_entry(f),
        m.linked(f),
        p == m.cols[m.col_of(f)].index_of(f),
        unlinked_at(m, w, f),
        w.cols[m.col_of(f)] == m.cols[m.col_of(f)].remove(p),
    ensures
        w.col_ok(m.col_of(f)),
{
    let c = m.col_of(f);
    let ring = m.cols[c];
    let ring2 = w.cols[c];
    let q = lemma_linked_at(m, f);
    assert(m.col_ok(c));
    assert forall|k: int| 0 <= k < ring2.len() implies w.is_entry(#[trigger] ring2[k]) && w.col_of(
        ring2[k],
    ) == c by {
        let k0 = if k < p { k } else { k + 1 };
        assert(ring2[k] == ring[k0]);
        assert(m.is_entry(ring[k0]));
    }
    assert forall|i: int, j: int|
        0 <= i < ring2.len() && 0 <= j < ring2.len() && i != j implies ring2[i] != ring2[j] by {
        let i0 = if i < p { i } else { i + 1 };
        let j0 = if j < p { j } else { j + 1 };
        assert(ring2[i] == ring[i0]);
        assert(ring2[j] == ring[j0]);
    }
    assert forall|k: int| -1 <= k < ring2.len() implies #[trigger] w.col_link(c, k) by {
        let k0 = if k < p { k } else { k + 1 };
        let k1 = if k + 1 < p { k + 1 } else { k + 2 };
        assert(w.vat(c, k) == m.vat(c, k0));
        assert(w.vat(c, k + 1) == m.vat(c, k1));
        if k + 1 < p {
            assert(m.col_link(c, k));
            lemma_vat_distinct(m, c, k, p - 1);
            lemma_vat_distinct(m, c, k + 1, p + 1);
        } else if k + 1 == p {
        } else {
            assert(m.col_link(c, k + 1));
            lemma_vat_distinct(m, c, p - 1, k + 1);
            lemma_vat_distinct(m, c, p + 1, k + 2);
        }
    }
}

/// Taking an entry off its ring takes no other entry off a ring.
proof fn lemma_unlink_linked(m: Links, f: int)
    requires
        m.rings_ok(),
        m.is_entry(f),
        m.linked(f),
    ensures
        forall|e: int|
            m.is_entry(e) ==> (#[trigger] m.unlink(f).linked(e) <==> m.linked(e) && e != f),
{
    let c = m.col_of(f);
    let ring = m.cols[c];
    let p = lemma_linked_at(m, f);
    let w = m.unlink(f);
    let ring2 = w.cols[c];
    lemma_unlinked_at(m, f);
    assert(m.col_ok(c));
    assert(ring2 =~= ring.remove(p));
    assert forall|e: int| m.is_entry(e) implies (#[trigger] w.linked(e) <==> m.linked(e) && e
        != f) by {
        let ce = m.col_of(e);
        assert(w.col_of(e) == ce);
        if ce == c {
            if w.linked(e) {
                let k = choose|k: int| 0 <= k < ring2.len() && ring2[k] == e;
                let k0 = if k < p { k } else { k + 1 };
                assert(ring[k0] == e);
            }
            if m.linked(e) && e != f {
                let k0 = choose|k: int| 0 <= k < ring.len() && ring[k] == e;
                let k = if k0 < p { k0 } else { k0 - 1 };
                assert(ring2[k] == e);
            }
        } else {
            assert(w.cols[ce] == m.cols[ce]);
        }
    }
}

/// Taking a linked entry off its ring leaves rings, and putting it back
/// restores the arena.
pub proof fn lemma_unlink(m: Links, f: int)
    requires
        m.rings_ok(),
        m.is_entry(f),
        m.linked(f),
    ensures
        m.unlink(f).rings_ok(),
        m.same_rows(m.unlink(f)),
        forall|c: int|
            0 <= c < m.column_count && c != m.col_of(f) ==> #[trigger] m.unlink(f).cols[c]
                == m.cols[c],
        forall|e: int|
            m.is_entry(e) ==> (#[trigger] m.unlink(f).linked(e) <==> m.linked(e) && e != f),
        relink_nodes(m.unlink(f).nodes, f) == m.nodes,
        m.unlink(f).nodes[f] == m.nodes[f],
        m.unlink(f).nodes[m.col_of(f) + 1].column_size < usize::MAX,
        0 <= m.col_of(f) < m.column_count,
{
    let c = m.col_of(f);
    let p = lemma_linked_at(m, f);
    let w = m.unlink(f);
    let u = m.nodes[f].up as int;
    let d = m.nodes[f].down as int;
    lemma_unlinked_at(m, f);
    lemma_unlink_linked(m, f);
    assert(w.shape_ok()) by {
        assert forall|i: int| 0 <= i < m.nodes.len() implies links_within(
            #[trigger] w.nodes[i],
            m.nodes.len() as int,
        ) by {
            assert(links_within(m.nodes[i], m.nodes.len() as int));
        }
        lemma_shape_kept(m, w);
    }
    lemma_rows_kept(m, w);
    lemma_live_kept(m, w);
    assert(w.cols_ok()) by {
        assert forall|c2: int| 0 <= c2 < w.column_count implies #[trigger] w.col_ok(c2) by {
            assert(m.col_ok(c2));
            if c2 == c {
                lemma_unlink_col(m, w, f, p);
            } else {
                assert(m.col_ok(c));
                if 0 <= p - 1 {
                    assert(m.is_entry(m.cols[c][p - 1]));
                }
                if p + 1 < m.cols[c].len() {
                    assert(m.is_entry(m.cols[c][p + 1]));
                }
                lemma_col_kept(m, w, c2);
            }
        }
    }
}

/// Two entries of one row stand in two columns.
pub proof fn lemma_row_mates(l: Links, x: int, y: int)
    requires
        l.rings_ok(),
        l.is_entry(x),
        l.is_entry(y),
        x != y,
        l.row_of(x) == l.row_of(y),
    ensures
        l.col_of(x) != l.col_of(y),
{
    let r = l.row_of(x);
    let ring = l.rows[r];
    assert(l.row_ok(r));
    assert(l.rows[l.row_of(x)].contains(x));
    assert(l.rows[l.row_of(y)].contains(y));
    let i = choose|i: int| 0 <= i < ring.len() && ring[i] == x;
    let j = choose|j: int| 0 <= j < ring.len() && ring[j] == y;
    if i < j {
        assert(l.col_of(ring[i]) != l.col_of(ring[j]));
    } else {
        assert(l.col_of(ring[j]) != l.col_of(ring[i]));
    }
}

/// Steps `j` and `j + 1` to the right of `e` point at each other.
pub open spec fn oat_link(l: Links, e: int, j: int) -> bool {
    &&& l.nodes[l.oat(e, j)].right == l.oat(e, j + 1)
    &&& l.nodes[l.oat(e, j + 1)].left == l.oat(e, j)
}

/// Going right from an entry leads through all the other entries of its
/// row, each once, and back.
pub proof fn lemma_others(l: Links, e: int)
    requires
        l.rings_ok(),
        l.is_entry(e),
    ensures
        l.others(e).len() + 1 == l.rows[l.row_of(e)].len(),
        l.others(e).no_duplicates(),
        forall|j: int|
            0 <= j < l.others(e).len() ==> {
                let f = #[trigger] l.others(e)[j];
                &&& l.is_entry(f)
                &&& l.row_of(f) == l.row_of(e)
                &&& f != e
                &&& l.col_of(f) != l.col_of(e)
            },
        forall|x: int|
            l.is_entry(x) && l.row_of(x) == l.row_of(e) && x != e ==> #[trigger] l.others(
                e,
            ).contains(x),
        forall|j: int| 0 <= j <= l.others(e).len() ==> #[trigger] oat_link(l, e, j),
{
    let r = l.row_of(e);
    let ring = l.rows[r];
    let len = ring.len() as int;
    let fs = l.others(e);
    assert(l.row_ok(r));
    assert(l.rows[l.row_of(e)].contains(e));
    let p = ring.index_of(e);
    assert(0 <= p < len && ring[p] == e);
    assert forall|j: int| 0 <= j < fs.len() implies {
        let f = #[trigger] fs[j];
        &&& l.is_entry(f)
        &&& l.row_of(f) == r
        &&& f != e
        &&& l.col_of(f) != l.col_of(e)
    } by {
        let q = wrap(p + 1 + j, len);
        assert(fs[j] == ring[q]);
        assert(l.is_entry(ring[q]));
        if q < p {
            assert(l.col_of(ring[q]) != l.col_of(ring[p]));
        } else {
            assert(l.col_of(ring[p]) != l.col_of(ring[q]));
        }
    }
    assert forall|i: int, j: int| 0 <= i < fs.len() && 0 <= j < fs.len() && i != j implies fs[i]
        != fs[j] by {
        let a = wrap(p + 1 + i, len);
        let b = wrap(p + 1 + j, len);
        assert(fs[i] == ring[a]);
        assert(fs[j] == ring[b]);
        if a < b {
            assert(l.col_of(ring[a]) != l.col_of(ring[b]));
        } else {
            assert(l.col_of(ring[b]) != l.col_of(ring[a]));
        }
    }
    assert forall|x: int| l.is_entry(x) && l.row_of(x) == r && x != e implies #[trigger] fs.contains(
        x,
    ) by {
        assert(l.rows[l.row_of(x)].contains(x));
        let q = choose|q: int| 0 <= q < ring.len() && ring[q] == x;
        let j = if q > p { q - p - 1 } else { q + len - p - 1 };
        assert(wrap(p + 1 + j, len) == q);
        assert(fs[j] == x);
    }
    assert forall|j: int| 0 <= j <= fs.len() implies #[trigger] oat_link(l, e, j) by {
        let a = wrap(p + j, len);
        let b = wrap(p + j + 1, len);
        assert(l.oat(e, j) == ring[a]) by {
            if j > 0 {
                assert(fs[j - 1] == ring[wrap(p + 1 + (j - 1), len)]);
            }
        }
        assert(l.oat(e, j + 1) == ring[b]) by {
            if j + 1 <= fs.len() {
                assert(fs[j] == ring[wrap(p + 1 + j, len)]);
            }
        }
        assert(l.row_link(r, a));
        assert(wrap(a + 1, len) == b);
    }
}

/// Taking entries off their rings one after another keeps the matrix in
/// the middle of a cover.
pub proof fn lemma_unlink_all(l: Links, c: int, m0: Links, g0: Set<int>, fs: Seq<int>)
    requires
        l.mid_cover(c, m0, g0),
        0 <= c < l.column_count,
        fs.no_duplicates(),
        forall|j: int|
            0 <= j < fs.len() ==> {
                let f = #[trigger] fs[j];
                &&& l.is_entry(f)
                &&& l.linked(f)
                &&& !g0.contains(f)
                &&& l.col_of(f) != c
            },
    ensures
        l.mid_cover(c, m0.unlink_all(fs), g0.union(fs.to_set())),
    decreases fs.len(),
{
    if fs.len() == 0 {
        assert(g0.union(fs.to_set()) =~= g0);
    } else {
        let prefix = fs.drop_last();
        let f = fs.last();
        lemma_unlink_all(l, c, m0, g0, prefix);
        let m1 = m0.unlink_all(prefix);
        let g1 = g0.union(prefix.to_set());
        assert(!prefix.contains(f)) by {
            if prefix.contains(f) {
                let i = choose|i: int| 0 <= i < prefix.len() && prefix[i] == f;
                assert(fs[i] == f);
            }
        }
        assert(fs[fs.len() - 1] == f);
        assert(m1.linked(f));
        assert(m1.is_entry(f));
        assert(same_across(m1.nodes[f], l.nodes[f]));
        lemma_unlink(m1, f);
        let m2 = m1.unlink(f);
        let g2 = g0.union(fs.to_set());
        assert(m2.cols[c] == m1.cols[c]);
        assert forall|i: int| 0 <= i < l.nodes.len() implies same_across(
            #[trigger] m2.nodes[i],
            l.nodes[i],
        ) by {
            assert(same_across(m2.nodes[i], m1.nodes[i]));
            assert(same_across(m1.nodes[i], l.nodes[i]));
        }
        assert forall|e: int| l.is_entry(e) implies (#[trigger] m2.linked(e) <==> l.linked(e)
            && !g2.contains(e)) by {
            assert(m1.is_entry(e));
            assert(m2.linked(e) <==> m1.linked(e) && e != f);
            assert(m1.linked(e) <==> l.linked(e) && !g1.contains(e));
            if fs.contains(e) && e != f {
                let i = choose|i: int| 0 <= i < fs.len() && fs[i] == e;
                assert(prefix[i] == e);
            }
            if prefix.contains(e) {
                let i = choose|i: int| 0 <= i < prefix.len() && prefix[i] == e;
                assert(fs[i] == e);
            }
        }
    }
}

/// The arena after the header of column `c` was put back between the two
/// nodes that it still points at.
pub open spec fn show_nodes(nodes: Seq<Node>, c: int) -> Seq<Node> {
    let h = c + 1;
    let left = nodes[h].left as int;
    let right = nodes[h].right as int;
    set_right(set_left(nodes, right, h), left, h)
}

/// What taking the header of `c` off the root's ring leaves.
pub proof fn lemma_hidden(l: Links, c: int)
    requires
        l.rings_ok(),
        l.live.contains(c),
    ensures
        l.hidden(c).rings_ok(),
        show_nodes(l.hidden(c).nodes, c) == l.nodes,
        l.hidden(c).nodes[c + 1] == l.nodes[c + 1],
        0 <= c < l.column_count,
        l.hidden(c).mid_cover(c, l.hidden(c), Set::empty()),
        same_size(l, l.hidden(c)),
        l.hidden(c).rows == l.rows,
        l.hidden(c).fronts == l.fronts,
        l.hidden(c).cols == l.cols,
        l.hidden(c).trail.len() == l.trail.len() + 1,
        l.hidden(c).live.len() + 1 == l.live.len(),
        forall|i: int| 0 <= i < l.nodes.len() ==> same_along(#[trigger] l.hidden(c).nodes[i], l.nodes[i]),
        forall|i: int| l.is_entry(i) ==> #[trigger] l.hidden(c).nodes[i] == l.nodes[i],
        forall|c2: int| #[trigger] l.hidden(c).live.contains(c2) <==> l.live.contains(c2) && c2 != c,
{
    let w = l.hidden(c);
    let p = l.live.index_of(c);
    let h = c + 1;
    let len = l.live.len() as int;
    assert(0 <= p < len && l.live[p] == c);
    assert(l.live_link(p - 1));
    assert(l.live_link(p));
    assert(l.hat(p) == h);
    let left = l.hat(p - 1);
    let right = l.hat(p + 1);
    assert(0 <= left <= l.column_count) by {
        if 0 <= p - 1 {
            assert(0 <= l.live[p - 1] < l.column_count);
        }
    }
    assert(0 <= right <= l.column_count) by {
        if p + 1 < len {
            assert(0 <= l.live[p + 1] < l.column_count);
        }
    }
    assert(w.live =~= l.live.remove(p));
    assert(0 <= l.live[p] < l.column_count);
    assert(left != h && right != h) by {
        if 0 <= p - 1 {
            assert(l.live[p - 1] != l.live[p]);
        }
        if p + 1 < len {
            assert(l.live[p + 1] != l.live[p]);
        }
    }
    assert(show_nodes(w.nodes, c) =~= l.nodes);
    assert forall|i: int| 0 <= i < l.nodes.len() implies same_along(#[trigger] w.nodes[i], l.nodes[i])
        && w.nodes[i].left == (if i == right { left } else { l.nodes[i].left as int })
        && w.nodes[i].right == (if i == left { right } else { l.nodes[i].right as int }) by {}
    assert(w.shape_ok()) by {
        assert forall|i: int| 0 <= i < l.nodes.len() implies links_within(
            #[trigger] w.nodes[i],
            l.nodes.len() as int,
        ) by {
            assert(links_within(l.nodes[i], l.nodes.len() as int));
        }
        lemma_shape_kept(l, w);
    }
    lemma_rows_kept(l, w);
    assert(w.cols_ok()) by {
        assert forall|c2: int| 0 <= c2 < w.column_count implies #[trigger] w.col_ok(c2) by {
            assert(l.col_ok(c2));
            lemma_col_kept(l, w, c2);
        }
    }
    assert(w.live_ok()) by {
        assert forall|k: int| 0 <= k < w.live.len() implies 0 <= #[trigger] w.live[k]
            < w.column_count by {
            let k0 = if k < p { k } else { k + 1 };
            assert(w.live[k] == l.live[k0]);
        }
        assert forall|i: int, j: int|
            0 <= i < w.live.len() && 0 <= j < w.live.len() && i != j implies w.live[i]
            != w.live[j] by {
            let i0 = if i < p { i } else { i + 1 };
            let j0 = if j < p { j } else { j + 1 };
            assert(w.live[i] == l.live[i0]);
            assert(w.live[j] == l.live[j0]);
        }
        assert forall|k: int| -1 <= k < w.live.len() implies #[trigger] w.live_link(k) by {
            let k0 = if k < p { k } else { k + 1 };
            let k1 = if k + 1 < p { k + 1 } else { k + 2 };
            assert(w.hat(k) == l.hat(k0));
            assert(w.hat(k + 1) == l.hat(k1));
            if 0 <= k0 < len {
                assert(0 <= l.live[k0] < l.column_count);
            }
            if 0 <= k1 < len {
                assert(0 <= l.live[k1] < l.column_count);
            }
            if k + 1 < p {
                assert(l.live_link(k));
                if 0 <= k {
                    assert(l.live[k] != l.live[p - 1]);
                }
                if p + 1 < len {
                    assert(l.live[k + 1] != l.live[p + 1]);
                }
            } else if k + 1 == p {
            } else {
                assert(l.live_link(k + 1));
                if 0 <= p - 1 {
                    assert(l.live[k + 1] != l.live[p - 1]);
                }
                if k + 2 < len {
                    assert(l.live[k + 2] != l.live[p + 1]);
                }
            }
        }
    }
    assert forall|c2: int| #[trigger] w.live.contains(c2) <==> l.live.contains(c2) && c2 != c by {
        if w.live.contains(c2) {
            let k = choose|k: int| 0 <= k < w.live.len() && w.live[k] == c2;
            let k0 = if k < p { k } else { k + 1 };
            assert(l.live[k0] == c2);
        }
        if l.live.contains(c2) && c2 != c {
            let k0 = choose|k: int| 0 <= k < l.live.len() && l.live[k] == c2;
            let k = if k0 < p { k0 } else { k0 - 1 };
            assert(w.live[k] == c2);
        }
    }
    assert forall|e: int| w.is_entry(e) implies (#[trigger] w.linked(e) <==> w.linked(e)
        && !Set::<int>::empty().contains(e)) by {}
}

/// Entry `e` shares its row with the entry at position `i` of column `c`.
pub open spec fn hit_by(l: Links, c: int, i: int, e: int) -> bool {
    l.row_of(l.cols[c][i]) == l.row_of(e) && l.cols[c][i] != e
}

/// The entries that leave their rings when the rows of the first `k`
/// entries of column `c` are swept.
pub open spec fn swept(l: Links, c: int, k: int) -> Set<int> {
    Set::new(|e: int| l.is_entry(e) && exists|i: int| 0 <= i < k && #[trigger] hit_by(l, c, i, e))
}

/// The other entries of the row of the `k`-th entry of a column can leave
/// their rings once the rows before it were swept.
pub proof fn lemma_row_sweepable(l: Links, c: int, k: int)
    requires
        l.base_wf(),
        l.live.contains(c),
        0 <= k < l.cols[c].len(),
    ensures
        l.is_entry(l.cols[c][k]),
        l.col_of(l.cols[c][k]) == c,
        l.hidden(c).others(l.cols[c][k]) == l.others(l.cols[c][k]),
        l.others(l.cols[c][k]).no_duplicates(),
        forall|j: int|
            0 <= j < l.others(l.cols[c][k]).len() ==> {
                let f = #[trigger] l.others(l.cols[c][k])[j];
                &&& l.hidden(c).is_entry(f)
                &&& l.hidden(c).linked(f)
                &&& !swept(l, c, k).contains(f)
                &&& l.hidden(c).col_of(f) != c
            },
        swept(l, c, k).union(l.others(l.cols[c][k]).to_set()) == swept(l, c, k + 1),
{
    let hid = l.hidden(c);
    let ring = l.cols[c];
    let e = ring[k];
    let g1 = swept(l, c, k);
    lemma_hidden(l, c);
    assert(l.col_ok(c));
    assert(l.is_entry(e));
    assert(hid.nodes[e] == l.nodes[e]);
    let fs = l.others(e);
    lemma_others(l, e);
    assert(l.linked(e));
    assert(l.active(l.row_of(e)));
    assert forall|j: int| 0 <= j < fs.len() implies {
        let f = #[trigger] fs[j];
        &&& hid.is_entry(f)
        &&& hid.linked(f)
        &&& !g1.contains(f)
        &&& hid.col_of(f) != c
    } by {
        let f = fs[j];
        assert(hid.nodes[f] == l.nodes[f]);
        assert(l.rows[l.row_of(f)].contains(f));
        let q = choose|q: int| 0 <= q < l.rows[l.row_of(e)].len() && l.rows[l.row_of(e)][q] == f;
        assert(l.live.contains(l.col_of(l.rows[l.row_of(e)][q])));
        assert(l.linked(f) <==> l.active(l.row_of(f)));
        if g1.contains(f) {
            let i = choose|i: int| 0 <= i < k && #[trigger] hit_by(l, c, i, f);
            assert(l.is_entry(ring[i]));
            assert(ring[i] != ring[k]);
            lemma_row_mates(l, ring[i], e);
        }
    }
    assert(g1.union(fs.to_set()) =~= swept(l, c, k + 1)) by {
        assert forall|x: int| g1.union(fs.to_set()).contains(x) implies swept(l, c, k + 1).contains(
            x,
        ) by {
            if g1.contains(x) {
                let i = choose|i: int| 0 <= i < k && #[trigger] hit_by(l, c, i, x);
                assert(hit_by(l, c, i, x));
            } else {
                let j = choose|j: int| 0 <= j < fs.len() && fs[j] == x;
                assert(hit_by(l, c, k, x));
            }
        }
        assert forall|x: int| swept(l, c, k + 1).contains(x) implies g1.union(
            fs.to_set(),
        ).contains(x) by {
            let i = choose|i: int| 0 <= i < k + 1 && #[trigger] hit_by(l, c, i, x);
            if i < k {
                assert(g1.contains(x));
            } else {
                assert(fs.contains(x));
            }
        }
    }
}

/// The state after the rows of the first `k` entries of a column were swept.
pub proof fn lemma_unlink_rows(l: Links, c: int, k: int)
    requires
        l.base_wf(),
        l.live.contains(c),
        0 <= k <= l.cols[c].len(),
    ensures
        l.hidden(c).mid_cover(c, l.hidden(c).unlink_rows(l.cols[c].take(k)), swept(l, c, k)),
    decreases k,
{
    let hid = l.hidden(c);
    let ring = l.cols[c];
    lemma_hidden(l, c);
    if k == 0 {
        assert(ring.take(0) =~= Seq::empty());
        assert(swept(l, c, 0) =~= Set::empty());
    } else {
        lemma_unlink_rows(l, c, k - 1);
        lemma_row_sweepable(l, c, k - 1);
        assert(ring.take(k).drop_last() =~= ring.take(k - 1));
        lemma_unlink_all(
            hid,
            c,
            hid.unlink_rows(ring.take(k - 1)),
            swept(l, c, k - 1),
            l.others(ring[k - 1]),
        );
    }
}

/// The state in the middle of a cover of column `c`, after the rows of
/// its first `k` entries were swept and the first `j` other entries of the
/// next row have left their rings.
pub open spec fn mid_state(l: Links, c: int, k: int, j: int) -> Links {
    l.hidden(c).unlink_rows(l.cols[c].take(k)).unlink_all(l.others(l.cols[c][k]).take(j))
}

/// Each state in the middle of a cover has rings, and its next step takes
/// a linked entry off its ring.
pub proof fn lemma_mid_step(l: Links, c: int, k: int, j: int)
    requires
        l.base_wf(),
        l.live.contains(c),
        0 <= k < l.cols[c].len(),
        0 <= j <= l.others(l.cols[c][k]).len(),
    ensures
        mid_state(l, c, k, j).rings_ok(),
        l.hidden(c).same_rows(mid_state(l, c, k, j)),
        mid_state(l, c, k, j).cols[c] == l.cols[c],
        j == 0 ==> mid_state(l, c, k, j) == l.hidden(c).unlink_rows(l.cols[c].take(k)),
        j < l.others(l.cols[c][k]).len() ==> {
            let f = l.others(l.cols[c][k])[j];
            &&& mid_state(l, c, k, j).is_entry(f)
            &&& mid_state(l, c, k, j).linked(f)
            &&& mid_state(l, c, k, j).unlink(f) == mid_state(l, c, k, j + 1)
        },
        j == l.others(l.cols[c][k]).len() ==> mid_state(l, c, k, j) == l.hidden(c).unlink_rows(
            l.cols[c].take(k + 1),
        ),
{
    let hid = l.hidden(c);
    let ring = l.cols[c];
    let fs = l.others(ring[k]);
    let m0 = hid.unlink_rows(ring.take(k));
    let g0 = swept(l, c, k);
    lemma_hidden(l, c);
    lemma_unlink_rows(l, c, k);
    lemma_row_sweepable(l, c, k);
    let part = fs.take(j);
    assert(part.no_duplicates());
    lemma_unlink_all(hid, c, m0, g0, part);
    let m = m0.unlink_all(part);
    if j == 0 {
        assert(part =~= Seq::empty());
    }
    if j < fs.len() {
        let f = fs[j];
        assert(!part.contains(f)) by {
            if part.contains(f) {
                let i = choose|i: int| 0 <= i < part.len() && part[i] == f;
                assert(fs[i] == f);
            }
        }
        assert(m.linked(f));
        let next = fs.take(j + 1);
        assert(next.drop_last() =~= part);
        assert(next.last() == f);
    }
    if j == fs.len() {
        assert(part =~= fs);
        assert(ring.take(k + 1).drop_last() =~= ring.take(k));
    }
}

/// Covering a column of a well-formed matrix leaves a well-formed matrix:
/// the column is off the root's ring, its own ring is as it was, and below
/// the other columns hang the entries of the rows that do not meet it.
pub proof fn lemma_covered(l: Links, c: int)
    requires
        l.base_wf(),
        l.live.contains(c),
    ensures
        l.covered(c).base_wf(),
        l.hidden(c).same_rows(l.covered(c)),
        same_size(l, l.covered(c)),
        0 <= c < l.column_count,
        l.covered(c).rows == l.rows,
        l.covered(c).fronts == l.fronts,
        l.covered(c).cols[c] == l.cols[c],
        l.covered(c).live == l.live.remove(l.live.index_of(c)),
        l.covered(c).live.len() + 1 == l.live.len(),
        l.covered(c).trail == l.trail.push(
            Frame { column: c, nodes: l.nodes, cols: l.cols, live: l.live },
        ),
        l.covered(c).uncovered() == l,
        l.covered(c).trail.last().column == c,
        l.same_matrix(l.covered(c)),
        forall|c2: int| #[trigger] l.covered(c).live.contains(c2) <==> l.live.contains(c2) && c2 != c,
        forall|i: int| l.is_entry(i) ==> same_across(#[trigger] l.covered(c).nodes[i], l.nodes[i]),
{
    let hid = l.hidden(c);
    let ring = l.cols[c];
    let m = l.covered(c);
    let g = swept(l, c, ring.len() as int);
    lemma_hidden(l, c);
    lemma_unlink_rows(l, c, ring.len() as int);
    assert(ring.take(ring.len() as int) =~= ring);
    assert(0 <= c < l.column_count) by {
        let p = choose|p: int| 0 <= p < l.live.len() && l.live[p] == c;
        assert(0 <= l.live[p] < l.column_count);
    }
    assert(l.col_ok(c));
    assert forall|i: int| l.is_entry(i) implies same_across(#[trigger] m.nodes[i], l.nodes[i]) by {
        assert(same_across(m.nodes[i], hid.nodes[i]));
        assert(hid.nodes[i] == l.nodes[i]);
    }
    assert forall|e: int| m.is_entry(e) && m.live.contains(m.col_of(e)) implies (
    #[trigger] m.linked(e) <==> m.active(m.row_of(e))) by {
        let r = l.row_of(e);
        let row = l.rows[r];
        assert(same_across(m.nodes[e], hid.nodes[e]));
        assert(hid.nodes[e] == l.nodes[e]);
        assert(hid.live.contains(l.col_of(e)));
        assert(m.linked(e) <==> hid.linked(e) && !g.contains(e));
        assert(hid.linked(e) <==> l.linked(e));
        assert(l.linked(e) <==> l.active(r));
        assert(l.row_ok(r));
        assert forall|k: int| 0 <= k < row.len() implies m.col_of(#[trigger] row[k]) == l.col_of(
            row[k],
        ) by {
            assert(l.is_entry(row[k]));
        }
        if m.active(r) {
            assert forall|k: int| 0 <= k < row.len() implies l.live.contains(
                l.col_of(#[trigger] row[k]),
            ) by {
                assert(m.live.contains(m.col_of(row[k])));
                assert(hid.live.contains(l.col_of(row[k])));
            }
            if g.contains(e) {
                let i = choose|i: int| 0 <= i < ring.len() && #[trigger] hit_by(l, c, i, e);
                let x = ring[i];
                assert(l.is_entry(x));
                assert(l.rows[l.row_of(x)].contains(x));
                let k = choose|k: int| 0 <= k < row.len() && row[k] == x;
                assert(m.live.contains(m.col_of(row[k])));
                assert(hid.live.contains(c));
            }
        }
        if l.active(r) && !g.contains(e) {
            assert forall|k: int| 0 <= k < row.len() implies m.live.contains(
                m.col_of(#[trigger] row[k]),
            ) by {
                let x = row[k];
                assert(l.is_entry(x));
                assert(l.live.contains(l.col_of(x)));
                if l.col_of(x) == c {
                    assert(l.linked(x) <==> l.active(l.row_of(x)));
                    let i = choose|i: int| 0 <= i < ring.len() && ring[i] == x;
                    assert(hit_by(l, c, i, e));
                }
                assert(hid.live.contains(l.col_of(x)));
            }
        }
    }
    assert(m.trail =~= l.trail.push(
        Frame { column: c, nodes: l.nodes, cols: l.cols, live: l.live },
    ));
    assert(m.trail.drop_last() =~= l.trail);
}

/// Covering keeps the history well formed too.
pub proof fn lemma_covered_wf(l: Links, c: int)
    requires
        l.wf(),
        l.live.contains(c),
    ensures
        l.covered(c).wf(),
{
    let m = l.covered(c);
    let n = l.trail.len() as int;
    lemma_covered(l, c);
    assert(m.before(n) == l) by {
        assert(m.trail.take(n) =~= l.trail);
    }
    assert forall|i: int| 0 <= i < m.trail.len() implies #[trigger] m.frame_ok(i) by {
        if i < n {
            assert(l.frame_ok(i));
            assert(m.trail.take(i) =~= l.trail.take(i));
            assert(m.before(i) == l.before(i));
            if i + 1 < n {
                assert(m.trail.take(i + 1) =~= l.trail.take(i + 1));
                assert(m.before(i + 1) == l.before(i + 1));
            }
        }
    }
}

/// Undoing the latest cover leaves a well-formed matrix, of which the
/// present one is a cover.
pub proof fn lemma_uncovered_wf(l: Links)
    requires
        l.wf(),
        l.trail.len() > 0,
    ensures
        l.uncovered().wf(),
        l.uncovered().live.contains(l.trail.last().column),
        l.uncovered().covered(l.trail.last().column) == l,
{
    let n = l.trail.len() - 1;
    let b = l.uncovered();
    assert(l.frame_ok(n));
    assert(l.trail.take(n) =~= l.trail.drop_last());
    assert(l.before(n) == b);
    assert forall|i: int| 0 <= i < b.trail.len() implies #[trigger] b.frame_ok(i) by {
        assert(l.frame_ok(i));
        assert(b.trail.take(i) =~= l.trail.take(i));
        assert(b.before(i) == l.before(i));
        if i + 1 < n {
            assert(b.trail.take(i + 1) =~= l.trail.take(i + 1));
            assert(b.before(i + 1) == l.before(i + 1));
        } else {
            assert(l.after(i) == l.before(i + 1));
        }
    }
}

/// A state of a state of a matrix is a state of that matrix.
pub proof fn lemma_same_matrix(l: Links, m: Links, w: Links)
    requires
        l.same_matrix(m),
        m.same_matrix(w),
        0 <= l.column_count,
    ensures
        l.same_matrix(w),
{
    assert forall|e: int| l.is_entry(e) implies same_across(#[trigger] w.nodes[e], l.nodes[e]) by {
        assert(m.is_entry(e));
        assert(same_across(w.nodes[e], m.nodes[e]));
        assert(same_across(m.nodes[e], l.nodes[e]));
    }
}

/// The other entries of a row have the same columns in every state of the
/// matrix.
pub proof fn lemma_other_columns(l: Links, m: Links, e: int)
    requires
        l.rings_ok(),
        l.same_matrix(m),
        l.is_entry(e),
    ensures
        m.others(e) == l.others(e),
        m.other_columns(e) == l.other_columns(e),
        m.other_columns(e).len() == l.others(e).len(),
        l.other_columns(e).no_duplicates(),
        forall|j: int|
            0 <= j < l.others(e).len() ==> #[trigger] l.other_columns(e)[j] == l.col_of(
                l.others(e)[j],
            ) && l.other_columns(e)[j] != l.col_of(e),
{
    lemma_others(l, e);
    assert(same_across(m.nodes[e], l.nodes[e]));
    let fs = l.others(e);
    assert forall|j: int| 0 <= j < fs.len() implies m.col_of(#[trigger] fs[j]) == l.col_of(fs[j]) by {
        assert(same_across(m.nodes[fs[j]], l.nodes[fs[j]]));
    }
    assert(m.other_columns(e) =~= l.other_columns(e));
    assert forall|i: int, j: int|
        0 <= i < fs.len() && 0 <= j < fs.len() && i != j implies l.other_columns(e)[i]
        != l.other_columns(e)[j] by {
        lemma_row_mates(l, fs[i], fs[j]);
    }
}

/// Covering columns one after another keeps the matrix well formed and
/// takes exactly these columns off the root's ring.
pub proof fn lemma_cover_each(l: Links, cs: Seq<int>)
    requires
        l.can_cover_each(cs),
    ensures
        l.cover_each(cs).wf(),
        l.same_matrix(l.cover_each(cs)),
        l.cover_each(cs).live.len() + cs.len() == l.live.len(),
        l.cover_each(cs).trail.len() == l.trail.len() + cs.len(),
        forall|x: int| #[trigger]
            l.cover_each(cs).live.contains(x) <==> l.live.contains(x) && !cs.contains(x),
    decreases cs.len(),
{
    if cs.len() == 0 {
    } else {
        let p = cs.drop_last();
        let c = cs.last();
        assert(p.no_duplicates());
        assert forall|i: int| 0 <= i < p.len() implies l.live.contains(#[trigger] p[i]) by {
            assert(p[i] == cs[i]);
        }
        lemma_cover_each(l, p);
        let m1 = l.cover_each(p);
        assert(cs[cs.len() - 1] == c);
        assert(!p.contains(c)) by {
            if p.contains(c) {
                let i = choose|i: int| 0 <= i < p.len() && p[i] == c;
                assert(cs[i] == c);
            }
        }
        assert(m1.live.contains(c));
        lemma_covered(m1, c);
        lemma_covered_wf(m1, c);
        let m = m1.covered(c);
        lemma_same_matrix(l, m1, m);
        assert forall|x: int| #[trigger] m.live.contains(x) <==> l.live.contains(x) && !cs.contains(
            x,
        ) by {
            assert(m1.live.contains(x) <==> l.live.contains(x) && !p.contains(x));
            if cs.contains(x) && x != c {
                let i = choose|i: int| 0 <= i < cs.len() && cs[i] == x;
                assert(p[i] == x);
            }
            if p.contains(x) {
                let i = choose|i: int| 0 <= i < p.len() && p[i] == x;
                assert(cs[i] == x);
            }
        }
    }
}

/// After covers of the columns `cs`, undoing the latest `j` of them leaves
/// the matrix as it was after the covers before them: rings, arena and
/// history are the same, node for node.
pub proof fn lemma_uncover_each(l: Links, cs: Seq<int>, j: nat)
    requires
        l.can_cover_each(cs),
        j <= cs.len(),
    ensures
        l.cover_each(cs).uncover_each(j) == l.cover_each(cs.take(cs.len() - j)),
    decreases j,
{
    if j == 0 {
        assert(cs.take(cs.len() as int) =~= cs);
    } else {
        lemma_uncover_each(l, cs, (j - 1) as nat);
        let longer = cs.take(cs.len() - j + 1);
        let shorter = cs.take(cs.len() - j);
        assert(longer.drop_last() =~= shorter);
        let c = longer.last();
        assert(c == cs[cs.len() - j]);
        assert(shorter.no_duplicates());
        lemma_cover_each(l, shorter);
        assert(!shorter.contains(c)) by {
            if shorter.contains(c) {
                let i = choose|i: int| 0 <= i < shorter.len() && shorter[i] == c;
                assert(cs[i] == c);
            }
        }
        lemma_covered(l.cover_each(shorter), c);
    }
}

/// Covers of any columns, one after another, followed by as many uncovers
/// leave the matrix as it was before the first cover: rings, arena and
/// history are the same, node for node.
pub proof fn lemma_uncover_undoes_cover(l: Links, cs: Seq<int>)
    requires
        l.can_cover_each(cs),
    ensures
        l.cover_each(cs).uncover_each(cs.len()) == l,
{
    lemma_uncover_each(l, cs, cs.len());
    assert(cs.take(0) =~= Seq::empty());
}

} // verus!
