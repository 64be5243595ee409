//! The cover matrix: a sparse 0/1 matrix whose columns can be covered and
//! uncovered in place, and the search for an exact cover of it.

use vstd::prelude::*;
use vstd::std_specs::cmp::PartialEqSpecImpl;
use vstd::string::*;
use crate::entry::{lemma_ring_fits, lemma_with_entry_has, lemma_with_entry_wf};
use crate::exact::{
    as_ints, lemma_can_cover_prefix, lemma_cover_extends, lemma_cover_meets_column,
    lemma_cover_restricts, lemma_first_least, lemma_nothing_left, lemma_row_reduces,
    lemma_search_starts, row_set,
};
use crate::covering::{
    lemma_cover_each, lemma_covered, lemma_covered_wf, lemma_hidden, lemma_linked_at,
    lemma_mid_step, lemma_other_columns, lemma_others, lemma_same_matrix, lemma_uncovered_wf,
    lemma_unlink, lemma_unlink_rows, mid_state, oat_link, relink_nodes, same_across, show_nodes,
};
use crate::links::{
    Frame, Links, Node, NodeKind, lemma_empty_wf, lemma_wf_is_loose, links_within, wrap,
};
use crate::text::{
    append_links, append_node, append_number, matrix_text, with_columns, with_ring, with_rows,
};

verus! {

/// A sparse 0/1 matrix held as rings of nodes in one arena.
#[derive(Clone)]
pub struct Matrix {
    row_count: usize,
    column_count: usize,
    /// All nodes: the root, the column headers, and the entries.
    nodes: Vec<Node>,
    /// For each row, one of its entries, if it has any.
    row_fronts: Vec<Option<usize>>,
    /// For each row, its entries in the order of its ring.
    rows: Ghost<Seq<Seq<int>>>,
    /// For each column, the entries on its ring, from the top down.
    cols: Ghost<Seq<Seq<int>>>,
    /// The columns on the root's ring, going right from the root.
    live: Ghost<Seq<int>>,
    /// The rings as they were before each cover that has not been undone.
    trail: Ghost<Seq<Frame>>,
}

impl View for Matrix {
    type V = Links;

    closed spec fn view(&self) -> Links {
        Links {
            row_count: self.row_count as int,
            column_count: self.column_count as int,
            nodes: self.nodes@,
            fronts: self.row_fronts@,
            rows: self.rows@,
            cols: self.cols@,
            live: self.live@,
            trail: self.trail@,
        }
    }
}

impl PartialEq for Matrix {
    /// Two matrices are equal when they have the same dimensions and their
    /// arenas hold the same nodes with the same links.
    fn eq(&self, other: &Self) -> (equal: bool) {
        if self.row_count != other.row_count || self.column_count != other.column_count {
            return false;
        }
        if self.nodes.len() != other.nodes.len() || self.row_fronts.len() != other.row_fronts.len() {
            return false;
        }
        let mut i: usize = 0;
        while i < self.nodes.len()
            invariant
                i <= self.nodes.len(),
                self.nodes.len() == other.nodes.len(),
                forall|j: int| 0 <= j < i ==> self.nodes@[j] == other.nodes@[j],
            decreases self.nodes.len() - i,
        {
            if self.nodes[i] != other.nodes[i] {
                return false;
            }
            i += 1;
        }
        let mut row: usize = 0;
        while row < self.row_fronts.len()
            invariant
                row <= self.row_fronts.len(),
                self.row_fronts.len() == other.row_fronts.len(),
                forall|j: int| 0 <= j < row ==> self.row_fronts@[j] == other.row_fronts@[j],
            decreases self.row_fronts.len() - row,
        {
            if self.row_fronts[row] != other.row_fronts[row] {
                return false;
            }
            row += 1;
        }
        assert(self.nodes@ =~= other.nodes@);
        assert(self.row_fronts@ =~= other.row_fronts@);
        true
    }
}

impl Eq for Matrix {

}

impl PartialEqSpecImpl for Matrix {
    open spec fn obeys_eq_spec() -> bool {
        true
    }

    open spec fn eq_spec(&self, other: &Matrix) -> bool {
        &&& self@.row_count == other@.row_count
        &&& self@.column_count == other@.column_count
        &&& self@.nodes == other@.nodes
        &&& self@.fronts == other@.fronts
    }
}

impl Matrix {
    /// A cleared matrix of the given dimensions, with room for
    /// `entry_capacity` entries.
    pub fn new(row_count: usize, column_count: usize, entry_capacity: usize) -> (matrix: Matrix)
        requires
            0 < row_count < usize::MAX,
            0 < column_count < usize::MAX,
            1 + column_count + entry_capacity <= usize::MAX,
        ensures
            matrix@ == Links::empty(row_count as int, column_count as int),
            matrix@.wf(),
            matrix@.loose_ok(),
    {
        let nodes = Vec::with_capacity(1 + column_count + entry_capacity);
        let row_fronts = vec![None; row_count];
        let mut matrix = Matrix {
            row_count,
            column_count,
            nodes,
            row_fronts,
            rows: Ghost(Seq::empty()),
            cols: Ghost(Seq::empty()),
            live: Ghost(Seq::empty()),
            trail: Ghost(Seq::empty()),
        };
        matrix.clear();
        matrix
    }

    /// Back to the cleared state: every column uncovered, and no entry.
    pub fn clear(&mut self)
        requires
            old(self)@.dims_ok(),
        ensures
            final(self)@ == Links::empty(old(self)@.row_count, old(self)@.column_count),
            final(self)@.wf(),
            final(self)@.loose_ok(),
    {
        let ghost rows = self.row_count as int;
        let ghost columns = self.column_count as int;
        self.nodes.clear();
        self.nodes.push(
            Node {
                kind: NodeKind::Root,
                column_size: usize::MAX,
                column_index: usize::MAX,
                row_index: usize::MAX,
                up: 0,
                down: 0,
                left: self.column_count,
                right: 1,
            },
        );
        let mut column: usize = 0;
        while column < self.column_count
            invariant
                column <= self.column_count == columns,
                columns < usize::MAX,
                self.row_count == rows,
                self.row_fronts.len() == rows,
                self.nodes@ == Links::empty(rows, columns).nodes.take(column + 1),
            decreases self.column_count - column,
        {
            let column_index = column + 1;
            self.nodes.push(
                Node {
                    kind: NodeKind::Header,
                    column_size: 0,
                    column_index: column,
                    row_index: usize::MAX,
                    up: column_index,
                    down: column_index,
                    left: column,
                    right: if column == self.column_count - 1 {
                        0
                    } else {
                        column + 2
                    },
                },
            );
            assert(self.nodes@ =~= Links::empty(rows, columns).nodes.take(column + 2));
            column += 1;
        }
        let mut row: usize = 0;
        while row < self.row_count
            invariant
                row <= self.row_count == rows,
                self.column_count == columns,
                self.row_fronts.len() == rows,
                self.nodes@ == Links::empty(rows, columns).nodes.take(columns + 1),
                forall|r: int| 0 <= r < row ==> self.row_fronts@[r] == None::<usize>,
            decreases self.row_count - row,
        {
            self.row_fronts[row] = None;
            row += 1;
        }
        self.rows = Ghost(Links::empty(rows, columns).rows);
        self.cols = Ghost(Links::empty(rows, columns).cols);
        self.live = Ghost(Links::empty(rows, columns).live);
        self.trail = Ghost(Seq::empty());
        proof {
            lemma_empty_wf(rows, columns);
            lemma_wf_is_loose(Links::empty(rows, columns));
            assert(self.nodes@ =~= Links::empty(rows, columns).nodes);
            assert(self.row_fronts@ =~= Links::empty(rows, columns).fronts);
        }
    }

    /// Puts a one at the given row and column: a new node, topmost in its
    /// column and to the right of the front of its row.  The matrix must be
    /// at rest, with no cover outstanding.  A place that holds a one
    /// already gets a second node; a matrix with such a place is no longer
    /// well formed, and cannot be covered or searched.
    pub fn set_entry(&mut self, row_index: usize, column_index: usize)
        requires
            old(self)@.can_add(row_index as int, column_index as int),
        ensures
            final(self)@ == old(self)@.with_entry(row_index as int, column_index as int),
            final(self)@.loose_ok(),
            final(self)@.wf() <==> old(self)@.wf() && !old(self)@.has(
                row_index as int,
                column_index as int,
            ),
            final(self)@.trail.len() == 0,
            final(self)@.row_count == old(self)@.row_count,
            final(self)@.column_count == old(self)@.column_count,
            final(self)@.live == old(self)@.live,
            final(self)@.nodes.len() == old(self)@.nodes.len() + 1,
            final(self)@.cols[column_index as int] == old(self)@.cols[column_index as int].insert(
                0,
                old(self)@.nodes.len() as int,
            ),
            forall|c: int|
                0 <= c < old(self)@.column_count ==> (#[trigger] final(self)@.nodes[c
                    + 1]).column_size == if c == column_index {
                    old(self)@.nodes[c + 1].column_size + 1
                } else {
                    old(self)@.nodes[c + 1].column_size as int
                },
            forall|c: int|
                0 <= c < old(self)@.column_count && c != column_index ==> #[trigger] final(self)@
                    .cols[c] == old(self)@.cols[c],
            forall|r: int, c: int|
                0 <= r < old(self)@.row_count ==> (#[trigger] final(self)@.has(r, c) <==> old(
                    self,
                )@.has(r, c) || (r == row_index && c == column_index)),
    {
        proof {
            lemma_with_entry_wf(self@, row_index as int, column_index as int);
            lemma_with_entry_has(self@, row_index as int, column_index as int);
            lemma_ring_fits(self@, column_index as int);
            assert(self@.col_ok(column_index as int));
            assert(self@.col_link(column_index as int, -1));
            assert(self@.row_ring(row_index as int));
        }
        let ghost before = self@;
        let header_index = 1 + column_index;
        self.nodes[header_index].column_size += 1;
        let entry_node_index = self.nodes.len();
        let prev_header_down_index = self.nodes[header_index].down;
        self.nodes[header_index].down = entry_node_index;
        self.nodes[prev_header_down_index].up = entry_node_index;
        assert(self.nodes@ == before.hung(column_index as int));
        let (left, right) = match self.row_fronts[row_index] {
            Some(row_front_index) => {
                let prev_row_front_right_index = self.nodes[row_front_index].right;
                self.nodes[row_front_index].right = entry_node_index;
                self.nodes[prev_row_front_right_index].left = entry_node_index;
                proof {
                    self.rows@ = self.rows@.update(
                        row_index as int,
                        self.rows@[row_index as int].insert(1, entry_node_index as int),
                    );
                }
                (row_front_index, prev_row_front_right_index)
            },
            None => {
                self.row_fronts[row_index] = Some(entry_node_index);
                proof {
                    self.rows@ = self.rows@.update(row_index as int, seq![entry_node_index as int]);
                }
                (entry_node_index, entry_node_index)
            },
        };
        self.nodes.push(
            Node {
                kind: NodeKind::Entry,
                column_size: usize::MAX,
                column_index,
                row_index,
                up: header_index,
                down: prev_header_down_index,
                left,
                right,
            },
        );
        proof {
            self.cols@ = self.cols@.update(
                column_index as int,
                self.cols@[column_index as int].insert(0, entry_node_index as int),
            );
            assert(self@.nodes =~= before.with_entry(row_index as int, column_index as int).nodes);
            assert(self@ == before.with_entry(row_index as int, column_index as int));
        }
    }

    /// Covers a column that is on the root's ring: takes its header off that
    /// ring, and for every entry on the column's ring, from the top down,
    /// takes the other entries of its row off the rings of their columns.
    pub fn cover_column(&mut self, column_index: usize)
        requires
            old(self)@.wf(),
            old(self)@.live.contains(column_index as int),
        ensures
            final(self)@ == old(self)@.covered(column_index as int),
            final(self)@.wf(),
            final(self)@.loose_ok(),
            old(self)@.same_matrix(final(self)@),
            final(self)@.trail.len() == old(self)@.trail.len() + 1,
            final(self)@.trail.last().column == column_index,
            final(self)@.uncovered() == old(self)@,
            forall|c: int| #[trigger]
                final(self)@.live.contains(c) <==> old(self)@.live.contains(c) && c != column_index,
    {
        let ghost l = self@;
        let ghost c = column_index as int;
        let ghost hid = l.hidden(c);
        let ghost ring = l.cols[c];
        proof {
            lemma_covered(l, c);
            lemma_covered_wf(l, c);
            lemma_wf_is_loose(l.covered(c));
            lemma_hidden(l, c);
            assert(l.live_link(l.live.index_of(c) - 1));
            assert(l.live_link(l.live.index_of(c)));
            assert(links_within(l.nodes[c + 1], l.nodes.len() as int));
        }
        let header_index = column_index + 1;
        let left_neighbor_index = self.nodes[header_index].left;
        let right_neighbor_index = self.nodes[header_index].right;
        self.nodes[right_neighbor_index].left = left_neighbor_index;
        self.nodes[left_neighbor_index].right = right_neighbor_index;
        proof {
            self.live@ = l.live.remove(l.live.index_of(c));
            self.trail@ = l.trail.push(
                Frame { column: c, nodes: l.nodes, cols: l.cols, live: l.live },
            );
            assert(self@ == hid);
            assert(ring.take(0) =~= Seq::empty());
            assert(hid.col_ok(c));
            assert(hid.col_link(c, -1));
        }
        let ghost mut k: int = 0;
        let mut current_down_index = self.nodes[header_index].down;
        while current_down_index != header_index
            invariant
                l.base_wf(),
                l.live.contains(c),
                0 <= c < l.column_count,
                c == column_index,
                header_index == c + 1,
                hid == l.hidden(c),
                ring == l.cols[c],
                0 <= k <= ring.len(),
                current_down_index == l.vat(c, k),
                self@ == hid.unlink_rows(ring.take(k)),
            decreases ring.len() - k,
        {
            let ghost e = current_down_index as int;
            let ghost fs = l.others(e);
            proof {
                assert(l.col_ok(c));
                assert(k < ring.len());
                assert(e == ring[k]);
                lemma_mid_step(l, c, k, 0);
                lemma_others(l, e);
                lemma_hidden(l, c);
                assert(oat_link(l, e, 0));
                assert(same_across(self@.nodes[e], hid.nodes[e]));
            }
            let ghost mut j: int = 0;
            let mut current_right_index = self.nodes[current_down_index].right;
            while current_right_index != current_down_index
                invariant
                    l.base_wf(),
                    l.live.contains(c),
                    0 <= c < l.column_count,
                    hid == l.hidden(c),
                    ring == l.cols[c],
                    0 <= k < ring.len(),
                    e == ring[k],
                    e == current_down_index,
                    l.is_entry(e),
                    fs == l.others(e),
                    0 <= j <= fs.len(),
                    current_right_index == l.oat(e, j + 1),
                    self@ == mid_state(l, c, k, j),
                decreases fs.len() - j,
            {
                let ghost f = current_right_index as int;
                let ghost st = self@;
                proof {
                    lemma_others(l, e);
                    assert(j < fs.len());
                    assert(f == fs[j]);
                    lemma_mid_step(l, c, k, j);
                    lemma_linked_at(st, f);
                    lemma_unlink(st, f);
                    lemma_hidden(l, c);
                    assert(oat_link(l, e, j + 1));
                    assert(same_across(st.nodes[f], hid.nodes[f]));
                }
                let current_right_header_index = self.nodes[current_right_index].column_index + 1;
                let up_neighbor_index = self.nodes[current_right_index].up;
                let down_neighbor_index = self.nodes[current_right_index].down;
                self.nodes[up_neighbor_index].down = down_neighbor_index;
                self.nodes[down_neighbor_index].up = up_neighbor_index;
                self.nodes[current_right_header_index].column_size -= 1;
                proof {
                    let cf = st.col_of(f);
                    self.cols@ = st.cols.update(cf, st.cols[cf].remove(st.cols[cf].index_of(f)));
                    assert(self@.nodes =~= st.unlink(f).nodes);
                    assert(self@ == st.unlink(f));
                    j = j + 1;
                }
                current_right_index = self.nodes[current_right_index].right;
            }
            proof {
                lemma_others(l, e);
                assert(j == fs.len());
                lemma_mid_step(l, c, k, j);
                let st = self@;
                assert(st.col_ok(c));
                assert(st.col_link(c, k));
                k = k + 1;
            }
            current_down_index = self.nodes[current_down_index].down;
        }
        proof {
            assert(l.col_ok(c));
            assert(k == ring.len()) by {
                if k < ring.len() {
                    assert(l.is_entry(ring[k]));
                }
            }
            assert(ring.take(k) =~= ring);
        }
    }

    /// Undoes the latest cover that has not been undone, which must be the
    /// cover of this column: puts the entries back on their rings in the
    /// opposite order, from the bottom up and going left, and the header back
    /// on the root's ring.  The rings are then, node for node, what they
    /// were before that cover.
    pub fn uncover_column(&mut self, column_index: usize)
        requires
            old(self)@.wf(),
            old(self)@.trail.len() > 0,
            old(self)@.trail.last().column == column_index,
        ensures
            final(self)@ == old(self)@.uncovered(),
            final(self)@.wf(),
            final(self)@.loose_ok(),
    {
        let ghost now = self@;
        let ghost l = now.uncovered();
        let ghost c = column_index as int;
        proof {
            lemma_uncovered_wf(now);
            lemma_wf_is_loose(l);
            lemma_covered(l, c);
        }
        let ghost hid = l.hidden(c);
        let ghost ring = l.cols[c];
        proof {
            lemma_hidden(l, c);
            lemma_unlink_rows(l, c, ring.len() as int);
            assert(ring.take(ring.len() as int) =~= ring);
            assert(now.col_ok(c));
            assert(now.col_link(c, ring.len() - 1));
        }
        let header_index = column_index + 1;
        let ghost mut k: int = ring.len() as int;
        let mut current_up_index = self.nodes[header_index].up;
        while current_up_index != header_index
            invariant
                l.base_wf(),
                l.live.contains(c),
                0 <= c < l.column_count,
                c == column_index,
                header_index == c + 1,
                hid == l.hidden(c),
                ring == l.cols[c],
                0 <= k <= ring.len(),
                current_up_index == l.vat(c, k - 1),
                self.nodes@ == hid.unlink_rows(ring.take(k)).nodes,
                l.wf(),
                self@.row_count == l.row_count,
                self@.column_count == l.column_count,
                self@.fronts == l.fronts,
                self@.rows == l.rows,
            decreases k,
        {
            let ghost e = current_up_index as int;
            let ghost fs = l.others(e);
            proof {
                assert(l.col_ok(c));
                assert(k > 0);
                assert(e == ring[k - 1]);
                lemma_others(l, e);
                lemma_hidden(l, c);
                lemma_mid_step(l, c, k - 1, fs.len() as int);
                assert(oat_link(l, e, fs.len() as int));
                assert(same_across(mid_state(l, c, k - 1, fs.len() as int).nodes[e], hid.nodes[e]));
            }
            let ghost mut j: int = fs.len() as int;
            let mut current_left_index = self.nodes[current_up_index].left;
            while current_left_index != current_up_index
                invariant
                    l.base_wf(),
                    l.live.contains(c),
                    0 <= c < l.column_count,
                    hid == l.hidden(c),
                    ring == l.cols[c],
                    0 < k <= ring.len(),
                    e == ring[k - 1],
                    e == current_up_index,
                    l.is_entry(e),
                    fs == l.others(e),
                    0 <= j <= fs.len(),
                    current_left_index == l.oat(e, j),
                    self.nodes@ == mid_state(l, c, k - 1, j).nodes,
                    self@.row_count == l.row_count,
                    self@.column_count == l.column_count,
                    self@.fronts == l.fronts,
                    self@.rows == l.rows,
                decreases j,
            {
                let ghost f = current_left_index as int;
                proof {
                    lemma_others(l, e);
                    assert(j > 0);
                    assert(f == fs[j - 1]);
                    lemma_mid_step(l, c, k - 1, j - 1);
                    let st = mid_state(l, c, k - 1, j - 1);
                    lemma_linked_at(st, f);
                    lemma_unlink(st, f);
                    lemma_hidden(l, c);
                    assert(oat_link(l, e, j - 1));
                    assert(same_across(st.nodes[f], hid.nodes[f]));
                    assert(links_within(st.nodes[f], st.nodes.len() as int));
                }
                let current_left_header_index = self.nodes[current_left_index].column_index + 1;
                let up_neighbor_index = self.nodes[current_left_index].up;
                let down_neighbor_index = self.nodes[current_left_index].down;
                self.nodes[up_neighbor_index].down = current_left_index;
                self.nodes[down_neighbor_index].up = current_left_index;
                self.nodes[current_left_header_index].column_size += 1;
                proof {
                    assert(self.nodes@ =~= relink_nodes(mid_state(l, c, k - 1, j).nodes, f));
                    j = j - 1;
                }
                current_left_index = self.nodes[current_left_index].left;
            }
            proof {
                assert(j == 0) by {
                    lemma_others(l, e);
                }
                lemma_mid_step(l, c, k - 1, 0);
                let st = mid_state(l, c, k - 1, 0);
                assert(st.col_ok(c));
                assert(st.col_link(c, k - 2));
                k = k - 1;
            }
            current_up_index = self.nodes[current_up_index].up;
        }
        proof {
            assert(l.col_ok(c));
            assert(k == 0) by {
                if k > 0 {
                    assert(l.is_entry(ring[k - 1]));
                }
            }
            assert(ring.take(0) =~= Seq::empty());
            lemma_hidden(l, c);
            assert(self.nodes@ == hid.nodes);
            assert(links_within(l.nodes[c + 1], l.nodes.len() as int));
        }
        let left_neighbor_index = self.nodes[header_index].left;
        let right_neighbor_index = self.nodes[header_index].right;
        self.nodes[right_neighbor_index].left = header_index;
        self.nodes[left_neighbor_index].right = header_index;
        proof {
            self.cols@ = l.cols;
            self.live@ = l.live;
            self.trail@ = l.trail;
            assert(self.nodes@ =~= show_nodes(hid.nodes, c));
        }
    }

    /// The text of the matrix: a line for each column that is not covered,
    /// with its header, and a line for each row that has an entry, with the
    /// links of its entries.
    pub fn to_string(&self) -> (text: String)
        requires
            self@.loose_ok(),
        ensures
            text@ == matrix_text(self@),
    {
        let ghost l = self@;
        let mut buf = String::new();
        let ghost mut k: int = 0;
        proof {
            assert(l.live_link(-1));
        }
        let mut current_header_index = self.nodes[0].right;
        while current_header_index != 0
            invariant
                l == self@,
                l.loose_ok(),
                0 <= k <= l.live.len(),
                current_header_index == l.hat(k),
                buf@ == with_columns(Seq::empty(), l, k),
            decreases l.live.len() - k,
        {
            proof {
                assert(k < l.live.len());
                assert(0 <= l.live[k] < l.column_count);
                assert(l.live_link(k));
            }
            buf.append("col ");
            append_node(&mut buf, self.nodes[current_header_index]);
            buf.append("\n");
            current_header_index = self.nodes[current_header_index].right;
            proof {
                k = k + 1;
            }
        }
        proof {
            assert(k == l.live.len()) by {
                if k < l.live.len() {
                    assert(0 <= l.live[k]);
                }
            }
        }
        let ghost head = buf@;
        let mut row: usize = 0;
        while row < self.row_count
            invariant
                l == self@,
                l.loose_ok(),
                row <= self.row_count,
                buf@ == with_rows(head, l, row as int),
            decreases self.row_count - row,
        {
            proof {
                assert(l.row_ring(row as int));
            }
            if let Some(row_front_index) = self.row_fronts[row] {
                let ghost ring = l.rows[row as int];
                buf.append("row ");
                append_number(&mut buf, row);
                buf.append(": [ ");
                let ghost start = buf@;
                let ghost mut j: int = 0;
                let mut current_index = row_front_index;
                loop
                    invariant_except_break
                        0 <= j < ring.len(),
                        current_index == ring[j],
                        buf@ == with_ring(start, l, row as int, j),
                    invariant
                        l == self@,
                        l.loose_ok(),
                        row < self.row_count,
                        ring == l.rows[row as int],
                        ring.len() > 0,
                        row_front_index == ring[0],
                    ensures
                        buf@ == with_ring(start, l, row as int, ring.len() as int),
                    decreases ring.len() - j,
                {
                    proof {
                        assert(l.row_ring(row as int));
                        assert(l.is_entry(ring[j]));
                        assert(l.row_link(row as int, j));
                    }
                    let node = self.nodes[current_index];
                    append_links(&mut buf, current_index, node);
                    current_index = node.right;
                    proof {
                        j = j + 1;
                    }
                    if current_index == row_front_index {
                        proof {
                            assert(j == ring.len()) by {
                                if j < ring.len() {
                                    assert(ring[j] != ring[0]);
                                }
                            }
                        }
                        break ;
                    }
                    proof {
                        assert(j < ring.len()) by {
                            if j >= ring.len() {
                                assert(wrap(j, ring.len() as int) == 0);
                            }
                        }
                    }
                }
                buf.append("]\n");
            }
            row += 1;
        }
        buf
    }

    /// The header and the size of the column to branch on: the first column
    /// on the root's ring, going right from the root, among those with the
    /// fewest entries.
    pub fn choose_column(&self) -> (chosen: (usize, usize))
        requires
            self@.wf(),
            self@.live.len() > 0,
        ensures
            chosen.0 >= 1,
            self@.is_first_least(chosen.0 - 1),
            chosen.1 == self@.cols[chosen.0 - 1].len(),
    {
        let ghost l = self@;
        let ghost mut q: int = 0;
        let ghost mut best: int = -1;
        let mut min_column_size = usize::MAX;
        let mut min_header_index: usize = 0;
        proof {
            assert(l.live_link(-1));
        }
        let mut current_index = self.nodes[0].right;
        while current_index != 0
            invariant
                l == self@,
                l.wf(),
                l.live.len() > 0,
                0 <= q <= l.live.len(),
                current_index == l.hat(q),
                -1 <= best < q,
                best == -1 ==> q == 0 && min_column_size == usize::MAX,
                best != -1 ==> min_header_index == l.live[best] + 1 && min_column_size
                    == l.cols[l.live[best]].len(),
                forall|i: int| 0 <= i < q ==> min_column_size <= l.cols[#[trigger] l.live[i]].len(),
                forall|i: int| 0 <= i < best ==> min_column_size < l.cols[#[trigger] l.live[i]].len(),
            decreases l.live.len() - q,
        {
            proof {
                assert(q < l.live.len());
                assert(0 <= l.live[q] < l.column_count);
                assert(l.col_ok(l.live[q]));
                assert(l.live_link(q));
                lemma_ring_fits(l, l.live[q]);
            }
            let column_size = self.nodes[current_index].column_size;
            if column_size < min_column_size {
                min_column_size = column_size;
                min_header_index = current_index;
                proof {
                    best = q;
                }
            }
            current_index = self.nodes[current_index].right;
            proof {
                q = q + 1;
            }
        }
        proof {
            assert(q == l.live.len()) by {
                if q < l.live.len() {
                    assert(0 <= l.live[q]);
                }
            }
            assert(0 <= l.live[best]);
        }
        (min_header_index, min_column_size)
    }

    /// Covers the columns of the other entries of the row of `entry`, in the
    /// order in which they are met going right from it.
    fn cover_row(&mut self, entry: usize)
        requires
            old(self)@.is_entry(entry as int),
            old(self)@.can_cover_each(old(self)@.other_columns(entry as int)),
        ensures
            final(self)@ == old(self)@.cover_each(old(self)@.other_columns(entry as int)),
            final(self)@.wf(),
    {
        let ghost l = self@;
        let ghost e = entry as int;
        let ghost fs = l.others(e);
        let ghost cs = l.other_columns(e);
        proof {
            lemma_others(l, e);
            assert(oat_link(l, e, 0));
            assert(cs.take(0) =~= Seq::empty());
        }
        let ghost mut j: int = 0;
        let mut current_right_index = self.nodes[entry].right;
        while current_right_index != entry
            invariant
                l.can_cover_each(cs),
                l.is_entry(e),
                e == entry,
                fs == l.others(e),
                cs == l.other_columns(e),
                0 <= j <= fs.len(),
                current_right_index == l.oat(e, j + 1),
                self@ == l.cover_each(cs.take(j)),
            decreases fs.len() - j,
        {
            let ghost f = current_right_index as int;
            proof {
                lemma_others(l, e);
                assert(j < fs.len());
                assert(f == fs[j]);
                lemma_can_cover_prefix(l, cs, j);
                lemma_cover_each(l, cs.take(j));
                assert(same_across(self@.nodes[f], l.nodes[f]));
                assert(cs[j] == l.col_of(fs[j]));
            }
            let column_index_to_cover = self.nodes[current_right_index].column_index;
            self.cover_column(column_index_to_cover);
            proof {
                lemma_can_cover_prefix(l, cs, j + 1);
                lemma_cover_each(l, cs.take(j + 1));
                assert(oat_link(l, e, j + 1));
                assert(same_across(self@.nodes[f], l.nodes[f]));
                j = j + 1;
            }
            current_right_index = self.nodes[current_right_index].right;
        }
        proof {
            lemma_others(l, e);
            assert(j == fs.len());
            lemma_can_cover_prefix(l, cs, j);
            lemma_cover_each(l, cs);
        }
    }

    /// Undoes the covers of the columns of the other entries of the row of
    /// `entry`, which must be the latest covers that are outstanding, going
    /// left from it.
    fn uncover_row(&mut self, entry: usize)
        requires
            old(self)@.is_entry(entry as int),
            ({
                let cs = old(self)@.other_columns(entry as int);
                let b = old(self)@.uncover_each(cs.len());
                &&& b.can_cover_each(cs)
                &&& old(self)@ == b.cover_each(cs)
            }),
        ensures
            final(self)@ == old(self)@.uncover_each(
                old(self)@.other_columns(entry as int).len(),
            ),
            final(self)@.wf(),
    {
        let ghost now = self@;
        let ghost e = entry as int;
        let ghost cs = now.other_columns(e);
        let ghost b = now.uncover_each(cs.len());
        let ghost fs = b.others(e);
        proof {
            lemma_cover_each(b, cs);
            lemma_other_columns(b, now, e);
            lemma_others(b, e);
            assert(oat_link(b, e, fs.len() as int));
            assert(same_across(now.nodes[e], b.nodes[e]));
            lemma_can_cover_prefix(b, cs, cs.len() as int);
        }
        let ghost mut j: int = fs.len() as int;
        let mut current_left_index = self.nodes[entry].left;
        while current_left_index != entry
            invariant
                b.can_cover_each(cs),
                b.is_entry(e),
                e == entry,
                fs == b.others(e),
                cs == b.other_columns(e),
                0 <= j <= fs.len(),
                current_left_index == b.oat(e, j),
                self@ == b.cover_each(cs.take(j)),
            decreases j,
        {
            let ghost f = current_left_index as int;
            proof {
                lemma_others(b, e);
                lemma_other_columns(b, b, e);
                assert(j > 0);
                assert(f == fs[j - 1]);
                lemma_can_cover_prefix(b, cs, j);
                lemma_cover_each(b, cs.take(j));
                lemma_can_cover_prefix(b, cs, j - 1);
                lemma_cover_each(b, cs.take(j - 1));
                lemma_covered(b.cover_each(cs.take(j - 1)), cs[j - 1]);
                assert(same_across(self@.nodes[f], b.nodes[f]));
                assert(cs[j - 1] == b.col_of(fs[j - 1]));
            }
            let column_index_to_cover = self.nodes[current_left_index].column_index;
            self.uncover_column(column_index_to_cover);
            proof {
                assert(oat_link(b, e, j - 1));
                assert(same_across(self@.nodes[f], b.nodes[f]));
                j = j - 1;
            }
            current_left_index = self.nodes[current_left_index].left;
        }
        proof {
            lemma_others(b, e);
            assert(j == 0);
            assert(cs.take(0) =~= Seq::empty());
        }
    }

    /// The rows of the first exact cover that the search finds, or an error
    /// if what is left of the matrix has no exact cover.  The first row is
    /// one of the column that `choose_column` names.  A failed search leaves
    /// the matrix as it was.
    pub fn solve(&mut self) -> (result: Result<Vec<usize>, ()>)
        requires
            old(self)@.wf(),
        ensures
            final(self)@.wf(),
            final(self)@.loose_ok(),
            old(self)@.same_matrix(final(self)@),
            match result {
                Ok(rows) => {
                    &&& rows@.no_duplicates()
                    &&& old(self)@.is_cover(row_set(rows@))
                    &&& old(self)@.search() == Some((as_ints(rows@), final(self)@))
                    &&& final(self)@.live.len() == 0
                    &&& old(self)@.live.len() > 0 ==> {
                        &&& rows@.len() > 0
                        &&& old(self)@.is_first_least(old(self)@.first_least())
                        &&& old(self)@.on_ring(old(self)@.first_least(), rows@[0] as int)
                    }
                },
                Err(_) => {
                    &&& old(self)@.no_cover()
                    &&& old(self)@.search() is None
                    &&& final(self)@ == old(self)@
                },
            },
    {
        let mut solution_rows = Vec::with_capacity(self.row_count);
        let found = self.search_first(&mut solution_rows);
        proof {
            lemma_wf_is_loose(self@);
        }
        if found {
            proof {
                assert(solution_rows@.skip(0) =~= solution_rows@);
            }
            Ok(solution_rows)
        } else {
            Err(())
        }
    }

    /// Searches for an exact cover of what is left of the matrix, trying the
    /// rows of the chosen column from the top down.  When it finds one, it
    /// has pushed its rows onto `solution_rows`; when there is none, the
    /// matrix and `solution_rows` are as they were.
    fn search_first(&mut self, solution_rows: &mut Vec<usize>) -> (found: bool)
        requires
            old(self)@.wf(),
        ensures
            final(self)@.wf(),
            old(self)@.same_matrix(final(self)@),
            old(solution_rows)@.len() <= final(solution_rows)@.len(),
            final(solution_rows)@.take(old(solution_rows)@.len() as int) == old(solution_rows)@,
            found ==> {
                let added = final(solution_rows)@.skip(old(solution_rows)@.len() as int);
                &&& added.no_duplicates()
                &&& old(self)@.is_cover(row_set(added))
                &&& old(self)@.search() == Some((as_ints(added), final(self)@))
                &&& final(self)@.live.len() == 0
                &&& old(self)@.live.len() > 0 ==> {
                    &&& added.len() > 0
                    &&& old(self)@.is_first_least(old(self)@.first_least())
                    &&& old(self)@.on_ring(old(self)@.first_least(), added[0] as int)
                }
            },
            !found ==> {
                &&& old(self)@.no_cover()
                &&& old(self)@.search() is None
                &&& final(self)@ == old(self)@
                &&& final(solution_rows)@ == old(solution_rows)@
            },
        decreases old(self)@.live.len(),
    {
        let ghost l = self@;
        let ghost base = solution_rows@;
        proof {
            assert(l.live_link(-1));
        }
        if self.nodes[0].right == 0 {
            proof {
                assert(l.live.len() == 0) by {
                    if l.live.len() > 0 {
                        assert(0 <= l.live[0]);
                    }
                }
                lemma_nothing_left(l);
                assert(solution_rows@.skip(base.len() as int) =~= Seq::empty());
                assert(row_set(Seq::empty()) =~= Set::empty());
                assert(as_ints(Seq::empty()) =~= Seq::empty());
                assert(solution_rows@.take(base.len() as int) =~= base);
            }
            return true;
        }
        proof {
            assert(l.live.len() > 0);
        }
        let (min_header_index, min_column_size) = self.choose_column();
        let ghost c = min_header_index - 1;
        let ghost ring = l.cols[c];
        proof {
            lemma_first_least(l, c);
        }
        if min_column_size == 0 {
            proof {
                assert forall|s: Set<int>| !#[trigger] l.is_cover(s) by {
                    if l.is_cover(s) {
                        lemma_cover_meets_column(l, c, s);
                    }
                }
                assert(solution_rows@.take(base.len() as int) =~= base);
            }
            return false;
        }
        proof {
            lemma_hidden(l, c);
        }
        let min_column_index = self.nodes[min_header_index].column_index;
        self.cover_column(min_column_index);
        let ghost l1 = self@;
        proof {
            lemma_covered(l, c);
            assert(l1.col_ok(c));
            assert(l1.col_link(c, -1));
        }
        let ghost mut k: int = 0;
        let mut current_down_index = self.nodes[min_header_index].down;
        while current_down_index != min_header_index
            invariant
                l == old(self)@,
                base == old(solution_rows)@,
                l.wf(),
                l.live.contains(c),
                0 <= c < l.column_count,
                min_header_index == c + 1,
                min_column_index == c,
                ring == l.cols[c],
                l1 == l.covered(c),
                self@ == l1,
                solution_rows@ == base,
                0 <= k <= ring.len(),
                current_down_index == l.vat(c, k),
                forall|i: int| 0 <= i < k ==> l.row_fails(l.row_of(#[trigger] ring[i])),
                l.live.len() > 0,
                l.search() == l.search_below(c, k),
            decreases ring.len() - k,
        {
            let ghost e = current_down_index as int;
            let ghost r = l.row_of(e);
            let ghost cs = l.other_columns(e);
            proof {
                lemma_covered(l, c);
                assert(l.col_ok(c));
                assert(k < ring.len());
                assert(e == ring[k]);
                lemma_row_reduces(l, c, k);
                assert(same_across(l1.nodes[e], l.nodes[e]));
            }
            solution_rows.push(self.nodes[current_down_index].row_index);
            self.cover_row(current_down_index);
            let ghost l2 = self@;
            if self.search_first(solution_rows) {
                proof {
                    let total = solution_rows@;
                    let n = base.len() as int;
                    let deeper = total.skip(n + 1);
                    let added = total.skip(base.len() as int);
                    assert(total.take(n + 1) == base.push(r as usize));
                    assert(total.take(n) =~= total.take(n + 1).take(n));
                    assert(total.take(base.len() as int) =~= base);
                    assert(total[n] == total.take(n + 1)[n]);
                    assert(added[0] == r);
                    lemma_cover_extends(l, r, l2, row_set(deeper), c);
                    assert(as_ints(added) =~= seq![r] + as_ints(deeper));
                    lemma_same_matrix(l, l2, self@);
                    assert(l.search() == Some((as_ints(added), self@)));
                    lemma_search_starts(l);
                    assert(as_ints(added)[0] == added[0]);
                    assert forall|x: int| row_set(added).contains(x) <==> row_set(deeper).insert(
                        r,
                    ).contains(x) by {
                        if row_set(added).contains(x) {
                            let i = choose|i: int|
                                0 <= i < added.len() && (#[trigger] added[i]) as int == x;
                            if i > 0 {
                                assert(deeper[i - 1] == added[i]);
                            }
                        }
                        if row_set(deeper).contains(x) {
                            let i = choose|i: int|
                                0 <= i < deeper.len() && (#[trigger] deeper[i]) as int == x;
                            assert(added[i + 1] == deeper[i]);
                        }
                    }
                    assert(row_set(added) =~= row_set(deeper).insert(r));
                    assert forall|i: int, j: int|
                        0 <= i < added.len() && 0 <= j < added.len() && i != j implies added[i]
                        != added[j] by {
                        if i > 0 {
                            assert(deeper[i - 1] == added[i]);
                        }
                        if j > 0 {
                            assert(deeper[j - 1] == added[j]);
                        }
                    }
                }
                return true;
            }
            proof {
                assert forall|s: Set<int>| #[trigger] l.is_cover(s) implies !s.contains(r) by {
                    if s.contains(r) {
                        lemma_cover_restricts(l, r, l2, s);
                    }
                }
                lemma_other_columns(l, l2, e);
            }
            solution_rows.pop();
            self.uncover_row(current_down_index);
            proof {
                assert(solution_rows@ =~= base);
                assert(l1.col_ok(c));
                assert(l1.col_link(c, k));
                k = k + 1;
            }
            current_down_index = self.nodes[current_down_index].down;
        }
        self.uncover_column(min_column_index);
        proof {
            lemma_covered(l, c);
            assert(l.col_ok(c));
            assert(k == ring.len()) by {
                if k < ring.len() {
                    assert(l.is_entry(ring[k]));
                }
            }
            assert forall|s: Set<int>| !#[trigger] l.is_cover(s) by {
                if l.is_cover(s) {
                    let i = lemma_cover_meets_column(l, c, s);
                    assert(l.row_fails(l.row_of(ring[i])));
                }
            }
            assert(solution_rows@.take(base.len() as int) =~= base);
        }
        false
    }
}

} // verus!
