//! Exact covers of a matrix, and how covering the columns of one row
//! reduces the search for them.

use vstd::prelude::*;
use crate::links::Links;
use crate::covering::{
    lemma_cover_each, lemma_covered, lemma_covered_wf, lemma_other_columns, lemma_others,
    lemma_same_matrix, lemma_uncover_undoes_cover, same_across,
};

verus! {

impl Links {
    /// Exactly one row of `s` has a one in column `c`.
    pub open spec fn covers_once(self, s: Set<int>, c: int) -> bool {
        &&& exists|r: int| s.contains(r) && #[trigger] self.has(r, c)
        &&& forall|r1: int, r2: int|
            s.contains(r1) && s.contains(r2) && #[trigger] self.has(r1, c) && #[trigger] self.has(
                r2,
                c,
            ) ==> r1 == r2
    }

    /// The rows `s` are an exact cover of what is left of the matrix: none
    /// of them touches a covered column, and every column on the root's
    /// ring has its one in exactly one of them.
    pub open spec fn is_cover(self, s: Set<int>) -> bool {
        &&& forall|r: int| #[trigger] s.contains(r) ==> 0 <= r < self.row_count && self.active(r)
        &&& forall|c: int| self.live.contains(c) ==> #[trigger] self.covers_once(s, c)
    }

    /// What is left of the matrix has no exact cover.
    pub open spec fn no_cover(self) -> bool {
        forall|s: Set<int>| !#[trigger] self.is_cover(s)
    }

    /// No exact cover of what is left holds row `r`.
    pub open spec fn row_fails(self, r: int) -> bool {
        forall|s: Set<int>| #[trigger] self.is_cover(s) ==> !s.contains(r)
    }

    /// Column `c` is on the root's ring, no column there has fewer entries
    /// on its own ring, and every column before it there has more.
    pub open spec fn is_first_least(self, c: int) -> bool {
        &&& self.live.contains(c)
        &&& forall|q: int|
            0 <= q < self.live.len() ==> self.cols[c].len() <= self.cols[#[trigger] self.live[q]].len()
        &&& forall|q: int|
            0 <= q < self.live.index_of(c) ==> self.cols[c].len() < self.cols[#[trigger] self.live[q]].len()
    }

    /// Row `r` has an entry on the ring of column `c`.
    pub open spec fn on_ring(self, c: int, r: int) -> bool {
        exists|k: int| 0 <= k < self.cols[c].len() && self.row_of(#[trigger] self.cols[c][k]) == r
    }

    /// The column to branch on: the first on the root's ring among those
    /// with the fewest entries.
    pub open spec fn first_least(self) -> int {
        choose|c: int| self.is_first_least(c)
    }

    /// The outcome of the search for an exact cover of what is left of the
    /// matrix: the rows of the first exact cover that it finds, in the order
    /// in which it picks them, and the matrix as the search leaves it; or
    /// nothing, if there is no exact cover.  The search branches on the
    /// column that `first_least` names, tries the rows on its ring from the
    /// top down, and for each row goes on with what is left of the matrix
    /// once the columns of that row are covered.
    pub open spec fn search(self) -> Option<(Seq<int>, Links)>
        decreases self.live.len(), 1int, 0int,
    {
        if self.live.len() == 0 {
            Some((Seq::empty(), self))
        } else {
            self.search_below(self.first_least(), 0)
        }
    }

    /// The rows of the exact cover that the search finds first, in the order
    /// in which it picks them, if there is an exact cover.
    pub open spec fn first_cover(self) -> Option<Seq<int>> {
        rows_found(self.search())
    }

    /// The outcome of the search when it tries the rows of column `c` from
    /// position `k` of its ring on.
    pub open spec fn search_below(self, c: int, k: int) -> Option<(Seq<int>, Links)>
        decreases self.live.len(), 0int, self.cols[c].len() - k,
    {
        if k < 0 || k >= self.cols[c].len() {
            None
        } else {
            let e = self.cols[c][k];
            let rest = self.covered(c).cover_each(self.other_columns(e));
            let deeper = if rest.live.len() < self.live.len() {
                rest.search()
            } else {
                None
            };
            match deeper {
                Some((rows, end)) => Some((seq![self.row_of(e)] + rows, end)),
                None => self.search_below(c, k + 1),
            }
        }
    }

    /// `m` is `self` with the columns of row `r` covered.
    pub open spec fn reduced_by(self, r: int, m: Links) -> bool {
        &&& self.same_matrix(m)
        &&& forall|c: int| #[trigger] m.live.contains(c) <==> self.live.contains(c) && !self.has(r, c)
    }
}

/// The rows that a list of row indices names.
pub open spec fn row_set(rows: Seq<usize>) -> Set<int> {
    Set::new(|r: int| exists|i: int| 0 <= i < rows.len() && (#[trigger] rows[i]) as int == r)
}

/// The rows of an outcome of the search.
pub open spec fn rows_found(found: Option<(Seq<int>, Links)>) -> Option<Seq<int>> {
    match found {
        Some((rows, end)) => Some(rows),
        None => None,
    }
}

/// The row indices of a list as integers.
pub open spec fn as_ints(rows: Seq<usize>) -> Seq<int> {
    Seq::new(rows.len(), |i: int| rows[i] as int)
}

/// Only one column is the first of the smallest.
pub proof fn lemma_first_least(l: Links, c: int)
    requires
        l.live_ok(),
        l.is_first_least(c),
    ensures
        l.first_least() == c,
{
    let c2 = l.first_least();
    assert(l.is_first_least(c2));
    let p = l.live.index_of(c);
    let q = l.live.index_of(c2);
    assert(0 <= p < l.live.len() && l.live[p] == c);
    assert(0 <= q < l.live.len() && l.live[q] == c2);
    if p < q {
        assert(l.cols[c2].len() < l.cols[l.live[p]].len());
        assert(l.cols[c].len() <= l.cols[l.live[q]].len());
    } else if q < p {
        assert(l.cols[c].len() < l.cols[l.live[q]].len());
        assert(l.cols[c2].len() <= l.cols[l.live[p]].len());
    }
}

/// Every state of a matrix has its ones in the same places.
pub proof fn lemma_same_ones(l: Links, m: Links)
    requires
        l.rings_ok(),
        l.same_matrix(m),
    ensures
        forall|r: int, c: int| 0 <= r < l.row_count ==> (#[trigger] m.has(r, c) <==> l.has(r, c)),
{
    assert forall|r: int, c: int| 0 <= r < l.row_count implies (#[trigger] m.has(r, c) <==> l.has(
        r,
        c,
    )) by {
        assert(l.row_ok(r));
        if m.has(r, c) {
            let k = choose|k: int| 0 <= k < m.rows[r].len() && m.col_of(#[trigger] m.rows[r][k]) == c;
            assert(l.is_entry(l.rows[r][k]));
            assert(same_across(m.nodes[l.rows[r][k]], l.nodes[l.rows[r][k]]));
            assert(l.col_of(l.rows[r][k]) == c);
        }
        if l.has(r, c) {
            let k = choose|k: int| 0 <= k < l.rows[r].len() && l.col_of(#[trigger] l.rows[r][k]) == c;
            assert(l.is_entry(l.rows[r][k]));
            assert(same_across(m.nodes[l.rows[r][k]], l.nodes[l.rows[r][k]]));
            assert(m.col_of(m.rows[r][k]) == c);
        }
    }
}

/// A row that touches no covered column has its ones in columns on the
/// root's ring, and the other way round.
pub proof fn lemma_active(l: Links, r: int)
    ensures
        l.active(r) <==> forall|c: int| #[trigger] l.has(r, c) ==> l.live.contains(c),
{
    if l.active(r) {
        assert forall|c: int| #[trigger] l.has(r, c) implies l.live.contains(c) by {
            let k = choose|k: int| 0 <= k < l.rows[r].len() && l.col_of(#[trigger] l.rows[r][k]) == c;
            assert(l.live.contains(l.col_of(l.rows[r][k])));
        }
    }
    if forall|c: int| #[trigger] l.has(r, c) ==> l.live.contains(c) {
        assert forall|k: int| 0 <= k < l.rows[r].len() implies l.live.contains(
            l.col_of(#[trigger] l.rows[r][k]),
        ) by {
            assert(l.has(r, l.col_of(l.rows[r][k])));
        }
    }
}

/// With every column covered, the empty set of rows is an exact cover.
pub proof fn lemma_nothing_left(l: Links)
    requires
        l.live.len() == 0,
    ensures
        l.is_cover(Set::empty()),
{
}

/// A column on the root's ring with an empty ring of its own cannot be
/// covered by any row.
pub proof fn lemma_cover_meets_column(l: Links, c: int, s: Set<int>) -> (i: int)
    requires
        l.base_wf(),
        l.live.contains(c),
        l.is_cover(s),
    ensures
        0 <= i < l.cols[c].len(),
        s.contains(l.row_of(l.cols[c][i])),
{
    assert(l.covers_once(s, c));
    let r = choose|r: int| s.contains(r) && #[trigger] l.has(r, c);
    assert(l.active(r));
    let k = choose|k: int| 0 <= k < l.rows[r].len() && l.col_of(#[trigger] l.rows[r][k]) == c;
    let x = l.rows[r][k];
    assert(l.row_ok(r));
    assert(l.is_entry(x));
    assert(l.linked(x) <==> l.active(l.row_of(x)));
    let i = choose|i: int| 0 <= i < l.cols[c].len() && l.cols[c][i] == x;
    i
}

/// An exact cover of the matrix reduced by row `r`, together with `r`, is
/// an exact cover of the matrix.
pub proof fn lemma_cover_extends(l: Links, r: int, m: Links, s: Set<int>, c0: int)
    requires
        l.rings_ok(),
        l.reduced_by(r, m),
        0 <= r < l.row_count,
        l.active(r),
        l.has(r, c0),
        m.is_cover(s),
    ensures
        !s.contains(r),
        l.is_cover(s.insert(r)),
{
    lemma_same_ones(l, m);
    lemma_active(l, r);
    lemma_active(m, r);
    let t = s.insert(r);
    assert(!s.contains(r)) by {
        if s.contains(r) {
            assert(m.active(r));
            assert(m.has(r, c0));
            assert(m.live.contains(c0));
        }
    }
    assert forall|r1: int| #[trigger] t.contains(r1) implies 0 <= r1 < l.row_count && l.active(
        r1,
    ) by {
        if r1 != r {
            assert(m.active(r1));
            lemma_active(l, r1);
            lemma_active(m, r1);
            assert forall|c: int| #[trigger] l.has(r1, c) implies l.live.contains(c) by {
                assert(m.has(r1, c));
                assert(m.live.contains(c));
            }
        }
    }
    assert forall|c: int| l.live.contains(c) implies #[trigger] l.covers_once(t, c) by {
        if l.has(r, c) {
            assert(t.contains(r));
            assert forall|r1: int, r2: int|
                t.contains(r1) && t.contains(r2) && #[trigger] l.has(r1, c) && #[trigger] l.has(
                    r2,
                    c,
                ) implies r1 == r2 by {
                if r1 != r {
                    assert(m.active(r1));
                    lemma_active(m, r1);
                    assert(m.has(r1, c));
                    assert(m.live.contains(c));
                }
                if r2 != r {
                    assert(m.active(r2));
                    lemma_active(m, r2);
                    assert(m.has(r2, c));
                    assert(m.live.contains(c));
                }
            }
        } else {
            assert(m.live.contains(c));
            assert(m.covers_once(s, c));
            let r0 = choose|r0: int| s.contains(r0) && #[trigger] m.has(r0, c);
            assert(m.active(r0));
            assert(t.contains(r0) && l.has(r0, c));
            assert forall|r1: int, r2: int|
                t.contains(r1) && t.contains(r2) && #[trigger] l.has(r1, c) && #[trigger] l.has(
                    r2,
                    c,
                ) implies r1 == r2 by {
                assert(s.contains(r1) && s.contains(r2));
                assert(m.active(r1) && m.active(r2));
                assert(m.has(r1, c) && m.has(r2, c));
            }
        }
    }
}

/// An exact cover of the matrix that holds row `r`, without `r`, is an
/// exact cover of the matrix reduced by `r`.
pub proof fn lemma_cover_restricts(l: Links, r: int, m: Links, s: Set<int>)
    requires
        l.rings_ok(),
        l.reduced_by(r, m),
        l.is_cover(s),
        s.contains(r),
    ensures
        m.is_cover(s.remove(r)),
{
    lemma_same_ones(l, m);
    let t = s.remove(r);
    assert(l.active(r));
    assert forall|r1: int| #[trigger] t.contains(r1) implies 0 <= r1 < m.row_count && m.active(
        r1,
    ) by {
        assert(s.contains(r1));
        assert(l.active(r1));
        lemma_active(l, r1);
        lemma_active(m, r1);
        assert forall|c: int| #[trigger] m.has(r1, c) implies m.live.contains(c) by {
            assert(l.has(r1, c));
            assert(l.live.contains(c));
            if l.has(r, c) {
                assert(l.covers_once(s, c));
            }
        }
    }
    assert forall|c: int| m.live.contains(c) implies #[trigger] m.covers_once(t, c) by {
        assert(l.live.contains(c) && !l.has(r, c));
        assert(l.covers_once(s, c));
        let r0 = choose|r0: int| s.contains(r0) && #[trigger] l.has(r0, c);
        assert(l.active(r0));
        assert(t.contains(r0) && m.has(r0, c));
        assert forall|r1: int, r2: int|
            t.contains(r1) && t.contains(r2) && #[trigger] m.has(r1, c) && #[trigger] m.has(
                r2,
                c,
            ) implies r1 == r2 by {
            assert(l.active(r1) && l.active(r2));
            assert(l.has(r1, c) && l.has(r2, c));
        }
    }
}

/// The columns in which the row of entry `e` has its ones are the column
/// of `e` and those of the other entries of its row.
pub proof fn lemma_row_columns(l: Links, e: int)
    requires
        l.rings_ok(),
        l.is_entry(e),
    ensures
        forall|c: int| #[trigger]
            l.has(l.row_of(e), c) <==> c == l.col_of(e) || exists|j: int|
                0 <= j < l.others(e).len() && l.col_of(#[trigger] l.others(e)[j]) == c,
{
    let r = l.row_of(e);
    let fs = l.others(e);
    lemma_others(l, e);
    assert(l.row_ok(r));
    assert forall|c: int| #[trigger]
        l.has(r, c) <==> c == l.col_of(e) || exists|j: int|
            0 <= j < fs.len() && l.col_of(#[trigger] fs[j]) == c by {
        if l.has(r, c) {
            let k = choose|k: int| 0 <= k < l.rows[r].len() && l.col_of(#[trigger] l.rows[r][k]) == c;
            let x = l.rows[r][k];
            assert(l.is_entry(x));
            if x != e {
                assert(fs.contains(x));
                let j = choose|j: int| 0 <= j < fs.len() && fs[j] == x;
                assert(l.col_of(fs[j]) == c);
            }
        }
        if c == l.col_of(e) {
            assert(l.rows[l.row_of(e)].contains(e));
            let k = choose|k: int| 0 <= k < l.rows[r].len() && l.rows[r][k] == e;
            assert(l.col_of(l.rows[r][k]) == c);
        }
        if exists|j: int| 0 <= j < fs.len() && l.col_of(#[trigger] fs[j]) == c {
            let j = choose|j: int| 0 <= j < fs.len() && l.col_of(#[trigger] fs[j]) == c;
            let x = fs[j];
            assert(l.rows[l.row_of(x)].contains(x));
            let k = choose|k: int| 0 <= k < l.rows[r].len() && l.rows[r][k] == x;
            assert(l.col_of(l.rows[r][k]) == c);
        }
    }
}

/// A prefix of columns that can be covered can be covered, and does not
/// hold the column that comes after it.
pub proof fn lemma_can_cover_prefix(l: Links, cs: Seq<int>, j: int)
    requires
        l.can_cover_each(cs),
        0 <= j <= cs.len(),
    ensures
        l.can_cover_each(cs.take(j)),
        j < cs.len() ==> !cs.take(j).contains(cs[j]) && l.live.contains(cs[j]),
        j < cs.len() ==> cs.take(j + 1).drop_last() == cs.take(j) && cs.take(j + 1).last() == cs[j],
        j == cs.len() ==> cs.take(j) == cs,
{
    let p = cs.take(j);
    assert forall|i: int| 0 <= i < p.len() implies l.live.contains(#[trigger] p[i]) by {
        assert(p[i] == cs[i]);
    }
    if j < cs.len() {
        if p.contains(cs[j]) {
            let i = choose|i: int| 0 <= i < p.len() && p[i] == cs[j];
            assert(cs[i] == cs[j]);
        }
        assert(cs.take(j + 1).drop_last() =~= cs.take(j));
    } else {
        assert(p =~= cs);
    }
}

/// After the column of a linked entry `e` of a column on the root's ring
/// was covered, the columns of the other entries of its row can be covered,
/// and that reduces the matrix by the row of `e`.
pub proof fn lemma_row_reduces(l: Links, c: int, k: int)
    requires
        l.wf(),
        l.live.contains(c),
        0 <= k < l.cols[c].len(),
    ensures
        ({
            let e = l.cols[c][k];
            let l1 = l.covered(c);
            let cs = l.other_columns(e);
            &&& l.is_entry(e)
            &&& l1.is_entry(e)
            &&& l.col_of(e) == c
            &&& 0 <= l.row_of(e) < l.row_count
            &&& l.active(l.row_of(e))
            &&& l.has(l.row_of(e), c)
            &&& l1.other_columns(e) == cs
            &&& l1.can_cover_each(cs)
            &&& l.reduced_by(l.row_of(e), l1.cover_each(cs))
            &&& l1.cover_each(cs).wf()
            &&& l1.cover_each(cs).live.len() < l.live.len()
            &&& l1.cover_each(cs).uncover_each(cs.len()) == l1
            &&& l1.same_matrix(l1.cover_each(cs))
        }),
{
    let e = l.cols[c][k];
    let r = l.row_of(e);
    let l1 = l.covered(c);
    let fs = l.others(e);
    let cs = l.other_columns(e);
    lemma_covered(l, c);
    lemma_covered_wf(l, c);
    assert(l.col_ok(c));
    assert(l.is_entry(e));
    assert(l.linked(e));
    assert(l.active(r));
    lemma_others(l, e);
    lemma_other_columns(l, l1, e);
    lemma_row_columns(l, e);
    lemma_active(l, r);
    assert forall|i: int| 0 <= i < cs.len() implies l1.live.contains(#[trigger] cs[i]) by {
        assert(cs[i] == l.col_of(fs[i]));
        assert(l.has(r, cs[i]));
    }
    lemma_cover_each(l1, cs);
    lemma_uncover_undoes_cover(l1, cs);
    let l2 = l1.cover_each(cs);
    lemma_same_matrix(l, l1, l2);
    assert forall|x: int| #[trigger] l2.live.contains(x) <==> l.live.contains(x) && !l.has(r, x) by {
        assert(l2.live.contains(x) <==> l1.live.contains(x) && !cs.contains(x));
        assert(l1.live.contains(x) <==> l.live.contains(x) && x != c);
        if cs.contains(x) {
            let i = choose|i: int| 0 <= i < cs.len() && cs[i] == x;
            assert(l.col_of(fs[i]) == x);
        }
        if l.has(r, x) && x != c {
            let j = choose|j: int| 0 <= j < fs.len() && l.col_of(#[trigger] fs[j]) == x;
            assert(cs[j] == x);
        }
    }
}

/// Among the first `n` columns on the root's ring, the position of the
/// first of those with the fewest entries.
proof fn lemma_least_among(l: Links, n: int) -> (p: int)
    requires
        1 <= n <= l.live.len(),
    ensures
        0 <= p < n,
        forall|q: int| 0 <= q < n ==> l.cols[l.live[p]].len() <= l.cols[#[trigger] l.live[q]].len(),
        forall|q: int| 0 <= q < p ==> l.cols[l.live[p]].len() < l.cols[#[trigger] l.live[q]].len(),
    decreases n,
{
    if n == 1 {
        0
    } else {
        let p = lemma_least_among(l, n - 1);
        if l.cols[l.live[n - 1]].len() < l.cols[l.live[p]].len() {
            n - 1
        } else {
            p
        }
    }
}

/// While a column is on the root's ring, there is a column to branch on.
pub proof fn lemma_first_least_exists(l: Links)
    requires
        l.live_ok(),
        l.live.len() > 0,
    ensures
        l.is_first_least(l.first_least()),
{
    let p = lemma_least_among(l, l.live.len() as int);
    let c = l.live[p];
    let q = l.live.index_of(c);
    assert(0 <= q < l.live.len() && l.live[q] == c);
    assert(q == p);
    assert(l.is_first_least(c));
}

/// What the search finds is an exact cover, and where it finds nothing,
/// there is none.
pub open spec fn search_is_right(l: Links, found: Option<(Seq<int>, Links)>) -> bool {
    match found {
        Some((rows, end)) => {
            &&& rows.no_duplicates()
            &&& l.is_cover(rows.to_set())
            &&& end.wf()
            &&& l.same_matrix(end)
            &&& end.live.len() == 0
        },
        None => l.no_cover(),
    }
}

/// The search tries every row of the column that it branches on.
proof fn lemma_search_below(l: Links, c: int, k: int)
    requires
        l.wf(),
        l.live.contains(c),
        0 <= k <= l.cols[c].len(),
        forall|i: int| 0 <= i < k ==> l.row_fails(l.row_of(#[trigger] l.cols[c][i])),
    ensures
        search_is_right(l, l.search_below(c, k)),
    decreases l.live.len(), 0int, l.cols[c].len() - k,
{
    let ring = l.cols[c];
    if k >= ring.len() {
        assert forall|s: Set<int>| !#[trigger] l.is_cover(s) by {
            if l.is_cover(s) {
                let i = lemma_cover_meets_column(l, c, s);
                assert(l.row_fails(l.row_of(ring[i])));
            }
        }
    } else {
        let e = ring[k];
        let r = l.row_of(e);
        let rest = l.covered(c).cover_each(l.other_columns(e));
        lemma_row_reduces(l, c, k);
        lemma_search(rest);
        match rest.search() {
            Some((rows, end)) => {
                let all = seq![r] + rows;
                lemma_cover_extends(l, r, rest, rows.to_set(), c);
                assert(all.to_set() =~= rows.to_set().insert(r)) by {
                    assert forall|x: int| all.to_set().contains(x) implies rows.to_set().insert(
                        r,
                    ).contains(x) by {
                        let i = choose|i: int| 0 <= i < all.len() && all[i] == x;
                        if i > 0 {
                            assert(rows[i - 1] == x);
                        }
                    }
                    assert forall|x: int| rows.to_set().insert(r).contains(x) implies all.to_set().contains(
                        x,
                    ) by {
                        if x == r {
                            assert(all[0] == x);
                        } else {
                            let i = choose|i: int| 0 <= i < rows.len() && rows[i] == x;
                            assert(all[i + 1] == x);
                        }
                    }
                }
                assert forall|i: int, j: int|
                    0 <= i < all.len() && 0 <= j < all.len() && i != j implies all[i] != all[j] by {
                    if i > 0 {
                        assert(rows[i - 1] == all[i]);
                    }
                    if j > 0 {
                        assert(rows[j - 1] == all[j]);
                    }
                }
                lemma_same_matrix(l, rest, end);
            },
            None => {
                assert forall|s: Set<int>| #[trigger] l.is_cover(s) implies !s.contains(r) by {
                    if s.contains(r) {
                        lemma_cover_restricts(l, r, rest, s);
                    }
                }
                lemma_search_below(l, c, k + 1);
            },
        }
    }
}

/// The search is sound and complete: it finds an exact cover of what is
/// left of the matrix whenever there is one, and what it finds is one.
pub proof fn lemma_search(l: Links)
    requires
        l.wf(),
    ensures
        search_is_right(l, l.search()),
    decreases l.live.len(), 1int, 0int,
{
    if l.live.len() == 0 {
        lemma_nothing_left(l);
        assert(Seq::<int>::empty().to_set() =~= Set::empty());
    } else {
        lemma_first_least_exists(l);
        lemma_search_below(l, l.first_least(), 0);
    }
}

/// The first row that the search picks when it tries the rows of a column
/// lies on the ring of that column.
proof fn lemma_search_below_starts(l: Links, c: int, k: int)
    requires
        0 <= k,
        l.search_below(c, k) is Some,
    ensures
        rows_found(l.search_below(c, k))->0.len() > 0,
        l.on_ring(c, rows_found(l.search_below(c, k))->0[0]),
    decreases l.cols[c].len() - k,
{
    let e = l.cols[c][k];
    let rest = l.covered(c).cover_each(l.other_columns(e));
    let deeper = if rest.live.len() < l.live.len() {
        rest.search()
    } else {
        None
    };
    match deeper {
        Some((rows, end)) => {
            assert((seq![l.row_of(e)] + rows)[0] == l.row_of(e));
            assert(l.row_of(l.cols[c][k]) == l.row_of(e));
        },
        None => {
            lemma_search_below_starts(l, c, k + 1);
        },
    }
}

/// While a column is on the root's ring, the first row of the exact cover
/// that the search finds is a row of the column that `first_least` names:
/// the first column on the root's ring among those with the fewest
/// entries, never a larger or a later one.
pub proof fn lemma_search_starts(l: Links)
    requires
        l.live_ok(),
        l.live.len() > 0,
        l.first_cover() is Some,
    ensures
        l.is_first_least(l.first_least()),
        l.first_cover()->0.len() > 0,
        l.on_ring(l.first_least(), l.first_cover()->0[0]),
{
    lemma_first_least_exists(l);
    lemma_search_below_starts(l, l.first_least(), 0);
}

} // verus!
