use vstd::prelude::*;

use crate::cell::Cell;
use crate::llist::{
    closed, distinct_colours, lemma_block_roundtrip, lemma_closed_remove, lemma_closed_remove_all,
    lemma_closed_restore, lemma_closed_restore_all, lemma_remove_all_concat, lemma_remove_all_push,
    lemma_remove_restore, lemma_remove_values, lemma_ring_frame, lemma_ring_remove, lemma_ring_unique,
    linked_at, links_in_bounds, pred, remove_all, remove_spec,
    removals_ok, restore_all, restore_spec, ring_ok, rot, succ, Link,
};
use crate::matrix::{MatView, Matrix};

verus! {

// ------------------------------------------------------------------ model

/// Position of `x` in `s`.
pub open spec fn pos_of(s: Seq<usize>, x: usize) -> int {
    choose|p: int| 0 <= p < s.len() && s[p] == x
}

/// Number of nodes of `s` whose column is `h`.
pub open spec fn count_col(cm: Seq<Cell>, s: Seq<usize>, h: int) -> int
    decreases s.len(),
{
    if s.len() == 0 {
        0
    } else {
        count_col(cm, s.drop_last(), h) + (if cm[s.last() as int].0 == h {
            1int
        } else {
            0int
        })
    }
}

impl MatView {
    /// The other nodes of node `i`'s row, in horizontal order after `i`.
    pub open spec fn row_rest(self, i: int) -> Seq<usize> {
        let rr = self.rows[self.row_id[i] as int];
        let p = pos_of(rr, i as usize);
        Seq::new((rr.len() - 1) as nat, |q: int| rr[rot(p, q + 1, rr.len() as int)])
    }

    /// The nodes that covering `c` unlinks for the first `t` rows of `c`.
    pub open spec fn cover_upto(self, c: int, t: int) -> Seq<usize>
        decreases t,
    {
        if t <= 0 {
            Seq::empty()
        } else {
            self.cover_upto(c, t - 1) + self.row_rest(self.cols[c][t] as int)
        }
    }

    /// Every node that covering `c` unlinks, in order.
    pub open spec fn cover_nodes(self, c: int) -> Seq<usize> {
        self.cover_upto(c, self.cols[c].len() - 1)
    }

    /// The order in which uncovering relinks them: rows from the last to
    /// the first, each row left to right.
    pub open spec fn uncover_from(self, c: int, t: int) -> Seq<usize>
        decreases t,
    {
        if t <= 0 {
            Seq::empty()
        } else {
            self.row_rest(self.cols[c][t] as int) + self.uncover_from(c, t - 1)
        }
    }

    /// Column `c` is an active column of a well-formed structure.
    pub open spec fn coverable(self, c: int) -> bool {
        &&& self.wf()
        &&& 0 < c < self.nh()
        &&& self.hdr.contains(c as usize)
    }

    /// What the removals of a cover need: each row block spans distinct
    /// columns other than `c`, and each node is linked when it goes.
    pub open spec fn cover_valid(self, c: int) -> bool {
        &&& forall|t: int|
            1 <= t < self.cols[c].len() ==> #[trigger] distinct_colours(self.c, self.row_rest(self.cols[c][t] as int))
        &&& forall|t: int, q: int|
            1 <= t < self.cols[c].len() && 0 <= q < self.row_rest(self.cols[c][t] as int).len() ==> self.col(
                #[trigger] self.row_rest(self.cols[c][t] as int)[q] as int,
            ) != c && self.row_rest(self.cols[c][t] as int)[q] < self.nn()
        &&& removals_ok(self.y, self.cover_nodes(c))
        &&& closed(self.y, self.c)
        &&& linked_at(self.x, c)
    }
}

/// `w` is the result of covering column `c` of `v0`.
pub open spec fn cover_post(v0: MatView, w: MatView, c: int) -> bool {
    &&& v0.coverable(c)
    &&& v0.cover_valid(c)
    &&& w.x == remove_spec(v0.x, c)
    &&& w.y == remove_all(v0.y, v0.cover_nodes(c))
    &&& w.size.len() == v0.size.len()
    &&& forall|h: int| 0 <= h < v0.nh() ==> #[trigger] w.size[h] == v0.size[h] - count_col(v0.c, v0.cover_nodes(c), h)
    &&& w.c == v0.c
    &&& w.row_id == v0.row_id
    &&& w.row_count == v0.row_count
    &&& w.rows == v0.rows
    &&& w.hdr == v0.hdr.remove(pos_of(v0.hdr, c as usize))
    &&& w.cols.len() == v0.cols.len()
    &&& w.cols[c] == v0.cols[c]
    &&& forall|h: int, k: usize|
        0 <= h < v0.nh() && h != c ==> (#[trigger] w.cols[h].contains(k) <==> (v0.cols[h].contains(k)
            && !v0.cover_nodes(c).contains(k)))
}

/// Cover in progress: the nodes of `done` are unlinked, one at a time.
pub open spec fn cover_state(v0: MatView, c: int, w: MatView, done: Seq<usize>) -> bool {
    &&& v0.coverable(c)
    &&& w.x == remove_spec(v0.x, c)
    &&& w.hdr == v0.hdr.remove(pos_of(v0.hdr, c as usize))
    &&& w.c == v0.c
    &&& w.row_id == v0.row_id
    &&& w.row_count == v0.row_count
    &&& w.rows == v0.rows
    &&& w.y == remove_all(v0.y, done)
    &&& removals_ok(v0.y, done)
    &&& w.size.len() == v0.size.len()
    &&& forall|h: int| 0 <= h < v0.nh() ==> #[trigger] w.size[h] == v0.size[h] - count_col(v0.c, done, h)
    &&& w.cols.len() == v0.nh()
    &&& forall|h: int| 0 <= h < v0.nh() ==> #[trigger] w.col_ok(h)
    &&& forall|h: int, k: usize|
        0 <= h < v0.nh() && h != c ==> (#[trigger] w.cols[h].contains(k) <==> (v0.cols[h].contains(k)
            && !done.contains(k)))
    &&& w.cols[c] == v0.cols[c]
    &&& forall|i: int| 0 <= i < done.len() ==> v0.col(#[trigger] done[i] as int) != c && v0.nh() <= done[i] < v0.nn()
    &&& closed(w.y, v0.c)
}

// ----------------------------------------------------------------- lemmas

pub proof fn lemma_pos_of(s: Seq<usize>, x: usize)
    requires
        s.contains(x),
    ensures
        0 <= pos_of(s, x) < s.len(),
        s[pos_of(s, x)] == x,
        s.no_duplicates() ==> forall|p: int| 0 <= p < s.len() && s[p] == x ==> p == pos_of(s, x),
{
}

/// The rest of a row: the row's other nodes, each once, in distinct columns.
pub proof fn lemma_row_rest(v: MatView, i: int)
    requires
        v.wf_links(),
        v.nh() <= i < v.nn(),
    ensures
        ({
            let rr = v.rows[v.row_id[i] as int];
            let p = pos_of(rr, i as usize);
            let rest = v.row_rest(i);
            &&& 0 <= v.row_id[i] < v.rows.len()
            &&& 0 <= p < rr.len()
            &&& rr[p] == i
            &&& rest.len() == rr.len() - 1
            &&& ring_ok(v.x, rr)
            &&& forall|q: int|
                0 <= q < rest.len() ==> {
                    &&& #[trigger] rest[q] == rr[rot(p, q + 1, rr.len() as int)]
                    &&& 0 <= rot(p, q + 1, rr.len() as int) < rr.len()
                    &&& rot(p, q + 1, rr.len() as int) != p
                    &&& rest[q] != i
                    &&& v.row_id[rest[q] as int] == v.row_id[i]
                    &&& v.nh() <= rest[q] < v.nn()
                    &&& v.col(rest[q] as int) != v.col(i)
                }
            &&& distinct_colours(v.c, rest)
            &&& rest.no_duplicates()
            &&& forall|pp: int| 0 <= pp < rr.len() && pp != p ==> rest.contains(#[trigger] rr[pp])
        }),
{
    reveal(MatView::wf_shape);
    reveal(MatView::wf_rows);
    let r = v.row_id[i] as int;
    let rr = v.rows[r];
    assert(rr.contains(i as usize));
    lemma_pos_of(rr, i as usize);
    let p = pos_of(rr, i as usize);
    let rest = v.row_rest(i);
    let len = rr.len() as int;
    assert(v.row_ok(r));
    assert(rr.no_duplicates());
    assert forall|q: int| 0 <= q < rest.len() implies {
        &&& #[trigger] rest[q] == rr[rot(p, q + 1, rr.len() as int)]
        &&& 0 <= rot(p, q + 1, rr.len() as int) < rr.len()
        &&& rot(p, q + 1, rr.len() as int) != p
        &&& rest[q] != i
        &&& v.row_id[rest[q] as int] == v.row_id[i]
        &&& v.nh() <= rest[q] < v.nn()
        &&& v.col(rest[q] as int) != v.col(i)
    } by {
        let pq = rot(p, q + 1, len);
        assert(rr[pq] != rr[p]);
    }
    assert forall|a: int, b: int| 0 <= a < rest.len() && 0 <= b < rest.len() && a != b implies v.c[#[trigger] rest[a] as int]
        != v.c[#[trigger] rest[b] as int] by {
        let pa = rot(p, a + 1, len);
        let pb = rot(p, b + 1, len);
        assert(pa != pb);
    }
    assert(rest.no_duplicates()) by {
        assert forall|a: int, b: int| 0 <= a < rest.len() && 0 <= b < rest.len() && a != b implies rest[a] != rest[b] by {
            let pa = rot(p, a + 1, len);
            let pb = rot(p, b + 1, len);
            assert(pa != pb);
        }
    }
    assert forall|pp: int| 0 <= pp < rr.len() && pp != p implies rest.contains(#[trigger] rr[pp]) by {
        let q = if pp > p { pp - p - 1 } else { pp + len - p - 1 };
        assert(rot(p, q + 1, len) == pp);
        assert(rest[q] == rr[pp]);
    }
}

/// Node `k` belongs to one of the first `t` rows of column `c`.
pub open spec fn from_rows(v: MatView, c: int, t: int, k: usize) -> bool {
    exists|t2: int| 1 <= t2 <= t && #[trigger] v.row_id[v.cols[c][t2] as int] == v.row_id[k as int]
}

/// Column `c`'s vertical ring: its members after the header are
/// non-header nodes of column `c`.
pub proof fn lemma_col_members(v: MatView, c: int)
    requires
        v.wf_links(),
        0 <= c < v.nh(),
    ensures
        v.col_ok(c),
        forall|t: int|
            1 <= t < v.cols[c].len() ==> v.nh() <= #[trigger] v.cols[c][t] < v.nn() && v.col(
                v.cols[c][t] as int,
            ) == c,
        v.cols[c].no_duplicates(),
        v.cols[c][0] == c,
{
    reveal(MatView::wf_cols);
    assert(v.col_ok(c));
    assert forall|t: int| 1 <= t < v.cols[c].len() implies v.nh() <= #[trigger] v.cols[c][t] < v.nn() && v.col(
        v.cols[c][t] as int) == c by {
        assert(v.cols[c][t] < v.y.len());
        reveal(MatView::wf_shape);
    }
}

/// Different rows of column `c` are different matrix rows.
pub proof fn lemma_col_rows_distinct(v: MatView, c: int, t1: int, t2: int)
    requires
        v.wf_links(),
        0 <= c < v.nh(),
        1 <= t1 < v.cols[c].len(),
        1 <= t2 < v.cols[c].len(),
        v.row_id[v.cols[c][t1] as int] == v.row_id[v.cols[c][t2] as int],
    ensures
        t1 == t2,
{
    lemma_col_members(v, c);
    reveal(MatView::wf_rows);
    reveal(MatView::wf_shape);
    let k1 = v.cols[c][t1] as int;
    let k2 = v.cols[c][t2] as int;
    let r = v.row_id[k1] as int;
    assert(v.rows[r].contains(k1 as usize));
    assert(v.rows[v.row_id[k2] as int].contains(k2 as usize));
    let rr = v.rows[r];
    let p1 = choose|p: int| 0 <= p < rr.len() && rr[p] == k1 as usize;
    let p2 = choose|p: int| 0 <= p < rr.len() && rr[p] == k2 as usize;
    assert(v.row_ok(r));
    if p1 != p2 {
        assert(v.col(rr[p1] as int) != v.col(rr[p2] as int));
    }
}

pub proof fn lemma_cover_upto_members(v: MatView, c: int, t: int)
    requires
        v.wf_links(),
        0 <= c < v.nh(),
        0 <= t < v.cols[c].len(),
    ensures
        forall|i: int|
            0 <= i < v.cover_upto(c, t).len() ==> {
                &&& from_rows(v, c, t, #[trigger] v.cover_upto(c, t)[i])
                &&& v.col(v.cover_upto(c, t)[i] as int) != c
                &&& v.nh() <= v.cover_upto(c, t)[i] < v.nn()
            },
    decreases t,
{
    if t > 0 {
        lemma_cover_upto_members(v, c, t - 1);
        lemma_col_members(v, c);
        let i0 = v.cols[c][t] as int;
        lemma_row_rest(v, i0);
        let a = v.cover_upto(c, t - 1);
        let b = v.row_rest(i0);
        assert(v.cover_upto(c, t) == a + b);
        assert forall|i: int| 0 <= i < v.cover_upto(c, t).len() implies {
            &&& from_rows(v, c, t, #[trigger] v.cover_upto(c, t)[i])
            &&& v.col(v.cover_upto(c, t)[i] as int) != c
            &&& v.nh() <= v.cover_upto(c, t)[i] < v.nn()
        } by {
            let k = v.cover_upto(c, t)[i];
            if i < a.len() {
                assert(k == a[i]);
                assert(from_rows(v, c, t - 1, k));
                let t2 = choose|t2: int| 1 <= t2 <= t - 1 && #[trigger] v.row_id[v.cols[c][t2] as int] == v.row_id[k as int];
                assert(v.row_id[v.cols[c][t2] as int] == v.row_id[k as int]);
            } else {
                assert(k == b[i - a.len()]);
                assert(v.row_id[v.cols[c][t] as int] == v.row_id[k as int]);
            }
        }
    }
}

/// The next node that a cover unlinks is still linked in its column and
/// has not been unlinked before.
pub proof fn lemma_next_node(v: MatView, c: int, t: int, q: int)
    requires
        v.coverable(c),
        0 <= t,
        t + 1 < v.cols[c].len(),
        0 <= q < v.row_rest(v.cols[c][t + 1] as int).len(),
    ensures
        ({
            let j = v.row_rest(v.cols[c][t + 1] as int)[q];
            let done = v.cover_upto(c, t) + v.row_rest(v.cols[c][t + 1] as int).take(q);
            &&& v.nh() <= j < v.nn()
            &&& v.col(j as int) != c
            &&& 0 <= v.col(j as int) < v.nh()
            &&& v.cols[v.col(j as int)].contains(j)
            &&& !done.contains(j)
        }),
{
    lemma_col_members(v, c);
    let i0 = v.cols[c][t + 1] as int;
    lemma_row_rest(v, i0);
    let b = v.row_rest(i0);
    let j = b[q];
    let rr = v.rows[v.row_id[i0] as int];
    // the row of a node in an active column is wholly linked
    assert(v.row_live(v.row_id[v.cols[c][t + 1] as int] as int));
    let pq = rot(pos_of(rr, i0 as usize), q + 1, rr.len() as int);
    assert(rr[pq] == j);
    assert(v.cols[v.col(j as int)].contains(j));
    reveal(MatView::wf_shape);
    assert(v.col(j as int) < v.nh());
    lemma_cover_upto_members(v, c, t);
    let a = v.cover_upto(c, t);
    let done = a + b.take(q);
    if done.contains(j) {
        let i = choose|i: int| 0 <= i < done.len() && done[i] == j;
        if i < a.len() {
            assert(a[i] == j);
            assert(from_rows(v, c, t, a[i]));
            let t2 = choose|t2: int| 1 <= t2 <= t && #[trigger] v.row_id[v.cols[c][t2] as int] == v.row_id[a[i] as int];
            lemma_col_rows_distinct(v, c, t2, t + 1);
        } else {
            assert(b[i - a.len()] == j);
            assert(b.no_duplicates());
        }
    }
}

pub proof fn lemma_count_col_push(cm: Seq<Cell>, s: Seq<usize>, j: usize, h: int)
    ensures
        count_col(cm, s.push(j), h) == count_col(cm, s, h) + (if cm[j as int].0 == h {
            1int
        } else {
            0int
        }),
{
    assert(s.push(j).drop_last() =~= s);
}

/// One unlink of a cover keeps the cover's bookkeeping.
#[verifier::rlimit(60)]
pub proof fn lemma_cover_step(v0: MatView, c: int, w: MatView, done: Seq<usize>, j: usize, w2: MatView)
    requires
        cover_state(v0, c, w, done),
        v0.nh() <= j < v0.nn(),
        v0.col(j as int) != c,
        0 <= v0.col(j as int) < v0.nh(),
        v0.cols[v0.col(j as int)].contains(j),
        !done.contains(j),
        w2.x == w.x,
        w2.hdr == w.hdr,
        w2.c == w.c,
        w2.row_id == w.row_id,
        w2.row_count == w.row_count,
        w2.rows == w.rows,
        w2.y == remove_spec(w.y, j as int),
        w2.size == w.size.update(v0.col(j as int), (w.size[v0.col(j as int)] - 1) as usize),
        w2.cols == w.cols.update(
            v0.col(j as int),
            w.cols[v0.col(j as int)].remove(pos_of(w.cols[v0.col(j as int)], j)),
        ),
    ensures
        cover_state(v0, c, w2, done.push(j)),
        linked_at(w.y, j as int),
        w.size[v0.col(j as int)] >= 1,
{
    let h = v0.col(j as int);
    let ch = w.cols[h];
    assert(w.col_ok(h));
    assert(ch.contains(j));
    lemma_pos_of(ch, j);
    let p = pos_of(ch, j);
    assert(p != 0);
    lemma_ring_remove(w.y, ch, p);
    lemma_remove_all_push(v0.y, done, j);
    let nd = done.push(j);
    assert(removals_ok(v0.y, nd)) by {
        assert forall|q: int| 0 <= q < nd.len() implies #[trigger] linked_at(remove_all(v0.y, nd.take(q)), nd[q] as int) by {
            if q < done.len() {
                assert(nd.take(q) =~= done.take(q));
                assert(linked_at(remove_all(v0.y, done.take(q)), done[q] as int));
            } else {
                assert(nd.take(q) =~= done);
            }
        }
    }
    assert forall|hh: int| 0 <= hh < v0.nh() implies #[trigger] w2.size[hh] == v0.size[hh] - count_col(v0.c, nd, hh) by {
        lemma_count_col_push(v0.c, done, j, hh);
    }
    let pj = ch[p - 1] as int;
    let nj = succ(ch, p) as int;
    assert(v0.col(pj) == h) by {
        if p - 1 > 0 {
            assert(v0.col(ch[p - 1] as int) == h);
        } else {
            assert(ch[0] == h);
            reveal(MatView::wf_shape);
            assert(v0.col(h) == h);
        }
    }
    assert(v0.col(nj) == h) by {
        if p + 1 < ch.len() {
            assert(v0.col(ch[p + 1] as int) == h);
        } else {
            assert(ch[0] == h);
            reveal(MatView::wf_shape);
            assert(v0.col(h) == h);
        }
    }
    assert forall|hh: int| 0 <= hh < v0.nh() implies #[trigger] w2.col_ok(hh) by {
        assert(w.col_ok(hh));
        if hh == h {
            let nc = ch.remove(p);
            assert(w2.cols[hh] == nc);
            assert forall|i: int| 1 <= i < nc.len() implies #[trigger] nc[i] >= w2.nh() && w2.col(nc[i] as int) == hh by {
                if i < p {
                    assert(nc[i] == ch[i]);
                } else {
                    assert(nc[i] == ch[i + 1]);
                }
            }
            assert(nc[0] == ch[0]);
        } else {
            let cs = w.cols[hh];
            assert(w2.cols[hh] == cs);
            assert forall|i: int| 0 <= i < cs.len() implies w2.y[#[trigger] cs[i] as int] == w.y[cs[i] as int] by {
                assert(cs[i] < w.y.len());
                if i == 0 {
                    reveal(MatView::wf_shape);
                    assert(v0.col(hh) == hh);
                    assert(cs[0] == hh);
                } else {
                    assert(v0.col(cs[i] as int) == hh);
                }
                assert(cs[i] != pj);
                assert(cs[i] != nj);
            }
            lemma_ring_frame(w.y, w2.y, cs);
        }
    }
    assert forall|hh: int, k: usize| 0 <= hh < v0.nh() && hh != c implies (#[trigger] w2.cols[hh].contains(k) <==> (
        v0.cols[hh].contains(k) && !nd.contains(k))) by {
        assert(w.cols[hh].contains(k) <==> (v0.cols[hh].contains(k) && !done.contains(k)));
        assert(nd.contains(k) <==> (done.contains(k) || k == j)) by {
            if nd.contains(k) {
                let i = choose|i: int| 0 <= i < nd.len() && nd[i] == k;
                if i < done.len() {
                    assert(done[i] == k);
                }
            }
            if done.contains(k) {
                let i = choose|i: int| 0 <= i < done.len() && done[i] == k;
                assert(nd[i] == k);
            }
            if k == j {
                assert(nd[done.len() as int] == k);
            }
        }
        if hh == h {
            let nc = ch.remove(p);
            assert(ch.no_duplicates());
            if nc.contains(k) {
                let i = choose|i: int| 0 <= i < nc.len() && nc[i] == k;
                if i < p {
                    assert(ch[i] == k);
                } else {
                    assert(ch[i + 1] == k);
                }
                assert(k != j);
            }
            if ch.contains(k) && k != j {
                let i = choose|i: int| 0 <= i < ch.len() && ch[i] == k;
                assert(i != p);
                if i < p {
                    assert(nc[i] == k);
                } else {
                    assert(nc[i - 1] == k);
                }
            }
        } else {
            if v0.cols[hh].contains(k) && k == j {
                let i = choose|i: int| 0 <= i < v0.cols[hh].len() && v0.cols[hh][i] == k;
                assert(v0.col_ok(hh)) by {
                    reveal(MatView::wf_cols);
                }
                if i == 0 {
                    assert(v0.cols[hh][0] == hh);
                } else {
                    assert(v0.col(v0.cols[hh][i] as int) == hh);
                }
            }
        }
    }
    assert forall|i: int| 0 <= i < nd.len() implies v0.col(#[trigger] nd[i] as int) != c && v0.nh() <= nd[i] < v0.nn() by {
        if i < done.len() {
            assert(nd[i] == done[i]);
        }
    }
    reveal(MatView::wf_shape);
    assert(j < w.y.len());
    lemma_closed_remove(w.y, v0.c, j as int);
}

/// Every non-header node lies in its own row.
pub proof fn lemma_in_own_row(v: MatView, k: int)
    requires
        v.wf_links(),
        v.nh() <= k < v.nn(),
    ensures
        0 <= v.row_id[k] < v.rows.len(),
        v.rows[v.row_id[k] as int].contains(k as usize),
        v.row_ok(v.row_id[k] as int),
{
    reveal(MatView::wf_rows);
    reveal(MatView::wf_shape);
}

/// Vertical links never leave their column.
pub proof fn lemma_closed_of_wf(v: MatView)
    requires
        v.wf_links(),
    ensures
        closed(v.y, v.c),
{
    reveal(MatView::wf_cols);
    reveal(MatView::wf_shape);
    assert forall|k: int| 0 <= k < v.y.len() implies v.c[(#[trigger] v.y[k]).prev.0 as int] == v.c[k] && v.c[v.y[k].next.0 as int] == v.c[k] by {
        assert(v.col(v.y[k].prev.0 as int) == v.col(k));
    }
}

/// A row block of column `c` is part of every later prefix of the cover.
pub proof fn lemma_block_in_cover(v: MatView, c: int, t: int, t2: int, k: usize)
    requires
        1 <= t <= t2,
        v.row_rest(v.cols[c][t] as int).contains(k),
    ensures
        v.cover_upto(c, t2).contains(k),
    decreases t2,
{
    let a = v.cover_upto(c, t2 - 1);
    let b = v.row_rest(v.cols[c][t2] as int);
    assert(v.cover_upto(c, t2) == a + b);
    if t == t2 {
        let i = choose|i: int| 0 <= i < b.len() && b[i] == k;
        assert((a + b)[a.len() + i] == k);
    } else {
        lemma_block_in_cover(v, c, t, t2 - 1, k);
        let i = choose|i: int| 0 <= i < a.len() && a[i] == k;
        assert((a + b)[i] == k);
    }
}

/// Unlinking header `c` from the header ring leaves the row rings alone.
pub proof fn lemma_header_removed(v0: MatView, c: int)
    requires
        v0.coverable(c),
    ensures
        ({
            let hp = pos_of(v0.hdr, c as usize);
            let x2 = remove_spec(v0.x, c);
            &&& 1 <= hp < v0.hdr.len()
            &&& ring_ok(x2, v0.hdr.remove(hp))
            &&& linked_at(v0.x, c)
            &&& x2.len() == v0.x.len()
            &&& links_in_bounds(x2)
            &&& forall|r: int| 0 <= r < v0.rows.len() && v0.rows[r].len() > 0 ==> ring_ok(x2, #[trigger] v0.rows[r])
            &&& forall|k: int| v0.nh() <= k < v0.nn() ==> #[trigger] x2[k] == v0.x[k]
        }),
{
    reveal(MatView::wf_hdr);
    reveal(MatView::wf_shape);
    reveal(MatView::wf_rows);
    lemma_pos_of(v0.hdr, c as usize);
    let hp = pos_of(v0.hdr, c as usize);
    assert(hp != 0);
    lemma_ring_remove(v0.x, v0.hdr, hp);
    let x2 = remove_spec(v0.x, c);
    assert(v0.hdr[hp - 1] < v0.nh());
    assert(succ(v0.hdr, hp) < v0.nh()) by {
        if hp + 1 < v0.hdr.len() {
            assert(v0.hdr[hp + 1] < v0.nh());
        } else {
            assert(v0.hdr[0] < v0.nh());
        }
    }
    assert forall|k: int| v0.nh() <= k < v0.nn() implies #[trigger] x2[k] == v0.x[k] by {}
    assert forall|r: int| 0 <= r < v0.rows.len() && v0.rows[r].len() > 0 implies ring_ok(x2, #[trigger] v0.rows[r]) by {
        assert(v0.row_ok(r));
        let rr = v0.rows[r];
        assert forall|i: int| 0 <= i < rr.len() implies x2[#[trigger] rr[i] as int] == v0.x[rr[i] as int] by {
            assert(v0.nh() <= rr[i] < v0.nn());
        }
        lemma_ring_frame(v0.x, x2, rr);
    }
    lemma_remove_values(v0.x, c);
    assert forall|k: int| 0 <= k < x2.len() implies (#[trigger] x2[k]).prev.0 < x2.len() && x2[k].next.0 < x2.len() by {
        assert(v0.x[k].prev.0 < v0.x.len());
    }
}

/// The cover starts from `v0` with only the header unlinked.
pub proof fn lemma_cover_start(v0: MatView, c: int, w: MatView)
    requires
        v0.coverable(c),
        w.x == remove_spec(v0.x, c),
        w.hdr == v0.hdr.remove(pos_of(v0.hdr, c as usize)),
        w.y == v0.y,
        w.c == v0.c,
        w.row_id == v0.row_id,
        w.row_count == v0.row_count,
        w.rows == v0.rows,
        w.size == v0.size,
        w.cols == v0.cols,
    ensures
        cover_state(v0, c, w, Seq::empty()),
        closed(v0.y, v0.c),
{
    reveal(MatView::wf_cols);
    reveal(MatView::wf_shape);
    assert(remove_all(v0.y, Seq::empty()) == v0.y);
    assert forall|h: int| 0 <= h < v0.nh() implies #[trigger] w.col_ok(h) by {
        assert(v0.col_ok(h));
    }
    assert forall|k: int| 0 <= k < v0.y.len() implies v0.c[(#[trigger] v0.y[k]).prev.0 as int] == v0.c[k] && v0.c[v0.y[k].next.0 as int] == v0.c[k] by {
        assert(v0.col(v0.y[k].prev.0 as int) == v0.col(k));
    }
}

/// A finished cover leaves a well-formed structure, and is a cover.
#[verifier::rlimit(60)]
pub proof fn lemma_cover_final(v0: MatView, c: int, w: MatView)
    requires
        cover_state(v0, c, w, v0.cover_nodes(c)),
    ensures
        w.wf(),
        cover_post(v0, w, c),
{
    let done = v0.cover_nodes(c);
    let l = v0.cols[c].len() as int;
    lemma_header_removed(v0, c);
    lemma_col_members(v0, c);
    lemma_cover_upto_members(v0, c, l - 1);
    let hp = pos_of(v0.hdr, c as usize);
    // cover_valid
    assert forall|t: int| 1 <= t < l implies #[trigger] distinct_colours(v0.c, v0.row_rest(v0.cols[c][t] as int)) by {
        lemma_row_rest(v0, v0.cols[c][t] as int);
    }
    assert forall|t: int, q: int| 1 <= t < l && 0 <= q < v0.row_rest(v0.cols[c][t] as int).len() implies v0.col(
        #[trigger] v0.row_rest(v0.cols[c][t] as int)[q] as int) != c && v0.row_rest(v0.cols[c][t] as int)[q] < v0.nn() by {
        lemma_row_rest(v0, v0.cols[c][t] as int);
    }
    lemma_closed_of_wf(v0);
    assert(v0.cover_valid(c));
    // shape
    reveal(MatView::wf_shape);
    assert(forall|i: int| 0 <= i < done.len() ==> #[trigger] done[i] < v0.y.len());
    lemma_closed_remove_all(v0.y, v0.c, done);
    assert(w.wf_shape()) by {
        assert forall|k: int| 0 <= k < w.nn() implies #[trigger] w.col(k) < w.nh() && (k < w.nh() ==> w.col(k) == k) by {
            assert(v0.col(k) < v0.nh());
            if k < v0.nh() {
                assert(v0.col(k) == k);
            }
        }
        assert forall|k: int| w.nh() <= k < w.nn() implies #[trigger] w.row_id[k] < w.rows.len() by {
            assert(v0.row_id[k] < v0.rows.len());
        }
    }
    assert(w.wf_hdr()) by {
        reveal(MatView::wf_hdr);
        let nh = v0.hdr.remove(hp);
        assert(nh[0] == v0.hdr[0]);
        assert forall|i: int| 0 <= i < nh.len() implies #[trigger] nh[i] < w.nh() by {
            if i < hp {
                assert(nh[i] == v0.hdr[i]);
            } else {
                assert(nh[i] == v0.hdr[i + 1]);
            }
        }
    }
    assert(w.wf_cols()) by {
        reveal(MatView::wf_cols);
        assert forall|k: int| 0 <= k < w.nn() implies w.col(#[trigger] w.y[k].prev.0 as int) == w.col(k)
            && w.col(w.y[k].next.0 as int) == w.col(k) by {
            assert(v0.c[(w.y[k]).prev.0 as int] == v0.c[k]);
        }
    }
    assert(w.wf_rows()) by {
        reveal(MatView::wf_rows);
        assert forall|r: int| 0 <= r < w.rows.len() implies #[trigger] w.row_ok(r) by {
            assert(v0.row_ok(r));
            if v0.rows[r].len() > 0 {
                assert(ring_ok(remove_spec(v0.x, c), v0.rows[r]));
            }
        }
        assert forall|k: int| w.nh() <= k < w.nn() implies #[trigger] w.rows[w.row_id[k] as int].contains(k as usize) by {
            assert(v0.rows[v0.row_id[k] as int].contains(k as usize));
        }
    }
    assert(w.x == remove_spec(v0.x, c));
    assert(w.y == remove_all(v0.y, v0.cover_nodes(c)));
    assert(w.size.len() == v0.size.len());
    assert(forall|h: int| 0 <= h < v0.nh() ==> #[trigger] w.size[h] == v0.size[h] - count_col(v0.c, v0.cover_nodes(c), h));
    assert(w.hdr == v0.hdr.remove(pos_of(v0.hdr, c as usize)));
    assert(w.cols.len() == v0.cols.len()) by {
        reveal(MatView::wf_cols);
    }
    assert(w.cols[c] == v0.cols[c]);
    // live
    assert(w.live()) by {
        assert forall|h: int, i: int|
            w.hdr.contains(h as usize) && 0 <= h < w.nh() && 1 <= i < w.cols[h].len()
                implies #[trigger] w.row_live(w.row_id[#[trigger] w.cols[h][i] as int] as int) by {
            lemma_cover_live(v0, c, w, h, i);
        }
    }
}

/// Rows still listed in an active column after covering `c` avoided `c`
/// altogether, so the cover touched none of their nodes.
proof fn lemma_cover_live(v0: MatView, c: int, w: MatView, h: int, i: int)
    requires
        cover_state(v0, c, w, v0.cover_nodes(c)),
        w.hdr.contains(h as usize),
        0 <= h < w.nh(),
        1 <= i < w.cols[h].len(),
    ensures
        w.row_live(w.row_id[w.cols[h][i] as int] as int),
{
    let done = v0.cover_nodes(c);
    let l = v0.cols[c].len() as int;
    let hp = pos_of(v0.hdr, c as usize);
    lemma_pos_of(v0.hdr, c as usize);
    reveal(MatView::wf_hdr);
    reveal(MatView::wf_shape);
    reveal(MatView::wf_rows);
    assert(v0.hdr.no_duplicates());
    // h is active in v0 and is not c
    let ih = choose|ih: int| 0 <= ih < w.hdr.len() && w.hdr[ih] == h as usize;
    let ih0 = if ih < hp { ih } else { ih + 1 };
    assert(v0.hdr[ih0] == h as usize);
    assert(h != c);
    assert(v0.hdr.contains(h as usize));
    let k = w.cols[h][i];
    assert(w.cols[h].contains(k));
    assert(v0.cols[h].contains(k) && !done.contains(k));
    let i0 = choose|i0: int| 0 <= i0 < v0.cols[h].len() && v0.cols[h][i0] == k;
    assert(w.col_ok(h));
    assert(i0 != 0) by {
        if i0 == 0 {
            assert(v0.col_ok(h)) by {
                reveal(MatView::wf_cols);
            }
            assert(k == h);
        }
    }
    let r = v0.row_id[k as int] as int;
    assert(v0.row_live(v0.row_id[v0.cols[h][i0] as int] as int));
    let rr = v0.rows[r];
    lemma_col_members(v0, c);
    lemma_cover_upto_members(v0, c, l - 1);
    // no node of row r lies in column c
    assert forall|t: int| 0 <= t < rr.len() implies v0.col(#[trigger] rr[t] as int) != c by {
        let j = rr[t];
        if v0.col(j as int) == c {
            assert(v0.cols[c].contains(j));
            let tj = choose|tj: int| 0 <= tj < v0.cols[c].len() && v0.cols[c][tj] == j;
            assert(v0.row_ok(r));
            assert(v0.nh() <= j);
            assert(tj != 0) by {
                if tj == 0 {
                    assert(v0.cols[c][0] == c);
                }
            }
            lemma_row_rest(v0, j as int);
            assert(v0.row_id[j as int] == r);
            assert(rr.contains(k)) by {
                lemma_in_own_row(v0, k as int);
            }
            let pk = choose|pk: int| 0 <= pk < rr.len() && rr[pk] == k;
            lemma_pos_of(rr, j);
            assert(pk != pos_of(rr, j)) by {
                assert(v0.col(k as int) == h) by {
                    assert(v0.col_ok(h)) by {
                        reveal(MatView::wf_cols);
                    }
                }
            }
            assert(v0.row_rest(j as int).contains(rr[pk]));
            lemma_block_in_cover(v0, c, tj, l - 1, k);
        }
    }
    assert forall|t: int| 0 <= t < w.rows[r].len() implies {
        let j = #[trigger] w.rows[r][t];
        &&& w.hdr.contains(w.c[j as int].0)
        &&& w.cols[w.col(j as int)].contains(j)
    } by {
        let j = rr[t];
        let hj = v0.col(j as int);
        assert(v0.hdr.contains(v0.c[j as int].0));
        assert(v0.cols[hj].contains(j));
        assert(hj != c);
        let ij = choose|ij: int| 0 <= ij < v0.hdr.len() && v0.hdr[ij] == hj as usize;
        assert(ij != hp);
        let ijw = if ij < hp { ij } else { ij - 1 };
        assert(w.hdr[ijw] == hj as usize);
        assert(!done.contains(j)) by {
            if done.contains(j) {
                let di = choose|di: int| 0 <= di < done.len() && done[di] == j;
                assert(from_rows(v0, c, l - 1, done[di]));
                let t2 = choose|t2: int| 1 <= t2 <= l - 1 && #[trigger] v0.row_id[v0.cols[c][t2] as int] == v0.row_id[j as int];
                let n2 = v0.cols[c][t2];
                assert(v0.row_id[j as int] == r) by {
                    assert(v0.row_ok(r));
                }
                assert(rr.contains(n2)) by {
                    lemma_in_own_row(v0, n2 as int);
                }
                let pn = choose|pn: int| 0 <= pn < rr.len() && rr[pn] == n2;
                assert(v0.col(rr[pn] as int) != c);
            }
        }
        assert(hj >= 0 && hj < v0.nh());
        assert(w.cols[hj].contains(j));
    }
}

/// One step along a row ring, as positions.
pub proof fn lemma_rot_step(p: int, q: int, len: int)
    requires
        0 <= p < len,
        0 <= q < len,
    ensures
        rot(p, q + 1, len) == (if rot(p, q, len) + 1 < len { rot(p, q, len) + 1 } else { 0 }),
        0 <= rot(p, q, len) < len,
        rot(p, q + 1, len) == p <==> q + 1 == len,
        rot(p, 0, len) == p,
{
}

// ------------------------------------------------------------- uncovering

impl MatView {
    /// The nodes that uncovering `c` has relinked once its walk up column
    /// `c` reaches row `m`: rows `len - 1` down to `m`, each left to right.
    pub open spec fn uncover_prefix(self, c: int, m: int) -> Seq<usize>
        decreases self.cols[c].len() - m,
    {
        if m >= self.cols[c].len() || m < 1 {
            Seq::empty()
        } else {
            self.uncover_prefix(c, m + 1) + self.row_rest(self.cols[c][m] as int)
        }
    }
}

pub proof fn lemma_count_col_concat(cm: Seq<Cell>, a: Seq<usize>, b: Seq<usize>, h: int)
    ensures
        count_col(cm, a + b, h) == count_col(cm, a, h) + count_col(cm, b, h),
    decreases b.len(),
{
    if b.len() == 0 {
        assert(a + b =~= a);
    } else {
        lemma_count_col_concat(cm, a, b.drop_last(), h);
        assert((a + b).drop_last() =~= a + b.drop_last());
    }
}

pub proof fn lemma_count_col_bounds(cm: Seq<Cell>, s: Seq<usize>, q: int, h: int)
    requires
        0 <= q <= s.len(),
    ensures
        0 <= count_col(cm, s.take(q), h) <= count_col(cm, s, h),
        count_col(cm, s, h) <= s.len(),
    decreases s.len(),
{
    if q == s.len() {
        assert(s.take(q) =~= s);
        if s.len() > 0 {
            lemma_count_col_bounds(cm, s.drop_last(), 0, h);
        }
    } else {
        lemma_count_col_bounds(cm, s.drop_last(), q, h);
        assert(s.drop_last().take(q) =~= s.take(q));
    }
}

/// Removals valid over a concatenation are valid over each part.
pub proof fn lemma_removals_ok_split(d: Seq<Link>, a: Seq<usize>, b: Seq<usize>)
    requires
        removals_ok(d, a + b),
    ensures
        removals_ok(d, a),
        removals_ok(remove_all(d, a), b),
{
    assert forall|q: int| 0 <= q < a.len() implies #[trigger] linked_at(remove_all(d, a.take(q)), a[q] as int) by {
        assert((a + b).take(q) =~= a.take(q));
        assert(linked_at(remove_all(d, (a + b).take(q)), (a + b)[q] as int));
    }
    assert forall|q: int| 0 <= q < b.len() implies #[trigger] linked_at(remove_all(remove_all(d, a), b.take(q)), b[q] as int) by {
        assert((a + b).take(a.len() + q) =~= a + b.take(q));
        lemma_remove_all_concat(d, a, b.take(q));
        assert(linked_at(remove_all(d, (a + b).take(a.len() + q)), (a + b)[a.len() + q] as int));
    }
}

/// A longer cover prefix extends a shorter one.
pub proof fn lemma_cover_upto_prefix(v: MatView, c: int, t1: int, t2: int)
    requires
        0 <= t1 <= t2,
    ensures
        exists|rest: Seq<usize>| v.cover_upto(c, t2) == v.cover_upto(c, t1) + rest,
    decreases t2,
{
    if t1 == t2 {
        assert(v.cover_upto(c, t2) == v.cover_upto(c, t1) + Seq::<usize>::empty());
    } else {
        lemma_cover_upto_prefix(v, c, t1, t2 - 1);
        let rest = choose|rest: Seq<usize>| v.cover_upto(c, t2 - 1) == v.cover_upto(c, t1) + rest;
        let b = v.row_rest(v.cols[c][t2] as int);
        assert(v.cover_upto(c, t2) == v.cover_upto(c, t1) + (rest + b));
    }
}

/// Uncovering undoes covering: relinking rows `len - 1` down to `m` gives
/// back the vertical links from before rows `m..` were unlinked.
pub proof fn lemma_uncover_prefix(s0: MatView, c: int, m: int)
    requires
        s0.coverable(c),
        s0.cover_valid(c),
        1 <= m <= s0.cols[c].len(),
    ensures
        restore_all(remove_all(s0.y, s0.cover_nodes(c)), s0.uncover_prefix(c, m)) == remove_all(
            s0.y,
            s0.cover_upto(c, m - 1),
        ),
    decreases s0.cols[c].len() - m,
{
    let l = s0.cols[c].len() as int;
    if m == l {
        assert(s0.uncover_prefix(c, m) == Seq::<usize>::empty());
    } else {
        lemma_uncover_prefix(s0, c, m + 1);
        let a = s0.cover_upto(c, m - 1);
        let b = s0.row_rest(s0.cols[c][m] as int);
        assert(s0.cover_upto(c, m) == a + b);
        assert(s0.uncover_prefix(c, m) == s0.uncover_prefix(c, m + 1) + b);
        lemma_remove_all_concat(remove_all(s0.y, s0.cover_nodes(c)), s0.uncover_prefix(c, m + 1), b);
        lemma_remove_all_concat(s0.y, a, b);
        // the block of row m was unlinked validly after the rows before it
        lemma_cover_upto_prefix(s0, c, m, l - 1);
        let rest = choose|rest: Seq<usize>| s0.cover_upto(c, l - 1) == s0.cover_upto(c, m) + rest;
        lemma_removals_ok_split(s0.y, a + b, rest);
        lemma_removals_ok_split(s0.y, a, b);
        lemma_col_members(s0, c);
        lemma_cover_upto_members(s0, c, m - 1);
        reveal(MatView::wf_shape);
        assert forall|i: int| 0 <= i < a.len() implies #[trigger] a[i] < s0.y.len() by {}
        lemma_closed_remove_all(s0.y, s0.c, a);
        assert(distinct_colours(s0.c, b));
        assert forall|i: int| 0 <= i < b.len() implies #[trigger] b[i] < remove_all(s0.y, a).len() by {
            assert(s0.col(b[i] as int) != c && b[i] < s0.nn());
        }
        lemma_block_roundtrip(remove_all(s0.y, a), s0.c, b);
    }
}

/// The whole of it: `uncover` restores exactly the vertical links, and
/// header `c`'s horizontal links, that `cover` removed.
pub proof fn lemma_uncover_undoes_cover(s0: MatView, w: MatView, c: int)
    requires
        cover_post(s0, w, c),
    ensures
        restore_all(w.y, w.uncover_prefix(c, 1)) == s0.y,
        restore_spec(w.x, c) == s0.x,
        forall|h: int| 0 <= h < s0.nh() ==> #[trigger] w.size[h] + count_col(w.c, w.uncover_prefix(c, 1), h) == s0.size[h],
{
    lemma_col_members(s0, c);
    lemma_uncover_prefix(s0, c, 1);
    assert(s0.cover_upto(c, 0) == Seq::<usize>::empty());
    lemma_uncover_same_blocks(s0, w, c, 1);
    lemma_remove_restore(s0.x, c);
    assert forall|h: int| 0 <= h < s0.nh() implies #[trigger] w.size[h] + count_col(w.c, w.uncover_prefix(c, 1), h) == s0.size[h] by {
        lemma_count_uncover(s0, c, 1, h);
    }
}

/// The blocks only depend on the rows and on column `c`'s ring, which a
/// cover keeps.
pub proof fn lemma_uncover_same_blocks(s0: MatView, w: MatView, c: int, m: int)
    requires
        w.rows == s0.rows,
        w.row_id == s0.row_id,
        w.cols[c] == s0.cols[c],
    ensures
        w.uncover_prefix(c, m) == s0.uncover_prefix(c, m),
    decreases s0.cols[c].len() - m,
{
    if m < s0.cols[c].len() && m >= 1 {
        lemma_uncover_same_blocks(s0, w, c, m + 1);
    }
}

/// Relinking rows `len - 1` down to `m` counts, per column, what unlinking
/// them counted.
pub proof fn lemma_count_uncover(s0: MatView, c: int, m: int, h: int)
    requires
        1 <= m <= s0.cols[c].len(),
    ensures
        count_col(s0.c, s0.uncover_prefix(c, m), h) + count_col(s0.c, s0.cover_upto(c, m - 1), h) == count_col(
            s0.c,
            s0.cover_nodes(c),
            h,
        ),
    decreases s0.cols[c].len() - m,
{
    let l = s0.cols[c].len() as int;
    if m < l {
        lemma_count_uncover(s0, c, m + 1, h);
        let b = s0.row_rest(s0.cols[c][m] as int);
        lemma_count_col_concat(s0.c, s0.uncover_prefix(c, m + 1), b, h);
        lemma_count_col_concat(s0.c, s0.cover_upto(c, m - 1), b, h);
    }
}

/// A covered structure determines the structure it was covered from.
pub proof fn lemma_cover_post_unique(s0: MatView, s1: MatView, w: MatView, c: int)
    requires
        cover_post(s0, w, c),
        cover_post(s1, w, c),
    ensures
        s0 == s1,
{
    lemma_uncover_undoes_cover(s0, w, c);
    lemma_uncover_undoes_cover(s1, w, c);
    assert forall|h: int| 0 <= h < s0.size.len() implies #[trigger] s0.size[h] == s1.size[h] by {
        assert(w.size[h] + count_col(w.c, w.uncover_prefix(c, 1), h) == s0.size[h]);
        assert(w.size[h] + count_col(w.c, w.uncover_prefix(c, 1), h) == s1.size[h]);
    }
    assert(s0.size =~= s1.size);
    reveal(MatView::wf_hdr);
    reveal(MatView::wf_cols);
    lemma_ring_unique(s0.x, s0.hdr, s1.hdr);
    assert forall|h: int| 0 <= h < s0.cols.len() implies #[trigger] s0.cols[h] == s1.cols[h] by {
        assert(s0.col_ok(h));
        assert(s1.col_ok(h));
        lemma_ring_unique(s0.y, s0.cols[h], s1.cols[h]);
    }
    assert(s0.cols =~= s1.cols);
}

pub proof fn lemma_uncover_prefix_members(s0: MatView, c: int, m: int)
    requires
        s0.cover_valid(c),
    ensures
        forall|i: int|
            0 <= i < s0.uncover_prefix(c, m).len() ==> #[trigger] s0.uncover_prefix(c, m)[i] < s0.nn() && s0.col(
                s0.uncover_prefix(c, m)[i] as int,
            ) != c,
    decreases s0.cols[c].len() - m,
{
    if m < s0.cols[c].len() && m >= 1 {
        lemma_uncover_prefix_members(s0, c, m + 1);
        let a = s0.uncover_prefix(c, m + 1);
        let b = s0.row_rest(s0.cols[c][m] as int);
        assert forall|i: int| 0 <= i < (a + b).len() implies #[trigger] (a + b)[i] < s0.nn() && s0.col((a + b)[i] as int) != c by {
            if i >= a.len() {
                assert((a + b)[i] == b[i - a.len()]);
            }
        }
    }
}

pub proof fn lemma_uncover_prefix_extends(s0: MatView, c: int, m1: int, m2: int)
    requires
        1 <= m1 <= m2,
    ensures
        exists|rest: Seq<usize>| s0.uncover_prefix(c, m1) == #[trigger] (s0.uncover_prefix(c, m2) + rest),
    decreases m2 - m1,
{
    if m1 == m2 {
        assert(s0.uncover_prefix(c, m1) == s0.uncover_prefix(c, m2) + Seq::<usize>::empty());
    } else {
        lemma_uncover_prefix_extends(s0, c, m1 + 1, m2);
        let rest = choose|rest: Seq<usize>| s0.uncover_prefix(c, m1 + 1) == #[trigger] (s0.uncover_prefix(c, m2) + rest);
        if m1 < s0.cols[c].len() {
            let b = s0.row_rest(s0.cols[c][m1] as int);
            assert(s0.uncover_prefix(c, m1) == s0.uncover_prefix(c, m2) + (rest + b));
        } else {
            assert(s0.uncover_prefix(c, m1) == Seq::<usize>::empty());
            assert(s0.uncover_prefix(c, m1 + 1) == Seq::<usize>::empty());
            assert(s0.uncover_prefix(c, m2) == Seq::<usize>::empty()) by {
                assert(rest.len() == 0 || s0.uncover_prefix(c, m2).len() == 0);
                assert(s0.uncover_prefix(c, m2).len() == 0) by {
                    assert((s0.uncover_prefix(c, m2) + rest).len() == 0);
                }
            }
            assert(s0.uncover_prefix(c, m1) =~= s0.uncover_prefix(c, m2) + Seq::<usize>::empty());
        }
    }
}

/// What the walk up column `c` sees when `uncover` has reached row `m`.
pub proof fn lemma_uncover_step_facts(s0: MatView, v: MatView, c: int, m: int)
    requires
        cover_post(s0, v, c),
        1 <= m <= v.cols[c].len(),
    ensures
        ({
            let yc = restore_all(v.y, v.uncover_prefix(c, m));
            let l = v.cols[c].len() as int;
            let cur = if m == l { c } else { v.cols[c][m] as int };
            &&& 0 <= cur < yc.len()
            &&& yc[cur].prev.0 == v.cols[c][m - 1]
            &&& (m >= 2 ==> v.cols[c][m - 1] != c)
            &&& v.cols[c][0] == c
        }),
{
    let l = v.cols[c].len() as int;
    lemma_col_members(s0, c);
    lemma_uncover_prefix(s0, c, m);
    lemma_uncover_same_blocks(s0, v, c, m);
    let a = s0.cover_upto(c, m - 1);
    lemma_cover_upto_members(s0, c, m - 1);
    lemma_closed_of_wf(s0);
    reveal(MatView::wf_shape);
    assert forall|ix: int| 0 <= ix < a.len() implies #[trigger] a[ix] < s0.y.len() by {}
    lemma_closed_remove_all(s0.y, s0.c, a);
    let yc = remove_all(s0.y, a);
    let cs = s0.cols[c];
    assert forall|ix: int| 0 <= ix < cs.len() implies yc[#[trigger] cs[ix] as int] == s0.y[cs[ix] as int] by {
        assert(s0.col(cs[ix] as int) == c) by {
            if ix == 0 {
                assert(s0.col(c) == c);
            }
        }
        assert forall|jx: int| 0 <= jx < a.len() implies s0.c[#[trigger] a[jx] as int] != s0.c[cs[ix] as int] by {}
    }
    lemma_ring_frame(s0.y, yc, cs);
    let cur = if m == l { c } else { v.cols[c][m] as int };
    if m == l {
        assert(yc[cs[0] as int].prev.0 == pred(cs, 0));
    } else {
        assert(yc[cs[m] as int].prev.0 == pred(cs, m));
    }
    if m >= 2 {
        assert(cs[m - 1] != cs[0]);
    }
}

/// The next node that `uncover` relinks is in range, the table is in
/// bounds, and its column count has room to grow.
pub proof fn lemma_uncover_node_facts(s0: MatView, v: MatView, c: int, m: int, q: int, pre: Seq<usize>)
    requires
        cover_post(s0, v, c),
        2 <= m <= v.cols[c].len(),
        0 <= q < v.row_rest(v.cols[c][m - 1] as int).len(),
        pre == v.uncover_prefix(c, m) + v.row_rest(v.cols[c][m - 1] as int).take(q),
    ensures
        ({
            let jj = v.row_rest(v.cols[c][m - 1] as int)[q];
            let yc = restore_all(v.y, pre);
            let h = v.col(jj as int);
            &&& jj < yc.len()
            &&& yc.len() == v.y.len()
            &&& links_in_bounds(yc)
            &&& jj < v.c.len()
            &&& 0 <= h < v.size.len()
            &&& v.size[h] + count_col(v.c, pre, h) + 1 < usize::MAX
        }),
{
    let blk = v.row_rest(v.cols[c][m - 1] as int);
    let jj = blk[q];
    let h = v.col(jj as int);
    lemma_col_members(s0, c);
    lemma_uncover_same_blocks(s0, v, c, m);
    lemma_uncover_same_blocks(s0, v, c, m - 1);
    lemma_uncover_same_blocks(s0, v, c, 1);
    assert(v.uncover_prefix(c, m - 1) == v.uncover_prefix(c, m) + blk);
    lemma_uncover_prefix_members(s0, c, m - 1);
    reveal(MatView::wf_shape);
    reveal(MatView::wf_cols);
    lemma_closed_of_wf(s0);
    lemma_cover_upto_members(s0, c, v.cols[c].len() - 1);
    let cn = s0.cover_nodes(c);
    assert forall|ix: int| 0 <= ix < cn.len() implies #[trigger] cn[ix] < s0.y.len() by {}
    lemma_closed_remove_all(s0.y, s0.c, cn);
    let whole = v.uncover_prefix(c, m - 1);
    assert(whole == v.uncover_prefix(c, m) + blk);
    assert forall|ix: int| 0 <= ix < pre.len() implies #[trigger] pre[ix] < v.y.len() by {
        if ix < v.uncover_prefix(c, m).len() {
            assert(pre[ix] == whole[ix]);
        } else {
            assert(pre[ix] == blk[ix - v.uncover_prefix(c, m).len()]);
            assert(pre[ix] == whole[ix]);
        }
    }
    lemma_closed_restore_all(v.y, v.c, pre);
    assert(jj == whole[v.uncover_prefix(c, m).len() + q]);
    // counting: pre + [jj] is a prefix of the whole relink order
    let pre1 = pre.push(jj);
    assert(pre1 =~= (v.uncover_prefix(c, m) + blk).take(v.uncover_prefix(c, m).len() + q + 1));
    lemma_uncover_prefix_extends(s0, c, 1, m - 1);
    let rest = choose|rest: Seq<usize>| s0.uncover_prefix(c, 1) == #[trigger] (s0.uncover_prefix(c, m - 1) + rest);
    lemma_count_col_bounds(v.c, whole, v.uncover_prefix(c, m).len() + q + 1, h);
    lemma_count_col_push(v.c, pre, jj, h);
    lemma_count_col_concat(v.c, whole, rest, h);
    lemma_count_col_bounds(v.c, rest, 0, h);
    lemma_uncover_undoes_cover(s0, v, c);
    assert(s0.col_ok(h));
}

// -------------------------------------------------------------- operations

impl Matrix {
    /// 'Removes' column `c`, as well as all rows that contain the column.
    /// If the constraint is satisfied, no row that satisfies it can be in
    /// the solution any more.
    pub fn cover(&mut self, c: Cell)
        requires
            old(self)@.coverable(c.0 as int),
        ensures
            final(self)@.wf(),
            cover_post(old(self)@, final(self)@, c.0 as int),
    {
        let ghost v0 = self@;
        let ghost ci = c.0 as int;
        proof {
            lemma_header_removed(v0, ci);
            lemma_col_members(v0, ci);
            reveal(MatView::wf_shape);
        }
        self.x.remove(c);
        proof {
            self.hdr@ = v0.hdr.remove(pos_of(v0.hdr, c.0));
            lemma_cover_start(v0, ci, self@);
        }
        let ghost mut t: int = 0;
        let mut i = self.y.cursor(c);
        loop
            invariant_except_break
                i.curr() == v0.cols[ci][t],
            invariant
                v0.coverable(ci),
                ci == c.0,
                cover_state(v0, ci, self@, v0.cover_upto(ci, t)),
                0 <= t < v0.cols[ci].len(),
                i.head() == c.0,
            ensures
                cover_state(v0, ci, self@, v0.cover_nodes(ci)),
            decreases v0.cols[ci].len() - t,
        {
            proof {
                lemma_col_members(v0, ci);
                lemma_closed_of_wf(v0);
                lemma_cover_upto_members(v0, ci, t);
                reveal(MatView::wf_shape);
                lemma_closed_remove_all(v0.y, v0.c, v0.cover_upto(ci, t));
                assert(self@.col_ok(ci));
                assert(v0.cols[ci][t] < self.y.data@.len());
            }
            let r = i.next(&self.y);
            match r {
                None => {
                    proof {
                        assert(self.y.data@[v0.cols[ci][t] as int].next.0 == succ(v0.cols[ci], t));
                        if t + 1 < v0.cols[ci].len() {
                            assert(v0.cols[ci][t + 1] != v0.cols[ci][0]);
                        }
                        assert(t == v0.cols[ci].len() - 1);
                    }
                    break;
                },
                Some(ii) => {
                    let ghost blk = v0.row_rest(ii.0 as int);
                    let ghost rr = v0.rows[v0.row_id[ii.0 as int] as int];
                    let ghost pp = pos_of(rr, ii.0);
                    proof {
                        assert(self.y.data@[v0.cols[ci][t] as int].next.0 == succ(v0.cols[ci], t));
                        if t + 1 == v0.cols[ci].len() {
                            assert(succ(v0.cols[ci], t) == v0.cols[ci][0]);
                        }
                        assert(t + 1 < v0.cols[ci].len());
                        assert(ii.0 == v0.cols[ci][t + 1]);
                        lemma_row_rest(v0, ii.0 as int);
                        lemma_header_removed(v0, ci);
                        assert(rr.len() > 0);
                        assert(ring_ok(self.x.data@, rr));
                        assert(blk.take(0) =~= Seq::<usize>::empty());
                        assert(v0.cover_upto(ci, t) + blk.take(0) =~= v0.cover_upto(ci, t));
                    }
                    let mut j = self.x.cursor(ii);
                    let ghost mut q: int = 0;
                    loop
                        invariant_except_break
                            j.curr() == rr[rot(pp, q, rr.len() as int)],
                        invariant
                            v0.coverable(ci),
                            ci == c.0,
                            0 <= t,
                            t + 1 < v0.cols[ci].len(),
                            ii.0 == v0.cols[ci][t + 1],
                            blk == v0.row_rest(ii.0 as int),
                            rr == v0.rows[v0.row_id[ii.0 as int] as int],
                            pp == pos_of(rr, ii.0),
                            0 <= pp < rr.len(),
                            rr[pp] == ii.0,
                            blk.len() == rr.len() - 1,
                            forall|qq: int| 0 <= qq < blk.len() ==> #[trigger] blk[qq] == rr[rot(pp, qq + 1, rr.len() as int)],
                            ring_ok(self.x.data@, rr),
                            cover_state(v0, ci, self@, v0.cover_upto(ci, t) + blk.take(q)),
                            0 <= q <= blk.len(),
                            j.head() == ii.0,
                            i.head() == c.0,
                            i.curr() == v0.cols[ci][t + 1],
                        ensures
                            cover_state(v0, ci, self@, v0.cover_upto(ci, t) + blk),
                        decreases blk.len() - q,
                    {
                        proof {
                            lemma_rot_step(pp, q, rr.len() as int);
                            assert(rr[rot(pp, q, rr.len() as int)] < self.x.data@.len());
                        }
                        let r2 = j.next(&self.x);
                        match r2 {
                            None => {
                                proof {
                                    assert(self.x.data@[rr[rot(pp, q, rr.len() as int)] as int].next.0 == succ(rr, rot(pp, q, rr.len() as int)));
                                    if q + 1 < rr.len() {
                                        assert(rr[rot(pp, q + 1, rr.len() as int)] != rr[pp]);
                                    }
                                    assert(q == blk.len());
                                    assert(blk.take(q) =~= blk);
                                }
                                break;
                            },
                            Some(jj) => {
                                let ghost w = self@;
                                let ghost done = v0.cover_upto(ci, t) + blk.take(q);
                                proof {
                                    assert(self.x.data@[rr[rot(pp, q, rr.len() as int)] as int].next.0 == succ(rr, rot(pp, q, rr.len() as int)));
                                    assert(q < blk.len()) by {
                                        if q == blk.len() {
                                            assert(rot(pp, q + 1, rr.len() as int) == pp);
                                        }
                                    }
                                    assert(jj.0 == blk[q]);
                                    lemma_next_node(v0, ci, t, q);
                                    reveal(MatView::wf_shape);
                                    let h = v0.col(jj.0 as int);
                                    assert(w.col_ok(h));
                                    assert(w.cols[h].contains(jj.0));
                                    let pj = choose|pj: int| 0 <= pj < w.cols[h].len() && w.cols[h][pj] == jj.0;
                                    assert(pj != 0);
                                    assert(w.size[h] >= 1);
                                    lemma_closed_of_wf(v0);
                                    assert forall|ix: int| 0 <= ix < done.len() implies #[trigger] done[ix] < v0.y.len() by {}
                                    lemma_closed_remove_all(v0.y, v0.c, done);
                                    assert(links_in_bounds(self.y.data@));
                                }
                                self.y.remove(jj);
                                let col = self.c[jj.0];
                                self.size.set(col.0, self.size[col.0] - 1);
                                proof {
                                    let h = v0.col(jj.0 as int);
                                    self.cols@ = w.cols.update(h, w.cols[h].remove(pos_of(w.cols[h], jj.0)));
                                    lemma_cover_step(v0, ci, w, done, jj.0, self@);
                                    assert(done.push(jj.0) =~= v0.cover_upto(ci, t) + blk.take(q + 1));
                                    q = q + 1;
                                }
                            },
                        }
                    }
                    proof {
                        assert(v0.cover_upto(ci, t + 1) == v0.cover_upto(ci, t) + blk);
                        t = t + 1;
                    }
                },
            }
        }
        proof {
            lemma_cover_final(v0, ci, self@);
        }
    }

    /// Restores column `c` and its rows: the exact inverse of `cover(c)`.
    /// `i.next` would have been the first thing removed, so it needs to be
    /// the last thing restored since it links to so much before it.
    pub fn uncover(&mut self, c: Cell)
        requires
            exists|s0: MatView| #[trigger] cover_post(s0, old(self)@, c.0 as int),
        ensures
            final(self)@.wf(),
            forall|s0: MatView| #[trigger] cover_post(s0, old(self)@, c.0 as int) ==> final(self)@ == s0,
    {
        let ghost v = self@;
        let ghost ci = c.0 as int;
        let ghost s0 = choose|s0: MatView| #[trigger] cover_post(s0, v, ci);
        let ghost l = v.cols[ci].len() as int;
        proof {
            lemma_col_members(s0, ci);
            lemma_header_removed(s0, ci);
            lemma_closed_of_wf(s0);
            lemma_cover_upto_members(s0, ci, l - 1);
            reveal(MatView::wf_shape);
            assert forall|ix: int| 0 <= ix < s0.cover_nodes(ci).len() implies #[trigger] s0.cover_nodes(ci)[ix] < s0.y.len() by {}
            lemma_closed_remove_all(s0.y, s0.c, s0.cover_nodes(ci));
            // column c's ring survived the cover
            assert forall|ix: int| 0 <= ix < s0.cols[ci].len() implies v.y[#[trigger] s0.cols[ci][ix] as int] == s0.y[s0.cols[ci][ix] as int] by {
                assert(s0.col(s0.cols[ci][ix] as int) == ci) by {
                    if ix == 0 {
                        assert(s0.col(ci) == ci);
                    }
                }
                assert forall|jx: int| 0 <= jx < s0.cover_nodes(ci).len() implies s0.c[#[trigger] s0.cover_nodes(ci)[jx] as int] != s0.c[s0.cols[ci][ix] as int] by {}
            }
            lemma_ring_frame(s0.y, v.y, s0.cols[ci]);
            assert(v.uncover_prefix(ci, l) == Seq::<usize>::empty());
            assert(restore_all(v.y, Seq::<usize>::empty()) == v.y);
            assert forall|h: int| 0 <= h < v.nh() implies #[trigger] count_col(v.c, Seq::<usize>::empty(), h) == 0 by {}
        }
        let ghost mut m: int = l;
        let mut i = self.y.cursor(c);
        loop
            invariant_except_break
                i.curr() == (if m == l { ci } else { v.cols[ci][m] as int }),
            invariant
                cover_post(s0, v, ci),
                ci == c.0,
                l == v.cols[ci].len(),
                l == s0.cols[ci].len(),
                1 <= m <= l,
                i.head() == c.0,
                self.x.data@ == v.x,
                self.c@ == v.c,
                self.row_id@ == v.row_id,
                self.row_count == v.row_count,
                self.hdr@ == v.hdr,
                self.cols@ == v.cols,
                self.rows@ == v.rows,
                self.y.data@ == restore_all(v.y, v.uncover_prefix(ci, m)),
                self.size@.len() == v.size.len(),
                forall|h: int| 0 <= h < v.nh() ==> #[trigger] self.size@[h] == v.size[h] + count_col(v.c, v.uncover_prefix(ci, m), h),
            ensures
                self.y.data@ == restore_all(v.y, v.uncover_prefix(ci, 1)),
                forall|h: int| 0 <= h < v.nh() ==> #[trigger] self.size@[h] == v.size[h] + count_col(v.c, v.uncover_prefix(ci, 1), h),
                self.x.data@ == v.x,
                self.c@ == v.c,
                self.row_id@ == v.row_id,
                self.row_count == v.row_count,
                self.rows@ == v.rows,
                self.size@.len() == v.size.len(),
            decreases m,
        {
            proof {
                lemma_uncover_step_facts(s0, v, ci, m);
            }
            let r = i.prev(&self.y);
            match r {
                None => {
                    proof {
                        assert(m == 1);
                    }
                    break;
                },
                Some(ii) => {
                    let ghost blk = v.row_rest(ii.0 as int);
                    let ghost rr = v.rows[v.row_id[ii.0 as int] as int];
                    let ghost pp = pos_of(rr, ii.0);
                    let ghost y_start = self.y.data@;
                    let ghost z_start = self.size@;
                    proof {
                        assert(ii.0 == v.cols[ci][m - 1]);
                        assert(m - 1 >= 1);
                        lemma_col_members(s0, ci);
                        lemma_header_removed(s0, ci);
                        lemma_row_rest(s0, ii.0 as int);
                        assert(blk == s0.row_rest(ii.0 as int));
                        assert(rr.len() > 0);
                        assert(blk.take(0) =~= Seq::<usize>::empty());
                        assert(v.uncover_prefix(ci, m - 1) == v.uncover_prefix(ci, m) + blk);
                        lemma_remove_all_concat(v.y, v.uncover_prefix(ci, m), Seq::<usize>::empty());
                        assert(v.uncover_prefix(ci, m) + blk.take(0) =~= v.uncover_prefix(ci, m));
                    }
                    let mut j = self.x.cursor(ii);
                    let ghost mut q: int = 0;
                    loop
                        invariant_except_break
                            j.curr() == rr[rot(pp, q, rr.len() as int)],
                        invariant
                            cover_post(s0, v, ci),
                            ci == c.0,
                            l == v.cols[ci].len(),
                            l == s0.cols[ci].len(),
                            2 <= m <= l,
                            ii.0 == v.cols[ci][m - 1],
                            blk == v.row_rest(ii.0 as int),
                            blk == s0.row_rest(ii.0 as int),
                            rr == v.rows[v.row_id[ii.0 as int] as int],
                            pp == pos_of(rr, ii.0),
                            0 <= pp < rr.len(),
                            rr[pp] == ii.0,
                            blk.len() == rr.len() - 1,
                            forall|qq: int| 0 <= qq < blk.len() ==> #[trigger] blk[qq] == rr[rot(pp, qq + 1, rr.len() as int)],
                            ring_ok(self.x.data@, rr),
                            0 <= q <= blk.len(),
                            j.head() == ii.0,
                            i.head() == c.0,
                            i.curr() == v.cols[ci][m - 1],
                            self.x.data@ == v.x,
                            self.c@ == v.c,
                            self.row_id@ == v.row_id,
                            self.row_count == v.row_count,
                            self.hdr@ == v.hdr,
                            self.cols@ == v.cols,
                            self.rows@ == v.rows,
                            self.y.data@ == restore_all(v.y, v.uncover_prefix(ci, m) + blk.take(q)),
                            self.size@.len() == v.size.len(),
                            forall|h: int|
                                0 <= h < v.nh() ==> #[trigger] self.size@[h] == v.size[h] + count_col(
                                    v.c,
                                    v.uncover_prefix(ci, m) + blk.take(q),
                                    h,
                                ),
                        ensures
                            self.y.data@ == restore_all(v.y, v.uncover_prefix(ci, m) + blk),
                            forall|h: int|
                                0 <= h < v.nh() ==> #[trigger] self.size@[h] == v.size[h] + count_col(
                                    v.c,
                                    v.uncover_prefix(ci, m) + blk,
                                    h,
                                ),
                            self.x.data@ == v.x,
                            self.c@ == v.c,
                            self.row_id@ == v.row_id,
                            self.row_count == v.row_count,
                            self.rows@ == v.rows,
                            self.hdr@ == v.hdr,
                            self.cols@ == v.cols,
                            self.size@.len() == v.size.len(),
                        decreases blk.len() - q,
                    {
                        proof {
                            lemma_rot_step(pp, q, rr.len() as int);
                            assert(rr[rot(pp, q, rr.len() as int)] < self.x.data@.len());
                        }
                        let r2 = j.next(&self.x);
                        match r2 {
                            None => {
                                proof {
                                    assert(self.x.data@[rr[rot(pp, q, rr.len() as int)] as int].next.0 == succ(rr, rot(pp, q, rr.len() as int)));
                                    if q + 1 < rr.len() {
                                        assert(rr[rot(pp, q + 1, rr.len() as int)] != rr[pp]);
                                    }
                                    assert(q == blk.len());
                                    assert(blk.take(q) =~= blk);
                                }
                                break;
                            },
                            Some(jj) => {
                                let ghost pre = v.uncover_prefix(ci, m) + blk.take(q);
                                proof {
                                    assert(self.x.data@[rr[rot(pp, q, rr.len() as int)] as int].next.0 == succ(rr, rot(pp, q, rr.len() as int)));
                                    assert(q < blk.len()) by {
                                        if q == blk.len() {
                                            assert(rot(pp, q + 1, rr.len() as int) == pp);
                                        }
                                    }
                                    assert(jj.0 == blk[q]);
                                    lemma_uncover_node_facts(s0, v, ci, m, q, pre);
                                }
                                self.y.restore(jj);
                                let col = self.c[jj.0];
                                self.size.set(col.0, self.size[col.0] + 1);
                                proof {
                                    let pre2 = v.uncover_prefix(ci, m) + blk.take(q + 1);
                                    assert(pre.push(jj.0) =~= pre2);
                                    lemma_remove_all_push(v.y, pre, jj.0);
                                    assert forall|h: int| 0 <= h < v.nh() implies #[trigger] self.size@[h] == v.size[h] + count_col(v.c, pre2, h) by {
                                        lemma_count_col_push(v.c, pre, jj.0, h);
                                    }
                                    q = q + 1;
                                }
                            },
                        }
                    }
                    proof {
                        assert(v.uncover_prefix(ci, m - 1) == v.uncover_prefix(ci, m) + blk);
                        m = m - 1;
                    }
                },
            }
        }
        proof {
            lemma_uncover_undoes_cover(s0, v, ci);
            lemma_header_removed(s0, ci);
            reveal(MatView::wf_shape);
        }
        self.x.restore(c);
        proof {
            self.hdr@ = s0.hdr;
            self.cols@ = s0.cols;
            assert(self.size@ =~= s0.size);
            assert(self@ == s0);
            assert forall|s1: MatView| #[trigger] cover_post(s1, v, ci) implies self@ == s1 by {
                lemma_cover_post_unique(s0, s1, v, ci);
            }
        }
    }
}

} // verus!
