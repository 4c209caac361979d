use vstd::prelude::*;

use crate::cell::Cell;
use crate::cover::{cover_post, lemma_pos_of, lemma_row_rest, pos_of};
use crate::llist::{pred, ring_ok, rot, succ};
use crate::matrix::{MatView, Matrix};

verus! {

/// Covering `c` takes exactly `c` off the header ring and keeps the sizes
/// of the tables.
pub proof fn lemma_cover_hdr(v0: MatView, w: MatView, c: int)
    requires
        cover_post(v0, w, c),
    ensures
        w.hdr.len() == v0.hdr.len() - 1,
        forall|h: usize| #[trigger] w.hdr.contains(h) <==> (v0.hdr.contains(h) && h != c),
        w.nh() == v0.nh(),
        w.nn() == v0.nn(),
        w.hdr.no_duplicates(),
{
    crate::cover::lemma_header_removed(v0, c);
    reveal(MatView::wf_hdr);
    lemma_pos_of(v0.hdr, c as usize);
    let hp = pos_of(v0.hdr, c as usize);
    assert(v0.hdr.no_duplicates());
    assert forall|h: usize| #[trigger] w.hdr.contains(h) <==> (v0.hdr.contains(h) && h != c) by {
        if w.hdr.contains(h) {
            let i = choose|i: int| 0 <= i < w.hdr.len() && w.hdr[i] == h;
            if i < hp {
                assert(v0.hdr[i] == h);
            } else {
                assert(v0.hdr[i + 1] == h);
            }
        }
        if v0.hdr.contains(h) && h != c {
            let i = choose|i: int| 0 <= i < v0.hdr.len() && v0.hdr[i] == h;
            assert(i != hp);
            if i < hp {
                assert(w.hdr[i] == h);
            } else {
                assert(w.hdr[i - 1] == h);
            }
        }
    }
    assert(w.hdr.no_duplicates()) by {
        assert forall|a: int, b: int| 0 <= a < w.hdr.len() && 0 <= b < w.hdr.len() && a != b implies w.hdr[a] != w.hdr[b] by {
            let a0 = if a < hp { a } else { a + 1 };
            let b0 = if b < hp { b } else { b + 1 };
            assert(w.hdr[a] == v0.hdr[a0]);
            assert(w.hdr[b] == v0.hdr[b0]);
        }
    }
}

/// Some node among the first `q` of `rest` lies in column `h`.
pub open spec fn in_cols(v: MatView, rest: Seq<usize>, q: int, h: int) -> bool {
    exists|p: int| 0 <= p < q && #[trigger] v.col(rest[p] as int) == h
}

/// Step `q` of a chain of covers: `sts[q + 1]` is `sts[q]` with the column
/// of `rest[q]` covered.
pub open spec fn chain_step(sts: Seq<MatView>, rest: Seq<usize>, q: int) -> bool {
    cover_post(sts[q], sts[q + 1], sts[0].col(rest[q] as int))
}

/// `sts` is the run of states of covering, in order, the columns of the
/// nodes of `rest`.
pub open spec fn cover_chain(sts: Seq<MatView>, rest: Seq<usize>) -> bool {
    &&& sts.len() == rest.len() + 1
    &&& forall|q: int| 0 <= q < rest.len() ==> #[trigger] chain_step(sts, rest, q)
    &&& forall|q: int|
        0 <= q <= rest.len() ==> {
            &&& (#[trigger] sts[q]).wf()
            &&& sts[q].rows == sts[0].rows
            &&& sts[q].row_id == sts[0].row_id
            &&& sts[q].c == sts[0].c
            &&& sts[q].row_count == sts[0].row_count
            &&& sts[q].nh() == sts[0].nh()
            &&& sts[q].nn() == sts[0].nn()
        }
}

impl Matrix {
    /// Covers, left to right along the row, the column of every node of
    /// node `i`'s row other than `i`; returns the states passed through.
    pub fn cover_row(&mut self, i: Cell) -> (sts: Ghost<Seq<MatView>>)
        requires
            old(self)@.wf(),
            old(self)@.nh() <= i.0 < old(self)@.nn(),
            forall|q: int|
                0 <= q < old(self)@.row_rest(i.0 as int).len() ==> old(self)@.hdr.contains(
                    old(self)@.c[#[trigger] old(self)@.row_rest(i.0 as int)[q] as int].0,
                ),
        ensures
            ({
                let v = old(self)@;
                let rest = v.row_rest(i.0 as int);
                &&& cover_chain(sts@, rest)
                &&& sts@[0] == v
                &&& final(self)@ == sts@[rest.len() as int]
                &&& final(self)@.wf()
                &&& final(self)@.hdr.len() == v.hdr.len() - rest.len()
                &&& forall|h: usize| #[trigger] final(self)@.hdr.contains(h) <==> (v.hdr.contains(h) && !in_cols(
                    v,
                    rest,
                    rest.len() as int,
                    h as int,
                ))
            }),
    {
        let ghost v = self@;
        let ghost ii = i.0 as int;
        let ghost rest = v.row_rest(ii);
        let ghost rr = v.rows[v.row_id[ii] as int];
        let ghost p = pos_of(rr, i.0);
        let ghost len = rr.len() as int;
        proof {
            lemma_row_rest(v, ii);
            reveal(MatView::wf_shape);
        }
        let ghost mut sts: Seq<MatView> = seq![v];
        let ghost mut q: int = 0;
        let mut j = self.x.cursor(i);
        loop
            invariant_except_break
                j.curr() == (if q == 0 { i.0 } else { rest[q - 1] }),
            invariant
                v.wf(),
                ii == i.0,
                v.nh() <= ii < v.nn(),
                rest == v.row_rest(ii),
                rr == v.rows[v.row_id[ii] as int],
                p == pos_of(rr, i.0),
                len == rr.len(),
                0 <= p < len,
                rr[p] == i.0,
                rest.len() == len - 1,
                ring_ok(v.x, rr),
                forall|qq: int|
                    0 <= qq < rest.len() ==> {
                        &&& #[trigger] rest[qq] == rr[rot(p, qq + 1, len)]
                        &&& 0 <= rot(p, qq + 1, len) < len
                        &&& v.nh() <= rest[qq] < v.nn()
                    },
                crate::llist::distinct_colours(v.c, rest),
                forall|qq: int| 0 <= qq < rest.len() ==> v.hdr.contains(v.c[#[trigger] rest[qq] as int].0),
                0 <= v.row_id[ii] < v.rows.len(),
                j.head() == i.0,
                0 <= q <= rest.len(),
                sts.len() == q + 1,
                sts[0] == v,
                self@ == sts[q],
                forall|qq: int| 0 <= qq < q ==> #[trigger] chain_step(sts, rest, qq),
                forall|qq: int|
                    0 <= qq <= q ==> {
                        &&& (#[trigger] sts[qq]).wf()
                        &&& sts[qq].rows == v.rows
                        &&& sts[qq].row_id == v.row_id
                        &&& sts[qq].c == v.c
                        &&& sts[qq].row_count == v.row_count
                        &&& sts[qq].nh() == v.nh()
                        &&& sts[qq].nn() == v.nn()
                    },
                self@.hdr.len() == v.hdr.len() - q,
                forall|h: usize| #[trigger] self@.hdr.contains(h) <==> (v.hdr.contains(h) && !in_cols(v, rest, q, h as int)),
            ensures
                q == rest.len(),
                self@ == sts[q],
                sts.len() == q + 1,
                sts[0] == v,
                forall|qq: int| 0 <= qq < q ==> #[trigger] chain_step(sts, rest, qq),
                forall|qq: int|
                    0 <= qq <= q ==> {
                        &&& (#[trigger] sts[qq]).wf()
                        &&& sts[qq].rows == v.rows
                        &&& sts[qq].row_id == v.row_id
                        &&& sts[qq].c == v.c
                        &&& sts[qq].row_count == v.row_count
                        &&& sts[qq].nh() == v.nh()
                        &&& sts[qq].nn() == v.nn()
                    },
                self@.hdr.len() == v.hdr.len() - q,
                forall|h: usize| #[trigger] self@.hdr.contains(h) <==> (v.hdr.contains(h) && !in_cols(v, rest, q, h as int)),
            decreases rest.len() - q,
        {
            let ghost cur = self@;
            proof {
                assert(cur.wf());
                reveal(MatView::wf_rows);
                assert(cur.row_ok(v.row_id[ii] as int));
                assert(ring_ok(cur.x, rr));
                let pc = if q == 0 { p } else { rot(p, q, len) };
                crate::cover::lemma_rot_step(p, q, len);
                assert(rr[pc] == j.curr());
                assert(cur.x[rr[pc] as int].next.0 == succ(rr, pc));
                assert(j.curr() < self.x.data@.len());
            }
            let nx = j.next(&self.x);
            match nx {
                None => {
                    proof {
                        crate::cover::lemma_rot_step(p, q, len);
                        let pc = if q == 0 { p } else { rot(p, q, len) };
                        assert(cur.x[rr[pc] as int].next.0 == succ(rr, pc));
                        if q + 1 < len {
                            assert(rr[rot(p, q + 1, len)] != rr[p]);
                        }
                    }
                    break;
                },
                Some(jj) => {
                    proof {
                        crate::cover::lemma_rot_step(p, q, len);
                        let pc = if q == 0 { p } else { rot(p, q, len) };
                        assert(cur.x[rr[pc] as int].next.0 == succ(rr, pc));
                        assert(q + 1 < len);
                        assert(jj.0 == rest[q]);
                        let h = v.c[rest[q] as int].0;
                        assert(v.hdr.contains(h));
                        assert(!in_cols(v, rest, q, h as int)) by {
                            if in_cols(v, rest, q, h as int) {
                                let pp = choose|pp: int| 0 <= pp < q && #[trigger] v.col(rest[pp] as int) == h as int;
                                assert(v.c[rest[pp] as int] != v.c[rest[q] as int]);
                            }
                        }
                        assert(self@.hdr.contains(h));
                        reveal(MatView::wf_shape);
                        assert(v.col(rest[q] as int) < v.nh());
                        assert(v.c[rest[q] as int].0 >= 1);
                    }
                    let col = self.c[jj.0];
                    self.cover(col);
                    proof {
                        let nxt = self@;
                        lemma_cover_hdr(cur, nxt, col.0 as int);
                        let sts0 = sts;
                        sts = sts.push(nxt);
                        assert(chain_step(sts, rest, q));
                        assert forall|qq: int| 0 <= qq < q + 1 implies #[trigger] chain_step(sts, rest, qq) by {
                            if qq < q {
                                assert(chain_step(sts0, rest, qq));
                                assert(sts[qq] == sts0[qq]);
                                assert(sts[qq + 1] == sts0[qq + 1]);
                            }
                        }
                        assert forall|h: usize| #[trigger] nxt.hdr.contains(h) <==> (v.hdr.contains(h) && !in_cols(v, rest, q + 1, h as int)) by {
                            if in_cols(v, rest, q + 1, h as int) && !in_cols(v, rest, q, h as int) {
                                let pp = choose|pp: int| 0 <= pp < q + 1 && #[trigger] v.col(rest[pp] as int) == h as int;
                                assert(pp == q);
                            }
                            if in_cols(v, rest, q, h as int) {
                                let pp = choose|pp: int| 0 <= pp < q && #[trigger] v.col(rest[pp] as int) == h as int;
                                assert(0 <= pp < q + 1 && v.col(rest[pp] as int) == h as int);
                            }
                            if h == col.0 {
                                assert(0 <= q < q + 1 && v.col(rest[q] as int) == h as int);
                            }
                        }
                        q = q + 1;
                    }
                },
            }
        }
        Ghost(sts)
    }

    /// Uncovers, right to left along the row, what `cover_row(i)` covered.
    pub fn uncover_row(&mut self, i: Cell, Ghost(sts): Ghost<Seq<MatView>>)
        requires
            cover_chain(sts, sts[0].row_rest(i.0 as int)),
            old(self)@ == sts[sts.len() - 1],
            sts[0].nh() <= i.0 < sts[0].nn(),
        ensures
            final(self)@ == sts[0],
    {
        let ghost v = sts[0];
        let ghost ii = i.0 as int;
        let ghost rest = v.row_rest(ii);
        let ghost rr = v.rows[v.row_id[ii] as int];
        let ghost p = pos_of(rr, i.0);
        let ghost len = rr.len() as int;
        proof {
            assert(sts[0].wf());
            lemma_row_rest(v, ii);
            reveal(MatView::wf_shape);
        }
        let ghost mut q: int = rest.len() as int;
        let mut j = self.x.cursor(i);
        loop
            invariant_except_break
                j.curr() == (if q == rest.len() { i.0 } else { rest[q] }),
            invariant
                cover_chain(sts, rest),
                v == sts[0],
                ii == i.0,
                v.nh() <= ii < v.nn(),
                rest == v.row_rest(ii),
                rr == v.rows[v.row_id[ii] as int],
                p == pos_of(rr, i.0),
                len == rr.len(),
                0 <= p < len,
                rr[p] == i.0,
                rest.len() == len - 1,
                forall|qq: int|
                    0 <= qq < rest.len() ==> {
                        &&& #[trigger] rest[qq] == rr[rot(p, qq + 1, len)]
                        &&& 0 <= rot(p, qq + 1, len) < len
                    },
                0 <= v.row_id[ii] < v.rows.len(),
                j.head() == i.0,
                0 <= q <= rest.len(),
                self@ == sts[q],
            ensures
                self@ == sts[0],
            decreases q,
        {
            let ghost cur = self@;
            proof {
                assert(cur.wf());
                assert(cur.rows == v.rows);
                assert(cur.row_id == v.row_id);
                reveal(MatView::wf_rows);
                assert(cur.row_ok(v.row_id[ii] as int));
                assert(ring_ok(cur.x, rr));
                let pc = if q == rest.len() { p } else { rot(p, q + 1, len) };
                crate::cover::lemma_rot_step(p, q, len);
                assert(rr[pc] == j.curr());
                assert(cur.x[rr[pc] as int].prev.0 == pred(rr, pc));
                assert(j.curr() < self.x.data@.len());
            }
            let pv = j.prev(&self.x);
            match pv {
                None => {
                    proof {
                        let pc = if q == rest.len() { p } else { rot(p, q + 1, len) };
                        assert(cur.x[rr[pc] as int].prev.0 == pred(rr, pc));
                        if q > 0 {
                            crate::cover::lemma_rot_step(p, q - 1, len);
                            crate::cover::lemma_rot_step(p, q, len);
                            assert(rr[rot(p, q, len)] != rr[p]);
                        }
                    }
                    break;
                },
                Some(jj) => {
                    proof {
                        let pc = if q == rest.len() { p } else { rot(p, q + 1, len) };
                        assert(cur.x[rr[pc] as int].prev.0 == pred(rr, pc));
                        crate::cover::lemma_rot_step(p, q, len);
                        if q == 0 {
                            assert(pred(rr, pc) == rr[p]);
                        }
                        assert(q > 0);
                        crate::cover::lemma_rot_step(p, q - 1, len);
                        assert(jj.0 == rest[q - 1]);
                        assert(chain_step(sts, rest, q - 1));
                        assert(cover_post(sts[q - 1], cur, v.col(rest[q - 1] as int)));
                        assert(sts[q - 1].c == v.c);
                        reveal(MatView::wf_shape);
                        assert(rest[q - 1] < v.nn()) by {
                            lemma_row_rest(v, ii);
                        }
                    }
                    let col = self.c[jj.0];
                    self.uncover(col);
                    proof {
                        q = q - 1;
                    }
                },
            }
        }
    }
}

/// All the columns of row `r` are active.
pub open spec fn row_active(v: MatView, r: int) -> bool {
    forall|t: int| 0 <= t < v.rows[r].len() ==> v.hdr.contains(v.c[#[trigger] v.rows[r][t] as int].0)
}

/// Every row whose columns are all active is listed in each of its columns.
pub open spec fn rows_listed(v: MatView) -> bool {
    forall|r: int, t: int|
        0 <= r < v.rows.len() && 0 <= t < v.rows[r].len() && row_active(v, r) ==> v.cols[v.col(
            #[trigger] v.rows[r][t] as int,
        )].contains(v.rows[r][t])
}

/// With nothing covered, every row is listed.
pub proof fn lemma_full_rows_listed(v: MatView)
    requires
        v.wf_links(),
        v.full(),
    ensures
        rows_listed(v),
{
    reveal(MatView::wf_rows);
    assert forall|r: int, t: int|
        0 <= r < v.rows.len() && 0 <= t < v.rows[r].len() && row_active(v, r) implies v.cols[v.col(
            #[trigger] v.rows[r][t] as int,
        )].contains(v.rows[r][t]) by {
        assert(v.row_ok(r));
        let k: int = v.rows[r][t] as int;
        assert(v.nh() <= k < v.nn());
        assert(v.cols[v.col(k)].contains(k as usize));
    }
}

/// Covering a column keeps every row that stays active listed.
pub proof fn lemma_cover_rows_listed(v0: MatView, w: MatView, c: int)
    requires
        cover_post(v0, w, c),
        rows_listed(v0),
    ensures
        rows_listed(w),
{
    lemma_cover_hdr(v0, w, c);
    crate::cover::lemma_col_members(v0, c);
    let l = v0.cols[c].len() as int;
    crate::cover::lemma_cover_upto_members(v0, c, l - 1);
    reveal(MatView::wf_shape);
    reveal(MatView::wf_rows);
    assert forall|r: int, t: int|
        0 <= r < w.rows.len() && 0 <= t < w.rows[r].len() && row_active(w, r) implies w.cols[w.col(
            #[trigger] w.rows[r][t] as int,
        )].contains(w.rows[r][t]) by {
        let j = v0.rows[r][t];
        assert(v0.row_ok(r));
        assert forall|t2: int| 0 <= t2 < v0.rows[r].len() implies v0.hdr.contains(v0.c[#[trigger] v0.rows[r][t2] as int].0) by {
            assert(w.hdr.contains(w.c[w.rows[r][t2] as int].0));
        }
        assert(row_active(v0, r));
        let h = v0.col(j as int);
        assert(w.hdr.contains(h as usize));
        assert(h != c);
        assert(0 <= h < v0.nh());
        if v0.cover_nodes(c).contains(j) {
            let i = choose|i: int| 0 <= i < v0.cover_nodes(c).len() && v0.cover_nodes(c)[i] == j;
            assert(crate::cover::from_rows(v0, c, l - 1, v0.cover_nodes(c)[i]));
            let t2 = choose|t2: int| 1 <= t2 <= l - 1 && #[trigger] v0.row_id[v0.cols[c][t2] as int] == v0.row_id[j as int];
            let k = v0.cols[c][t2];
            let ki: int = k as int;
            assert(v0.row_id[j as int] == r);
            assert(v0.nh() <= ki < v0.nn());
            assert(v0.rows[v0.row_id[ki] as int].contains(ki as usize));
            let t3 = choose|t3: int| 0 <= t3 < v0.rows[r].len() && v0.rows[r][t3] == k;
            assert(v0.col(k as int) == c);
            assert(w.hdr.contains(w.c[w.rows[r][t3] as int].0));
        }
    }
}

/// A chain of covers keeps every row that stays active listed.
pub proof fn lemma_chain_rows_listed(sts: Seq<MatView>, rest: Seq<usize>, q: int)
    requires
        cover_chain(sts, rest),
        rows_listed(sts[0]),
        0 <= q <= rest.len(),
    ensures
        rows_listed(sts[q]),
    decreases q,
{
    if q > 0 {
        lemma_chain_rows_listed(sts, rest, q - 1);
        assert(chain_step(sts, rest, q - 1));
        lemma_cover_rows_listed(sts[q - 1], sts[q], sts[0].col(rest[q - 1] as int));
    }
}

} // verus!
