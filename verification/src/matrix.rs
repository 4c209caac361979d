use vstd::prelude::*;

use crate::cell::Cell;
use crate::llist::{
    insert_spec, lemma_ring_frame, lemma_ring_insert, lemma_ring_remove, lemma_ring_restore, lemma_ring_unique,
    lemma_remove_restore, lemma_remove_values, lemma_restore_values, linked_at, links_in_bounds, nx, pred,
    pv, remove_spec, restore_spec, ring_ok, rot, succ, Cursor, LList, Link,
};

verus! {

/// Exact-cover matrix as dancing links: every node sits in one horizontal
/// ring (`x`, a matrix row, or the header ring) and one vertical ring
/// (`y`, a matrix column headed by its column header).
pub struct Matrix {
    /// Links across horizontal direction (lookup table)
    pub x: LList,
    /// Links across vertical direction
    pub y: LList,
    /// Lookup table, maps each node to its column header
    pub c: Vec<Cell>,
    /// Maps each node to the matrix row it belongs to
    pub row_id: Vec<usize>,
    pub row_count: usize,
    /// Number of nodes in each column's vertical list
    pub size: Vec<usize>,
    /// The headers linked into the header ring, in order from the sentinel.
    pub hdr: Ghost<Seq<usize>>,
    /// For each header `h`, the nodes linked into `h`'s vertical ring, from `h`.
    pub cols: Ghost<Seq<Seq<usize>>>,
    /// For each matrix row, its nodes in horizontal order.
    pub rows: Ghost<Seq<Seq<usize>>>,
}

/// Root header node, sentinel
pub const H: usize = 0;

/// Everything a `Matrix` holds, as mathematical sequences.
pub struct MatView {
    pub x: Seq<Link>,
    pub y: Seq<Link>,
    pub c: Seq<Cell>,
    pub row_id: Seq<usize>,
    pub row_count: usize,
    pub size: Seq<usize>,
    pub hdr: Seq<usize>,
    pub cols: Seq<Seq<usize>>,
    pub rows: Seq<Seq<usize>>,
}

impl View for Matrix {
    type V = MatView;

    open spec fn view(&self) -> MatView {
        MatView {
            x: self.x.data@,
            y: self.y.data@,
            c: self.c@,
            row_id: self.row_id@,
            row_count: self.row_count,
            size: self.size@,
            hdr: self.hdr@,
            cols: self.cols@,
            rows: self.rows@,
        }
    }
}

impl MatView {
    /// Number of nodes.
    pub open spec fn nn(self) -> int {
        self.x.len() as int
    }

    /// Number of headers (the sentinel and one per column).
    pub open spec fn nh(self) -> int {
        self.size.len() as int
    }

    /// Column header of node `k`.
    pub open spec fn col(self, k: int) -> int {
        self.c[k].0 as int
    }

    /// The vertical ring of header `h` is well formed and counted by `size`.
    pub open spec fn col_ok(self, h: int) -> bool {
        &&& ring_ok(self.y, self.cols[h])
        &&& self.cols[h][0] == h
        &&& forall|i: int|
            1 <= i < self.cols[h].len() ==> #[trigger] self.cols[h][i] >= self.nh() && self.col(
                self.cols[h][i] as int,
            ) == h
        &&& self.size[h] == self.cols[h].len() - 1
        &&& self.cols[h].len() <= self.nn()
    }

    /// Row `r` is a horizontal ring of non-header nodes, one per column at most.
    pub open spec fn row_ok(self, r: int) -> bool {
        &&& self.rows[r].len() > 0 ==> ring_ok(self.x, self.rows[r])
        &&& forall|i: int|
            0 <= i < self.rows[r].len() ==> {
                &&& self.nh() <= #[trigger] self.rows[r][i] < self.nn()
                &&& self.row_id[self.rows[r][i] as int] == r
            }
        &&& forall|i: int, j: int|
            0 <= i < self.rows[r].len() && 0 <= j < self.rows[r].len() && i != j ==> self.col(
                #[trigger] self.rows[r][i] as int,
            ) != self.col(#[trigger] self.rows[r][j] as int)
    }

    /// Tables agree in length and every stored index is in bounds.
    #[verifier::opaque]
    pub open spec fn wf_shape(self) -> bool {
        &&& 1 <= self.nh() <= self.nn()
        &&& self.nn() + 3 < usize::MAX
        &&& self.y.len() == self.nn()
        &&& self.c.len() == self.nn()
        &&& self.row_id.len() == self.nn()
        &&& links_in_bounds(self.x)
        &&& links_in_bounds(self.y)
        &&& forall|k: int| 0 <= k < self.nn() ==> #[trigger] self.col(k) < self.nh()
        &&& forall|h: int| 0 <= h < self.nh() ==> #[trigger] self.col(h) == h
        &&& forall|k: int| self.nh() <= k < self.nn() ==> #[trigger] self.row_id[k] < self.rows.len()
        &&& forall|k: int| self.nh() <= k < self.nn() ==> #[trigger] self.c[k].0 >= 1
    }

    /// The ghost header ring describes the headers linked in `x`.
    #[verifier::opaque]
    pub open spec fn wf_hdr(self) -> bool {
        &&& ring_ok(self.x, self.hdr)
        &&& self.hdr[0] == 0
        &&& forall|i: int| 0 <= i < self.hdr.len() ==> #[trigger] self.hdr[i] < self.nh()
    }

    /// The ghost column rings describe `y`, and `y` never links across columns.
    #[verifier::opaque]
    pub open spec fn wf_cols(self) -> bool {
        &&& self.cols.len() == self.nh()
        &&& forall|h: int| 0 <= h < self.nh() ==> #[trigger] self.col_ok(h)
        &&& forall|k: int|
            0 <= k < self.nn() ==> self.col(#[trigger] self.y[k].prev.0 as int) == self.col(k)
                && self.col(self.y[k].next.0 as int) == self.col(k)
    }

    /// The ghost row rings describe the rows linked in `x`.
    #[verifier::opaque]
    pub open spec fn wf_rows(self) -> bool {
        &&& forall|r: int| 0 <= r < self.rows.len() ==> #[trigger] self.row_ok(r)
        &&& forall|k: int|
            self.nh() <= k < self.nn() ==> #[trigger] self.rows[self.row_id[k] as int].contains(k as usize)
    }

    /// Shape of the structure: tables agree in length, all links in
    /// bounds, and the ghost rings describe the links.
    pub open spec fn wf_links(self) -> bool {
        &&& self.wf_shape()
        &&& self.wf_hdr()
        &&& self.wf_cols()
        &&& self.wf_rows()
    }

    /// Every node of row `r` is linked into its column, whose header is active.
    pub open spec fn row_live(self, r: int) -> bool {
        forall|t: int|
            0 <= t < self.rows[r].len() ==> {
                let j = #[trigger] self.rows[r][t];
                &&& self.hdr.contains(self.c[j as int].0)
                &&& self.cols[self.col(j as int)].contains(j)
            }
    }

    /// Rows still listed under an active column are wholly present.
    pub open spec fn live(self) -> bool {
        forall|h: int, i: int|
            self.hdr.contains(h as usize) && 0 <= h < self.nh() && 1 <= i < self.cols[h].len()
                ==> #[trigger] self.row_live(self.row_id[#[trigger] self.cols[h][i] as int] as int)
    }

    /// A structure the search may run on.
    pub open spec fn wf(self) -> bool {
        self.wf_links() && self.live()
    }

    /// No column is covered and every node is linked into its column.
    pub open spec fn full(self) -> bool {
        &&& self.hdr.len() == self.nh()
        &&& forall|i: int| 0 <= i < self.nh() ==> #[trigger] self.hdr[i] == i
        &&& forall|k: int|
            self.nh() <= k < self.nn() ==> #[trigger] self.cols[self.col(k)].contains(k as usize)
    }
}

/// Column `h`'s list after the first `upto` entries of `row` were added
/// as a new matrix row: the new node for entry `h - 1`, if that entry is
/// set, joins the bottom of the list.
pub open spec fn col_after(v0: MatView, row: Seq<bool>, h: int, upto: int) -> Seq<usize> {
    if 1 <= h <= upto && row[h - 1] {
        v0.cols[h].push((v0.nn() + true_positions(row.take(h - 1)).len()) as usize)
    } else {
        v0.cols[h]
    }
}

/// Positions of the `true` entries of `row`, in increasing order.
pub open spec fn true_positions(row: Seq<bool>) -> Seq<usize>
    decreases row.len(),
{
    if row.len() == 0 {
        Seq::empty()
    } else {
        let p = true_positions(row.drop_last());
        if row.last() {
            p.push((row.len() - 1) as usize)
        } else {
            p
        }
    }
}

pub proof fn lemma_true_positions_take(row: Seq<bool>, t: int)
    requires
        0 <= t < row.len(),
    ensures
        true_positions(row.take(t + 1)) == (if row[t] {
            true_positions(row.take(t)).push(t as usize)
        } else {
            true_positions(row.take(t))
        }),
{
    assert(row.take(t + 1).drop_last() =~= row.take(t));
}

/// The positions are increasing, in range, and name `true` entries.
pub proof fn lemma_true_positions_facts(row: Seq<bool>)
    requires
        row.len() <= usize::MAX,
    ensures
        forall|q: int| 0 <= q < true_positions(row).len() ==> {
            &&& (#[trigger] true_positions(row)[q]) < row.len()
            &&& row[true_positions(row)[q] as int]
        },
        forall|q1: int, q2: int|
            0 <= q1 < q2 < true_positions(row).len() ==> #[trigger] true_positions(row)[q1]
                < #[trigger] true_positions(row)[q2],
        forall|p: int| 0 <= p < row.len() && row[p] ==> true_positions(row).contains(p as usize),
        true_positions(row).len() <= row.len(),
    decreases row.len(),
{
    if row.len() > 0 {
        let r0 = row.drop_last();
        lemma_true_positions_facts(r0);
        let p = true_positions(r0);
        assert forall|q: int| 0 <= q < p.len() implies row[p[q] as int] by {
            assert(r0[p[q] as int] == row[p[q] as int]);
        }
        if row.last() {
            let tp = true_positions(row);
            assert(tp == p.push((row.len() - 1) as usize));
            assert forall|q: int| 0 <= q < tp.len() implies (#[trigger] tp[q]) < row.len() && row[tp[q] as int] by {
                if q < p.len() {
                    assert(tp[q] == p[q]);
                }
            }
            assert forall|q1: int, q2: int| 0 <= q1 < q2 < tp.len() implies #[trigger] tp[q1] < #[trigger] tp[q2] by {
                assert(tp[q1] == p[q1]);
                if q2 < p.len() {
                    assert(tp[q2] == p[q2]);
                }
            }
            assert forall|pp: int| 0 <= pp < row.len() && row[pp] implies true_positions(row).contains(pp as usize) by {
                if pp < row.len() - 1 {
                    assert(r0[pp] == row[pp]);
                    let q = choose|q: int| 0 <= q < p.len() && p[q] == pp as usize;
                    assert(true_positions(row)[q] == pp as usize);
                } else {
                    assert(true_positions(row)[p.len() as int] == pp as usize);
                }
            }
        } else {
            assert(true_positions(row) == p);
            assert forall|pp: int| 0 <= pp < row.len() && row[pp] implies true_positions(row).contains(pp as usize) by {
                assert(pp < row.len() - 1);
                assert(r0[pp] == row[pp]);
            }
        }
    }
}

/// A fully uncovered structure is live: every row is wholly linked.
pub proof fn lemma_full_live(v: MatView, h: int, i: int)
    requires
        v.wf_links(),
        v.full(),
        0 <= h < v.nh(),
        1 <= i < v.cols[h].len(),
    ensures
        v.row_live(v.row_id[v.cols[h][i] as int] as int),
{
    reveal(MatView::wf_shape);
    reveal(MatView::wf_rows);
    reveal(MatView::wf_cols);
    assert(v.col_ok(h));
    let k = v.cols[h][i] as int;
    let r = v.row_id[k] as int;
    assert(v.row_ok(r));
    assert forall|t: int| 0 <= t < v.rows[r].len() implies {
        let j = #[trigger] v.rows[r][t];
        &&& v.hdr.contains(v.c[j as int].0)
        &&& v.cols[v.col(j as int)].contains(j)
    } by {
        let j = v.rows[r][t];
        assert(v.nh() <= j < v.nn());
        assert(v.col(j as int) < v.nh());
        assert(v.hdr[v.col(j as int)] == v.col(j as int));
        assert(v.cols[v.col(j as int)].contains(j as int as usize));
    }
}

/// One step of `add_row`, as a relation between the views before and after.
pub open spec fn add_node_step(v1: MatView, w: MatView, h: int, k: int) -> bool {
    Matrix::add_node_step_m(v1, w, h, k)
}

proof fn lemma_add_node_common(v1: MatView, w: MatView, h: int, k: int)
    requires
        add_node_step(v1, w, h, k),
    ensures
        ({
            let ch = v1.cols[h];
            let last = ch[ch.len() - 1] as int;
            &&& v1.col_ok(h)
            &&& 0 <= last < v1.nn()
            &&& v1.col(last) == h
            &&& v1.col(h) == h
            &&& ring_ok(w.y, ch.push(k as usize))
            &&& forall|x: int| 0 <= x < v1.nn() && x != last && x != h ==> #[trigger] w.y[x] == v1.y[x]
            &&& w.y[k].prev.0 == last && w.y[k].next.0 == h
            &&& w.y.len() == k + 1
            &&& w.y[last].next.0 == k
            &&& w.y[h].prev.0 == k
            &&& w.y[last].prev == (if last == h { Cell(k as usize) } else { v1.y[last].prev })
            &&& w.y[h].next == (if last == h { Cell(k as usize) } else { v1.y[h].next })
            &&& w.cols[h] == ch.push(k as usize)
        }),
{
    reveal(MatView::wf_shape);
    reveal(MatView::wf_cols);
    let y1 = v1.y.push(Link { prev: Cell(k as usize), next: Cell(k as usize) });
    let ch = v1.cols[h];
    assert(v1.col_ok(h));
    let last = ch[ch.len() - 1] as int;
    assert(ch[ch.len() - 1] < v1.nn());
    assert(v1.col(last) == h) by {
        if ch.len() == 1 {
            assert(v1.col(h) == h);
        }
    }
    assert forall|i: int| 0 <= i < ch.len() implies y1[#[trigger] ch[i] as int] == v1.y[ch[i] as int] by {
        assert(ch[i] < v1.nn());
    }
    lemma_ring_frame(v1.y, y1, ch);
    assert(!ch.contains(k as usize)) by {
        if ch.contains(k as usize) {
            let i = choose|i: int| 0 <= i < ch.len() && ch[i] == k as usize;
            assert(ch[i] < v1.nn());
        }
    }
    lemma_ring_insert(y1, ch, ch.len() - 1, k);
    assert(ch.insert(ch.len() as int, k as usize) =~= ch.push(k as usize));
    assert(succ(ch, ch.len() - 1) == h);
    assert(ch[0] == h);
    assert(y1[last].next.0 == h);
}

proof fn lemma_add_node_x(v1: MatView, w: MatView, h: int, k: int)
    requires
        add_node_step(v1, w, h, k),
    ensures
        ({
            let rr = v1.rows[v1.rows.len() - 1];
            let xs = if rr.len() > 0 { rr[rr.len() - 1] as int } else { k };
            let xn = if rr.len() > 0 { rr[0] as int } else { k };
            &&& ring_ok(w.x, rr.push(k as usize))
            &&& forall|x: int| 0 <= x < v1.nn() && x != xs && x != xn ==> #[trigger] w.x[x] == v1.x[x]
            &&& v1.nh() <= xs <= k
            &&& v1.nh() <= xn <= k
            &&& v1.row_id.len() > xs ==> v1.row_id[xs] == v1.rows.len() - 1
            &&& v1.row_id.len() > xn ==> v1.row_id[xn] == v1.rows.len() - 1
            &&& links_in_bounds(w.x)
            &&& w.x.len() == k + 1
        }),
{
    reveal(MatView::wf_shape);
    reveal(MatView::wf_rows);
    let rr = v1.rows[v1.rows.len() - 1];
    let lr = v1.rows.len() - 1;
    let x1 = v1.x.push(Link { prev: Cell(k as usize), next: Cell(k as usize) });
    assert(v1.row_ok(lr));
    if rr.len() > 0 {
        assert forall|i: int| 0 <= i < rr.len() implies x1[#[trigger] rr[i] as int] == v1.x[rr[i] as int] by {
            assert(rr[i] < v1.nn());
        }
        lemma_ring_frame(v1.x, x1, rr);
        assert(!rr.contains(k as usize)) by {
            if rr.contains(k as usize) {
                let i = choose|i: int| 0 <= i < rr.len() && rr[i] == k as usize;
                assert(rr[i] < v1.nn());
            }
        }
        lemma_ring_insert(x1, rr, rr.len() - 1, k);
        assert(rr.insert(rr.len() as int, k as usize) =~= rr.push(k as usize));
        assert(rr[rr.len() - 1] < v1.nn());
        assert(rr[0] < v1.nn());
    } else {
        assert(rr.push(k as usize) =~= seq![k as usize]);
    }
    let xs = if rr.len() > 0 { rr[rr.len() - 1] as int } else { k };
    let xn = if rr.len() > 0 { rr[0] as int } else { k };
    assert forall|kk: int| 0 <= kk < w.x.len() implies (#[trigger] w.x[kk]).prev.0 < w.x.len() && w.x[kk].next.0 < w.x.len() by {
        if kk < v1.nn() && kk != xs && kk != xn {
            assert(w.x[kk] == v1.x[kk]);
        }
    }
}

proof fn lemma_add_node_shape(v1: MatView, w: MatView, h: int, k: int)
    requires
        add_node_step(v1, w, h, k),
    ensures
        w.wf_shape(),
        w.wf_hdr(),
{
    lemma_add_node_common(v1, w, h, k);
    lemma_add_node_x(v1, w, h, k);
    reveal(MatView::wf_shape);
    reveal(MatView::wf_hdr);
    assert(w.nn() == k + 1);
    assert(v1.c.len() == k);
    assert(w.c.len() == k + 1);
    assert(w.nh() <= v1.nn());
    let rr = v1.rows[v1.rows.len() - 1];
    let xs = if rr.len() > 0 { rr[rr.len() - 1] as int } else { k };
    let xn = if rr.len() > 0 { rr[0] as int } else { k };
    assert forall|i: int| 0 <= i < v1.hdr.len() implies w.x[#[trigger] v1.hdr[i] as int] == v1.x[v1.hdr[i] as int] by {
        assert(v1.hdr[i] < v1.nh());
    }
    lemma_ring_frame(v1.x, w.x, v1.hdr);
    assert forall|kk: int| 0 <= kk < w.nn() implies #[trigger] w.col(kk) < w.nh() && (kk < w.nh() ==> w.col(kk) == kk) by {
        if kk < v1.nn() {
            assert(w.c[kk] == v1.c[kk]);
            assert(v1.col(kk) < v1.nh());
            if kk < v1.nh() {
                assert(v1.col(kk) == kk);
            }
        } else {
            assert(kk == k);
            assert(w.c[kk] == Cell(h as usize));
            assert(w.col(kk) == h);
        }
    }
    assert forall|kk: int| w.nh() <= kk < w.nn() implies #[trigger] w.row_id[kk] < w.rows.len() by {
        if kk < v1.nn() {
            assert(w.row_id[kk] == v1.row_id[kk]);
        }
    }
    let ch = v1.cols[h];
    let last = ch[ch.len() - 1] as int;
    assert forall|kk: int| 0 <= kk < w.y.len() implies (#[trigger] w.y[kk]).prev.0 < w.y.len() && w.y[kk].next.0 < w.y.len() by {
        if kk < v1.nn() && kk != last && kk != h {
            assert(w.y[kk] == v1.y[kk]);
        }
    }
}

proof fn lemma_add_node_cols(v1: MatView, w: MatView, h: int, k: int)
    requires
        add_node_step(v1, w, h, k),
    ensures
        w.wf_cols(),
{
    lemma_add_node_common(v1, w, h, k);
    lemma_add_node_x(v1, w, h, k);
    reveal(MatView::wf_shape);
    reveal(MatView::wf_cols);
    let ch = v1.cols[h];
    let last = ch[ch.len() - 1] as int;
    assert forall|hh: int| 0 <= hh < w.nh() implies #[trigger] w.col_ok(hh) by {
        assert(v1.col_ok(hh));
        if hh != h {
            let cs = v1.cols[hh];
            assert(w.cols[hh] == cs);
            assert forall|i: int| 0 <= i < cs.len() implies w.y[#[trigger] cs[i] as int] == v1.y[cs[i] as int] by {
                assert(cs[i] < v1.nn());
                assert(v1.col(cs[i] as int) == hh) by {
                    if i == 0 {
                        assert(v1.col(hh) == hh);
                    }
                }
            }
            lemma_ring_frame(v1.y, w.y, cs);
            assert(w.size[hh] == v1.size[hh]);
            assert forall|i: int| 1 <= i < w.cols[hh].len() implies #[trigger] w.cols[hh][i] >= w.nh() && w.col(
                w.cols[hh][i] as int) == hh by {
                assert(cs[i] < v1.nn());
                assert(w.c[cs[i] as int] == v1.c[cs[i] as int]);
            }
        } else {
            assert(w.cols[hh] == ch.push(k as usize));
            assert forall|i: int| 1 <= i < w.cols[hh].len() implies #[trigger] w.cols[hh][i] >= w.nh() && w.col(
                w.cols[hh][i] as int) == hh by {
                if i < ch.len() {
                    assert(ch[i] < v1.nn());
                    assert(w.cols[hh][i] == ch[i]);
                    assert(w.c[ch[i] as int] == v1.c[ch[i] as int]);
                } else {
                    assert(w.cols[hh][i] == k as usize);
                    assert(w.c[k] == Cell(h as usize));
                }
            }
            assert(w.size[h] == v1.size[h] + 1);
        }
    }
    assert forall|kk: int| 0 <= kk < w.nn() implies w.col(#[trigger] w.y[kk].prev.0 as int) == w.col(kk)
        && w.col(w.y[kk].next.0 as int) == w.col(kk) by {
        assert(w.c[k] == Cell(h as usize));
        assert(w.col(k) == h);
        assert(w.c[h] == v1.c[h]);
        assert(w.c[last] == v1.c[last]);
        assert(w.col(h) == h);
        assert(w.col(last) == h);
        if kk < v1.nn() {
            let p = v1.y[kk].prev.0 as int;
            let n = v1.y[kk].next.0 as int;
            assert(v1.col(p) == v1.col(kk));
            assert(v1.col(n) == v1.col(kk));
            assert(p < v1.nn());
            assert(n < v1.nn());
            assert(w.c[kk] == v1.c[kk]);
            assert(w.c[p] == v1.c[p]);
            assert(w.c[n] == v1.c[n]);
            if kk == last {
                assert(v1.col(kk) == h);
            } else if kk == h {
            } else {
                assert(w.y[kk] == v1.y[kk]);
            }
        }
    }
}

proof fn lemma_add_node_rows(v1: MatView, w: MatView, h: int, k: int)
    requires
        add_node_step(v1, w, h, k),
    ensures
        w.wf_rows(),
{
    lemma_add_node_x(v1, w, h, k);
    lemma_add_node_common(v1, w, h, k);
    reveal(MatView::wf_shape);
    reveal(MatView::wf_rows);
    let rr = v1.rows[v1.rows.len() - 1];
    let lr = v1.rows.len() - 1;
    let xs = if rr.len() > 0 { rr[rr.len() - 1] as int } else { k };
    let xn = if rr.len() > 0 { rr[0] as int } else { k };
    assert forall|r: int| 0 <= r < w.rows.len() implies #[trigger] w.row_ok(r) by {
        assert(v1.row_ok(r));
        if r < lr {
            let rs = v1.rows[r];
            assert(w.rows[r] == rs);
            if rs.len() > 0 {
                assert forall|i: int| 0 <= i < rs.len() implies w.x[#[trigger] rs[i] as int] == v1.x[rs[i] as int] by {
                    assert(rs[i] < v1.nn());
                    assert(v1.row_id[rs[i] as int] == r);
                }
                lemma_ring_frame(v1.x, w.x, rs);
            }
            assert forall|i: int| 0 <= i < rs.len() implies w.row_id[#[trigger] rs[i] as int] == r && w.c[rs[i] as int] == v1.c[rs[i] as int] by {
                assert(rs[i] < v1.nn());
            }
        } else {
            let rs = rr.push(k as usize);
            assert(w.rows[r] == rs);
            assert forall|i: int| 0 <= i < rs.len() implies w.nh() <= #[trigger] rs[i] < w.nn() && w.row_id[rs[i] as int] == r by {
                if i < rr.len() {
                    assert(rr[i] < v1.nn());
                    assert(rs[i] == rr[i]);
                    assert(w.row_id[rr[i] as int] == v1.row_id[rr[i] as int]);
                } else {
                    assert(rs[i] == k as usize);
                    assert(w.row_id[k] == lr);
                }
            }
            assert forall|i: int, j: int| 0 <= i < rs.len() && 0 <= j < rs.len() && i != j implies w.col(#[trigger] rs[i] as int) != w.col(#[trigger] rs[j] as int) by {
                if i < rr.len() {
                    assert(rr[i] < v1.nn());
                    assert(w.c[rr[i] as int] == v1.c[rr[i] as int]);
                }
                if j < rr.len() {
                    assert(rr[j] < v1.nn());
                    assert(w.c[rr[j] as int] == v1.c[rr[j] as int]);
                }
            }
        }
    }
    assert forall|kk: int| w.nh() <= kk < w.nn() implies #[trigger] w.rows[w.row_id[kk] as int].contains(kk as usize) by {
        if kk < v1.nn() {
            assert(v1.rows[v1.row_id[kk] as int].contains(kk as usize));
            assert(w.row_id[kk] == v1.row_id[kk]);
            if v1.row_id[kk] == lr {
                let i = choose|i: int| 0 <= i < rr.len() && rr[i] == kk as usize;
                assert(w.rows[lr] == rr.push(k as usize));
                assert(w.rows[lr][i] == kk as usize);
            } else {
                assert(w.rows[v1.row_id[kk] as int] == v1.rows[v1.row_id[kk] as int]);
            }
        } else {
            assert(w.row_id[k] == lr);
            assert(w.rows[lr] == rr.push(k as usize));
            assert(w.rows[lr][rr.len() as int] == k as usize);
        }
    }
}

proof fn lemma_add_node_full(v1: MatView, w: MatView, h: int, k: int)
    requires
        add_node_step(v1, w, h, k),
    ensures
        w.full(),
{
    lemma_add_node_x(v1, w, h, k);
    lemma_add_node_common(v1, w, h, k);
    reveal(MatView::wf_shape);
    reveal(MatView::wf_cols);
    let ch = v1.cols[h];
    assert forall|kk: int| w.nh() <= kk < w.nn() implies #[trigger] w.cols[w.col(kk)].contains(kk as usize) by {
        if kk < v1.nn() {
            assert(v1.cols[v1.col(kk)].contains(kk as usize));
            assert(w.c[kk] == v1.c[kk]);
            if v1.col(kk) == h {
                let i = choose|i: int| 0 <= i < ch.len() && ch[i] == kk as usize;
                assert(w.cols[h][i] == kk as usize);
            }
        } else {
            assert(w.cols[h][ch.len() as int] == k as usize);
        }
    }
}

proof fn lemma_add_node(v1: MatView, w: MatView, h: int, k: int)
    requires
        add_node_step(v1, w, h, k),
    ensures
        w.wf_links(),
        w.full(),
{
    lemma_add_node_shape(v1, w, h, k);
    lemma_add_node_cols(v1, w, h, k);
    lemma_add_node_rows(v1, w, h, k);
    lemma_add_node_full(v1, w, h, k);
}

impl Matrix {
    /// An empty matrix with `n_cols` columns (no rows yet).
    #[verifier::rlimit(60)]
    pub fn new(n_cols: usize) -> (res: Matrix)
        requires
            n_cols < usize::MAX - 4,
        ensures
            res@.wf_links(),
            res@.full(),
            res@.nh() == n_cols + 1,
            res@.nn() == n_cols + 1,
            res@.rows.len() == 0,
            res@.row_count == 0,
            forall|h: int|
                0 <= h < res@.nh() ==> #[trigger] res@.row_id[h] == 0 && res@.size[h] == 0 && res@.cols[h] == seq![
                    h as usize,
                ],
    {
        // +1 for sentinel
        let mut res = Matrix {
            x: LList::with_capacity(n_cols + 1),
            y: LList::with_capacity(n_cols + 1),
            c: Vec::with_capacity(n_cols + 1),
            row_id: Vec::with_capacity(n_cols + 1),
            row_count: 0,
            size: Vec::with_capacity(n_cols + 1),
            hdr: Ghost(Seq::empty()),
            cols: Ghost(Seq::empty()),
            rows: Ghost(Seq::empty()),
        };
        let sentinel = res.alloc_column();
        proof {
            res.hdr@ = seq![0usize];
            res.cols@ = seq![seq![0usize]];
            let v = res@;
            reveal(MatView::wf_shape);
            reveal(MatView::wf_hdr);
            reveal(MatView::wf_cols);
            reveal(MatView::wf_rows);
            assert(v.x[0] == Link { prev: Cell(0), next: Cell(0) });
            assert(v.y[0] == Link { prev: Cell(0), next: Cell(0) });
            assert(v.col_ok(0));
            assert(ring_ok(v.x, v.hdr));
            assert(links_in_bounds(v.x));
            assert(links_in_bounds(v.y));
            assert(forall|h: int| 0 <= h < v.nh() ==> #[trigger] v.col_ok(h));
            assert(forall|k: int| 0 <= k < v.nn() ==> #[trigger] v.col(k) < v.nh());
            assert(v.wf_links());
            assert(v.full());
        }
        // at this point, x and y look like:
        // x: H <-> C1 <-> C2 <-> C3 where C1, C2, C3 are the headers
        // y: H C1 C2 C3. Four disjoint circular linked lists
        let mut i: usize = 0;
        while i < n_cols
            invariant
                res@.wf_links(),
                res@.full(),
                res@.nn() == res@.nh(),
                res@.nh() == i + 1,
                i <= n_cols,
                res@.rows.len() == 0,
                res@.row_count == 0,
                n_cols < usize::MAX - 4,
                res@.row_id.len() == res@.nn(),
                res@.size.len() == res@.nn(),
                res@.cols.len() == res@.nh(),
                forall|h: int|
                    0 <= h < res@.nh() ==> #[trigger] res@.row_id[h] == 0 && res@.size[h] == 0 && res@.cols[h] == seq![
                        h as usize,
                    ],
            decreases n_cols - i,
        {
            let ghost v0 = res@;
            res.add_column();
            proof {
                let v = res@;
                assert forall|h: int| 0 <= h < v.nh() implies #[trigger] v.row_id[h] == 0 && v.size[h] == 0 && v.cols[h] == seq![
                    h as usize,
                ] by {
                    if h < v0.nh() {
                        assert(v.row_id[h] == v0.row_id[h]);
                        assert(v.size[h] == v0.size[h]);
                        assert(v.cols[h] == v0.cols[h]);
                    }
                }
            }
            i = i + 1;
        }
        res
    }

    /// Appends a matrix row: one new node per `true` entry, linked at the
    /// bottom of that column and into a new horizontal ring.
    #[verifier::rlimit(80)]
    pub fn add_row(&mut self, row: &[bool])
        requires
            old(self)@.wf_links(),
            old(self)@.full(),
            row@.len() == old(self)@.nh() - 1,
            old(self)@.nn() + row@.len() + 3 < usize::MAX,
            old(self)@.row_count == old(self)@.rows.len(),
            old(self)@.row_count + 2 < usize::MAX,
        ensures
            ({
                let v0 = old(self)@;
                let v = final(self)@;
                let tp = true_positions(row@);
                &&& v.wf_links()
                &&& v.full()
                &&& v.nh() == v0.nh()
                &&& v.nn() == v0.nn() + tp.len()
                &&& v.row_count == v0.row_count + 1
                &&& v.rows == v0.rows.push(Seq::new(tp.len(), |q: int| (v0.nn() + q) as usize))
                &&& forall|q: int| 0 <= q < tp.len() ==> #[trigger] v.col(v0.nn() + q) == tp[q] + 1
                &&& forall|q: int| 0 <= q < tp.len() ==> #[trigger] v.row_id[v0.nn() + q] == v0.row_count
                &&& forall|k: int| 0 <= k < v0.nn() ==> #[trigger] v.c[k] == v0.c[k]
                &&& forall|k: int| 0 <= k < v0.nn() ==> #[trigger] v.row_id[k] == v0.row_id[k]
                &&& v.hdr == v0.hdr
                &&& v.cols.len() == v0.cols.len()
                &&& forall|h: int| 0 <= h < v.nh() ==> #[trigger] v.cols[h] == col_after(v0, row@, h, row@.len() as int)
            }),
    {
        let ghost v0 = self@;
        let ghost n0 = v0.nn();
        let row_id = self.row_count;
        self.row_count += 1;
        proof {
            reveal(MatView::wf_shape);
            reveal(MatView::wf_rows);
            reveal(MatView::wf_hdr);
            reveal(MatView::wf_cols);
            self.rows@ = v0.rows.push(Seq::empty());
            assert forall|r: int| 0 <= r < self@.rows.len() implies #[trigger] self@.row_ok(r) by {
                if r < v0.rows.len() {
                    assert(v0.row_ok(r));
                    assert(self@.rows[r] == v0.rows[r]);
                }
            }
            assert forall|k: int| v0.nh() <= k < v0.nn() implies #[trigger] self@.rows[self@.row_id[k] as int].contains(k as usize) by {
                assert(v0.rows[v0.row_id[k] as int].contains(k as usize));
            }
            assert(row@.take(0) =~= Seq::<bool>::empty());
            let w = self@;
            assert(w.cols == v0.cols && w.c == v0.c && w.hdr == v0.hdr && w.size == v0.size && w.x == v0.x && w.y == v0.y);
            assert forall|k: int| w.nh() <= k < w.nn() implies #[trigger] w.cols[w.col(k)].contains(k as usize) by {
                assert(v0.cols[v0.col(k)].contains(k as usize));
            }
            assert forall|i: int| 0 <= i < w.nh() implies #[trigger] w.hdr[i] == i by {
                assert(v0.hdr[i] == i);
            }
            assert forall|h: int| 0 <= h < w.nh() implies #[trigger] w.col_ok(h) by {
                assert(v0.col_ok(h));
            }
            assert(self@.full());
            assert forall|k: int| w.nh() <= k < w.nn() implies #[trigger] w.row_id[k] < w.rows.len() by {
                assert(v0.row_id[k] < v0.rows.len());
            }
            assert forall|k: int| 0 <= k < w.nn() implies #[trigger] w.col(k) < w.nh() && (k < w.nh() ==> w.col(k) == k) by {
                assert(v0.col(k) < v0.nh());
                if k < v0.nh() {
                    assert(v0.col(k) == k);
                }
            }
            assert(w.wf_shape());
            assert(w.wf_hdr());
            assert(w.wf_cols()) by {
                assert forall|k: int| 0 <= k < w.nn() implies w.col(#[trigger] w.y[k].prev.0 as int) == w.col(k)
                    && w.col(w.y[k].next.0 as int) == w.col(k) by {
                    assert(v0.col(v0.y[k].prev.0 as int) == v0.col(k));
                }
            }
            assert(w.wf_rows());
            assert(true_positions(row@.take(0)) =~= Seq::<usize>::empty());
            assert(Seq::new(0, |q: int| (n0 + q) as usize) =~= Seq::<usize>::empty());
            assert(w.rows =~= v0.rows.push(Seq::new(0, |q: int| (n0 + q) as usize)));
        }

        // keep track of header position with c
        // start at sentinel!
        let mut c = Cell(H);
        // keep track of most recent inserted node
        // to keep the xs aligned
        let mut prev: Option<Cell> = None;
        let mut t: usize = 0;
        while t < row.len()
            invariant
                0 <= t <= row@.len(),
                row@.len() == v0.nh() - 1,
                n0 == v0.nn(),
                n0 + row@.len() + 3 < usize::MAX,
                v0.wf_links(),
                row_id == v0.row_count,
                v0.row_count == v0.rows.len(),
                v0.row_count + 2 < usize::MAX,
                c.0 == t,
                self@.wf_links(),
                self@.full(),
                self@.nh() == v0.nh(),
                self@.row_count == v0.row_count + 1,
                ({
                    let tp = true_positions(row@.take(t as int));
                    &&& self@.nn() == n0 + tp.len()
                    &&& tp.len() <= t
                    &&& self@.rows == v0.rows.push(Seq::new(tp.len(), |q: int| (n0 + q) as usize))
                    &&& prev == (if tp.len() == 0 {
                        None
                    } else {
                        Some(Cell((n0 + tp.len() - 1) as usize))
                    })
                    &&& forall|q: int| 0 <= q < tp.len() ==> #[trigger] self@.col(n0 + q) == tp[q] + 1
                    &&& forall|q: int| 0 <= q < tp.len() ==> #[trigger] self@.row_id[n0 + q] == row_id
                    &&& forall|q: int| 0 <= q < tp.len() ==> #[trigger] tp[q] < t
                }),
                forall|k: int| 0 <= k < n0 ==> #[trigger] self@.c[k] == v0.c[k],
                forall|k: int| 0 <= k < n0 ==> #[trigger] self@.row_id[k] == v0.row_id[k],
                self@.hdr == v0.hdr,
                self@.cols.len() == v0.cols.len(),
                forall|h: int| 0 <= h < v0.nh() ==> #[trigger] self@.cols[h] == col_after(v0, row@, h, t as int),
            decreases row@.len() - t,
        {
            let ghost tp = true_positions(row@.take(t as int));
            proof {
                lemma_true_positions_take(row@, t as int);
                reveal(MatView::wf_hdr);
                reveal(MatView::wf_shape);
                let v = self@;
                assert(v.hdr[t as int] == t);
                assert(v.hdr[t + 1] == t + 1);
                assert(v.x[v.hdr[t as int] as int].next.0 == succ(v.hdr, t as int));
            }
            c = self.x.index(c).next;
            let is_filled = row[t];
            if is_filled {
                let ghost v1 = self@;
                let ghost h = c.0 as int;
                proof {
                    reveal(MatView::wf_shape);
                    reveal(MatView::wf_cols);
                    assert(v1.col_ok(h));
                }
                self.size.set(c.0, self.size[c.0] + 1);
                let new_cell = self.alloc_node(c);
                self.row_id.push(row_id);
                let ghost k = new_cell.0 as int;
                let last = self.y.index(c).prev;
                proof {
                    reveal(MatView::wf_shape);
                    reveal(MatView::wf_cols);
                    assert(v1.col_ok(h));
                    assert(self.y.data@[h] == v1.y[h]);
                    assert(v1.y[v1.cols[h][0] as int].prev.0 == pred(v1.cols[h], 0));
                    assert(last.0 == v1.cols[h][v1.cols[h].len() - 1]);
                    assert(links_in_bounds(self.y.data@)) by {
                        assert forall|kk: int| 0 <= kk < self.y.data@.len() implies (#[trigger] self.y.data@[kk]).prev.0 < self.y.data@.len()
                            && self.y.data@[kk].next.0 < self.y.data@.len() by {
                            if kk < v1.nn() {
                                assert(self.y.data@[kk] == v1.y[kk]);
                            }
                        }
                    }
                }
                self.y.insert(last, new_cell);
                let ghost rr = v1.rows[v1.rows.len() - 1];
                match prev {
                    Some(p) => {
                        proof {
                            reveal(MatView::wf_shape);
                            assert(rr[rr.len() - 1] == p.0);
                            assert(links_in_bounds(self.x.data@)) by {
                                assert forall|kk: int| 0 <= kk < self.x.data@.len() implies (#[trigger] self.x.data@[kk]).prev.0 < self.x.data@.len()
                                    && self.x.data@[kk].next.0 < self.x.data@.len() by {
                                    if kk < v1.nn() {
                                        assert(self.x.data@[kk] == v1.x[kk]);
                                    }
                                }
                            }
                        }
                        self.x.insert(p, new_cell);
                    },
                    None => {},
                }
                prev = Some(new_cell);
                proof {
                    self.cols@ = v1.cols.update(h, v1.cols[h].push(k as usize));
                    self.rows@ = v1.rows.update(v1.rows.len() - 1, rr.push(k as usize));
                    assert(v1.cols[h].insert(v1.cols[h].len() as int, k as usize) =~= v1.cols[h].push(k as usize));
                    assert(rr.insert(rr.len() as int, k as usize) =~= rr.push(k as usize));
                    let w = self@;
                    assert(v1.wf_links());
                    assert(v1.full());
                    assert(v1.rows.len() >= 1);
                    assert(1 <= h < v1.nh());
                    assert(v1.rows.len() + 1 < usize::MAX);
                    assert(k == v1.nn());
                    assert(k + 4 < usize::MAX);
                    assert(rr =~= Seq::new(tp.len(), |q: int| (n0 + q) as usize));
                    assert forall|q: int| 0 <= q < rr.len() implies v1.col(#[trigger] rr[q] as int) < h by {
                        assert(rr[q] == (n0 + q) as usize);
                        assert(v1.row_id[n0 + q] == row_id);
                        assert(v1.col(n0 + q) == tp[q] + 1);
                        assert(tp[q] < t);
                    }
                    assert(w.nh() == v1.nh());
                    assert(w.c == v1.c.push(Cell(h as usize)));
                    assert(w.row_id == v1.row_id.push((v1.rows.len() - 1) as usize));
                    assert(w.size == v1.size.update(h, (v1.size[h] + 1) as usize));
                    assert(w.y == insert_spec(
                        v1.y.push(Link { prev: Cell(k as usize), next: Cell(k as usize) }),
                        v1.cols[h][v1.cols[h].len() - 1] as int,
                        k,
                    ));
                    assert(w.hdr == v1.hdr);
                    assert(w.cols == v1.cols.update(h, v1.cols[h].push(k as usize)));
                    assert(w.rows == v1.rows.update(
                        v1.rows.len() - 1,
                        v1.rows[v1.rows.len() - 1].push(k as usize),
                    ));
                    assert(add_node_step(v1, self@, h, k));
                    lemma_add_node(v1, self@, h, k);
                    let tp1 = true_positions(row@.take(t + 1));
                    assert(tp1 == tp.push(t));
                    assert(self@.rows =~= v0.rows.push(Seq::new(tp1.len(), |q: int| (n0 + q) as usize))) by {
                        assert(rr =~= Seq::new(tp.len(), |q: int| (n0 + q) as usize));
                        assert(rr.push(k as usize) =~= Seq::new(tp1.len(), |q: int| (n0 + q) as usize));
                    }
                    assert forall|q: int| 0 <= q < tp1.len() implies #[trigger] self@.col(n0 + q) == tp1[q] + 1 by {
                        if q < tp.len() {
                            assert(self@.c[n0 + q] == v1.c[n0 + q]);
                            assert(v1.col(n0 + q) == tp[q] + 1);
                        }
                    }
                    assert forall|q: int| 0 <= q < tp1.len() implies #[trigger] self@.row_id[n0 + q] == row_id by {
                        if q < tp.len() {
                            assert(self@.row_id[n0 + q] == v1.row_id[n0 + q]);
                        }
                    }
                    assert forall|kk: int| 0 <= kk < n0 implies #[trigger] self@.c[kk] == v0.c[kk] by {
                        assert(self@.c[kk] == v1.c[kk]);
                    }
                    assert forall|kk: int| 0 <= kk < n0 implies #[trigger] self@.row_id[kk] == v0.row_id[kk] by {
                        assert(self@.row_id[kk] == v1.row_id[kk]);
                    }
                    assert forall|q: int| 0 <= q < tp1.len() implies #[trigger] tp1[q] < t + 1 by {
                        if q < tp.len() {
                            assert(tp1[q] == tp[q]);
                        }
                    }
                    assert(self@.nn() == n0 + tp1.len());
                    assert(prev == Some(Cell((n0 + tp1.len() - 1) as usize)));
                    assert(h == t + 1);
                    assert forall|hh: int| 0 <= hh < v0.nh() implies #[trigger] self@.cols[hh] == col_after(v0, row@, hh, t + 1) by {
                        assert(v1.cols[hh] == col_after(v0, row@, hh, t as int));
                        if hh == h {
                            assert(row@.take(hh - 1) == row@.take(t as int));
                        }
                    }
                }
            } else {
                proof {
                    let tp1 = true_positions(row@.take(t + 1));
                    assert(tp1 == tp);
                    assert forall|q: int| 0 <= q < tp1.len() implies #[trigger] tp1[q] < t + 1 by {
                        assert(tp[q] < t);
                    }
                    assert forall|hh: int| 0 <= hh < v0.nh() implies #[trigger] self@.cols[hh] == col_after(v0, row@, hh, t + 1) by {
                        assert(self@.cols[hh] == col_after(v0, row@, hh, t as int));
                    }

                }
            }
            proof {
                let tp1 = true_positions(row@.take(t + 1));
                assert(self@.nn() == n0 + tp1.len());
                assert(tp1.len() <= t + 1);
                assert(self@.rows == v0.rows.push(Seq::new(tp1.len(), |q: int| (n0 + q) as usize)));
                assert(prev == (if tp1.len() == 0 {
                        None
                    } else {
                        Some(Cell((n0 + tp1.len() - 1) as usize))
                    }));
            }
            t = t + 1;
        }
        proof {
            assert(row@.take(row@.len() as int) =~= row@);
            let tp = true_positions(row@);
            assert(true_positions(row@.take(row@.len() as int)) == tp);
            let v = self@;
            assert forall|q: int| 0 <= q < tp.len() implies #[trigger] v.row_id[v0.nn() + q] == v0.row_count by {
                assert(v.row_id[n0 + q] == row_id);
            }
        }
    }

    /// One step of `add_row`: node `k` joins the bottom of column `h` and the
    /// end of the last row.
    pub open spec fn add_node_step_m(v1: MatView, w: MatView, h: int, k: int) -> bool {
        &&& v1.wf_links()
        &&& v1.full()
        &&& v1.rows.len() >= 1
        &&& 1 <= h < v1.nh()
        &&& v1.rows.len() + 1 < usize::MAX
        &&& k == v1.nn()
        &&& k + 4 < usize::MAX
        &&& forall|q: int|
                0 <= q < v1.rows[v1.rows.len() - 1].len() ==> v1.col(#[trigger] v1.rows[v1.rows.len() - 1][q] as int) < h
        &&& w.nh() == v1.nh()
        &&& w.c == v1.c.push(Cell(h as usize))
        &&& w.row_id == v1.row_id.push((v1.rows.len() - 1) as usize)
        &&& w.size == v1.size.update(h, (v1.size[h] + 1) as usize)
        &&& w.y == insert_spec(
                v1.y.push(Link { prev: Cell(k as usize), next: Cell(k as usize) }),
                v1.cols[h][v1.cols[h].len() - 1] as int,
                k,
            )
        &&& ({
                let rr = v1.rows[v1.rows.len() - 1];
                let x1 = v1.x.push(Link { prev: Cell(k as usize), next: Cell(k as usize) });
                w.x == if rr.len() == 0 { x1 } else { insert_spec(x1, rr[rr.len() - 1] as int, k) }
            })
        &&& w.hdr == v1.hdr
        &&& w.cols == v1.cols.update(h, v1.cols[h].push(k as usize))
        &&& w.rows == v1.rows.update(
                v1.rows.len() - 1,
                v1.rows[v1.rows.len() - 1].push(k as usize),
            )
    }

    /// Appends a column header and links it at the end of the header ring.
    fn add_column(&mut self)
        requires
            old(self)@.wf_links(),
            old(self)@.full(),
            old(self)@.nn() == old(self)@.nh(),
            old(self)@.nn() + 4 < usize::MAX,
            old(self)@.rows.len() == 0,
        ensures
            final(self)@.wf_links(),
            final(self)@.full(),
            final(self)@.nh() == old(self)@.nh() + 1,
            final(self)@.nn() == final(self)@.nh(),
            final(self)@.rows.len() == 0,
            final(self)@.row_count == old(self)@.row_count,
            final(self)@.row_id == old(self)@.row_id.push(0),
            final(self)@.size == old(self)@.size.push(0),
            final(self)@.cols == old(self)@.cols.push(seq![old(self)@.nn() as usize]),
    {
        proof {
            reveal(MatView::wf_shape);
        }
        // takes new column, and connects it horizontally
        // C1 C2 => C1 <-> C2
        let new_col = self.alloc_column();
        // note self.x[H].prev is the last element in LList
        let last = self.x.index(Cell(H)).prev;
        proof {
            let v = old(self)@;
            reveal(MatView::wf_shape);
            reveal(MatView::wf_hdr);
            reveal(MatView::wf_cols);
            reveal(MatView::wf_rows);
            assert(v.x[0].prev.0 == pred(v.hdr, 0));
            assert(ring_ok(self.x.data@, v.hdr)) by {
                assert forall|i: int| 0 <= i < v.hdr.len() implies self.x.data@[#[trigger] v.hdr[i] as int]
                    == v.x[v.hdr[i] as int] by {}
                lemma_ring_frame(v.x, self.x.data@, v.hdr);
            }
            assert(!v.hdr.contains(new_col.0)) by {
                if v.hdr.contains(new_col.0) {
                    let i = choose|i: int| 0 <= i < v.hdr.len() && v.hdr[i] == new_col.0;
                    assert(v.hdr[i] < v.nh());
                }
            }
            lemma_ring_insert(self.x.data@, v.hdr, v.hdr.len() - 1, new_col.0 as int);
            assert(v.hdr[v.hdr.len() - 1] == last.0);
        }
        self.x.insert(last, new_col);
        proof {
            let v = old(self)@;
            let k = new_col.0;
            self.hdr@ = v.hdr.push(k);
            self.cols@ = v.cols.push(seq![k]);
            assert(v.hdr.insert(v.hdr.len() as int, k) =~= v.hdr.push(k));
            let w = self@;
            reveal(MatView::wf_shape);
            reveal(MatView::wf_hdr);
            reveal(MatView::wf_cols);
            reveal(MatView::wf_rows);
            assert(w.nh() == v.nh() + 1);
            assert forall|h: int| 0 <= h < w.nh() implies #[trigger] w.col_ok(h) by {
                if h < v.nh() {
                    assert(v.col_ok(h));
                    assert(w.cols[h] == v.cols[h]);
                    assert forall|i: int| 0 <= i < w.cols[h].len() implies w.y[#[trigger] w.cols[h][i] as int] == v.y[w.cols[h][i] as int] by {
                        assert(v.cols[h][i] < v.nn());
                    }
                    lemma_ring_frame(v.y, w.y, w.cols[h]);
                } else {
                    assert(w.y[k as int] == Link { prev: Cell(k), next: Cell(k) });
                }
            }
            assert forall|kk: int| 0 <= kk < w.nn() implies w.col(#[trigger] w.y[kk].prev.0 as int) == w.col(kk)
                && w.col(w.y[kk].next.0 as int) == w.col(kk) by {
                if kk < v.nn() {
                    assert(w.y[kk] == v.y[kk]);
                }
            }
            assert forall|kk: int| 0 <= kk < w.nn() implies #[trigger] w.x[kk].prev.0 < w.nn() && w.x[kk].next.0 < w.nn() by {
                if kk < v.nn() && kk != k {
                    assert(w.x[kk] == insert_spec(v.x.push(Link { prev: Cell(k), next: Cell(k) }), last.0 as int, k as int)[kk]);
                }
            }
            assert(1 <= w.nh() <= w.nn());
            assert(links_in_bounds(w.x));
            assert(links_in_bounds(w.y));
            assert forall|kk: int| 0 <= kk < w.nn() implies #[trigger] w.col(kk) < w.nh() && (kk < w.nh() ==> w.col(kk) == kk) by {
                if kk < v.nn() {
                    assert(w.c[kk] == v.c[kk]);
                    assert(v.col(kk) == kk);
                }
            }
            assert(ring_ok(w.x, w.hdr));
            assert(forall|i: int| 0 <= i < w.hdr.len() ==> #[trigger] w.hdr[i] < w.nh());
            assert(forall|r: int| 0 <= r < w.rows.len() ==> #[trigger] w.row_ok(r));
        }
    }

    /// Allocates a column header: a node that is its own column.
    fn alloc_column(&mut self) -> (cell: Cell)
        requires
            old(self).y.data@.len() == old(self).x.data@.len(),
            old(self).c@.len() == old(self).x.data@.len(),
            old(self).row_id@.len() == old(self).x.data@.len(),
            old(self).x.data@.len() + 3 < usize::MAX,
        ensures
            cell.0 == old(self).x.data@.len(),
            final(self).x.data@ == old(self).x.data@.push(Link { prev: cell, next: cell }),
            final(self).y.data@ == old(self).y.data@.push(Link { prev: cell, next: cell }),
            final(self).c@ == old(self).c@.push(cell),
            final(self).row_id@ == old(self).row_id@.push(0),
            final(self).size@ == old(self).size@.push(0),
            final(self).row_count == old(self).row_count,
            final(self).hdr == old(self).hdr,
            final(self).cols == old(self).cols,
            final(self).rows == old(self).rows,
    {
        // use a placeholder here that immediately gets overwritten
        // call alloc just to add a node rather than associate with a header
        let cell = self.alloc_node(Cell(H));
        self.c.set(cell.0, cell);
        self.size.push(0);
        self.row_id.push(0);
        cell
    }

    /// Allocates a new node belonging to header c
    fn alloc_node(&mut self, c: Cell) -> (cell: Cell)
        requires
            old(self).y.data@.len() == old(self).x.data@.len(),
            old(self).c@.len() == old(self).x.data@.len(),
            old(self).x.data@.len() + 3 < usize::MAX,
        ensures
            cell.0 == old(self).x.data@.len(),
            final(self).x.data@ == old(self).x.data@.push(Link { prev: cell, next: cell }),
            final(self).y.data@ == old(self).y.data@.push(Link { prev: cell, next: cell }),
            final(self).c@ == old(self).c@.push(c),
            final(self).row_id == old(self).row_id,
            final(self).size == old(self).size,
            final(self).row_count == old(self).row_count,
            final(self).hdr == old(self).hdr,
            final(self).cols == old(self).cols,
            final(self).rows == old(self).rows,
    {
        self.c.push(c);
        let cell = self.x.alloc_node();
        // make sure both x and y refer to the same cell
        // both lookup tables need to have same num of nodes
        let _y_cell = self.y.alloc_node();
        cell
    }
}

} // verus!
