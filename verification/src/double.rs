use vstd::prelude::*;

use crate::board::{is_square, label, touching, Pos};
use crate::cell::Cell;
use crate::cover::{from_rows, lemma_pos_of, pos_of};
use crate::double_count::{
    board_ok, cover_test, lemma_extra_column_open, lemma_extra_count, lemma_extra_provides, lemma_full_no_extra, lemma_of_opt,
    lemma_opt_of, opt_of,
};
use crate::llist::{
    closed, lemma_closed_remove, lemma_remove_restore, lemma_remove_values, lemma_ring_frame, lemma_ring_remove,
    linked_at, links_in_bounds, remove_spec, restore_spec, ring_ok, Link,
};
use crate::matrix::{MatView, Matrix, H};
use crate::solver::{
    board_layout, cell_id, cell_of, covers, first_node, lemma_cell_of_id, lemma_node_row, lemma_three_positions, layout_upto,
    region_of, MAX_SIDE,
};

verus! {

// ------------------------------------------------------------ unlinking

/// `v` with non-header node `j` taken out of its column's vertical ring.
pub open spec fn detach_spec(v: MatView, j: int) -> MatView {
    let h = v.col(j);
    MatView {
        y: remove_spec(v.y, j),
        size: v.size.update(h, (v.size[h] - 1) as usize),
        cols: v.cols.update(h, v.cols[h].remove(pos_of(v.cols[h], j as usize))),
        ..v
    }
}

/// `v` with column header `h` taken out of the header ring.
pub open spec fn unlink_hdr_spec(v: MatView, h: int) -> MatView {
    MatView { x: remove_spec(v.x, h), hdr: v.hdr.remove(pos_of(v.hdr, h as usize)), ..v }
}

/// One trail entry: node `j` unlinked from `v` gives `w`, and `j` was
/// linked at that moment (headers are the ids below `first`).
pub open spec fn trail_step(v: MatView, w: MatView, j: int, first: int) -> bool {
    &&& v.wf_links()
    &&& if j < first {
        &&& w == unlink_hdr_spec(v, j)
        &&& v.hdr.contains(j as usize)
        &&& linked_at(v.x, j)
        &&& 0 < j
    } else {
        &&& w == detach_spec(v, j)
        &&& v.cols[v.col(j)].contains(j as usize)
        &&& linked_at(v.y, j)
    }
}

/// Taking a listed node out of its column keeps the structure well formed.
#[verifier::rlimit(40)]
pub proof fn lemma_detach_wf(v: MatView, j: int)
    requires
        v.wf_links(),
        v.nh() <= j < v.nn(),
        v.cols[v.col(j)].contains(j as usize),
    ensures
        detach_spec(v, j).wf_links(),
        linked_at(v.y, j),
        forall|h: int, k: usize|
            0 <= h < v.nh() ==> (#[trigger] detach_spec(v, j).cols[h].contains(k) <==> (v.cols[h].contains(k) && k
                != j)),
        detach_spec(v, j).nh() == v.nh(),
        detach_spec(v, j).nn() == v.nn(),
        detach_spec(v, j).size[v.col(j)] == v.size[v.col(j)] - 1,
        v.size[v.col(j)] >= 1,
        detach_spec(v, j).y[j] == v.y[j],
        forall|k: int| 0 <= k < v.nn() && v.col(k) != v.col(j) ==> #[trigger] detach_spec(v, j).y[k] == v.y[k],
{
    reveal(MatView::wf_shape);
    reveal(MatView::wf_cols);
    reveal(MatView::wf_hdr);
    reveal(MatView::wf_rows);
    let h = v.col(j);
    let w = detach_spec(v, j);
    assert(v.col_ok(h));
    let s = v.cols[h];
    lemma_pos_of(s, j as usize);
    let p = pos_of(s, j as usize);
    assert(p != 0) by {
        assert(s[0] == h);
        assert(h < v.nh());
    }
    lemma_ring_remove(v.y, s, p);
    crate::cover::lemma_closed_of_wf(v);
    lemma_closed_remove(v.y, v.c, j);
    assert(s.no_duplicates());
    assert forall|hh: int, k: usize| 0 <= hh < v.nh() implies (#[trigger] w.cols[hh].contains(k) <==> (v.cols[hh].contains(k) && k
        != j)) by {
        if hh == h {
            if w.cols[hh].contains(k) {
                let i = choose|i: int| 0 <= i < w.cols[hh].len() && w.cols[hh][i] == k;
                let ii = if i < p { i } else { i + 1 };
                assert(s[ii] == k);
                assert(ii != p);
            }
            if v.cols[hh].contains(k) && k != j {
                let i = choose|i: int| 0 <= i < s.len() && s[i] == k;
                assert(i != p);
                let i2 = if i < p { i } else { i - 1 };
                assert(w.cols[hh][i2] == k);
            }
        } else {
            if v.cols[hh].contains(j as usize) {
                let i = choose|i: int| 0 <= i < v.cols[hh].len() && v.cols[hh][i] == j as usize;
                assert(v.col_ok(hh));
                if i == 0 {
                    assert(j < v.nh());
                }
            }
        }
    }
    assert(w.wf_shape()) by {
        assert(1 <= w.nh() <= w.nn());
        assert(w.nn() + 3 < usize::MAX);
        assert(w.y.len() == w.nn());
        assert(links_in_bounds(w.x));
        assert(links_in_bounds(w.y));
        assert forall|k: int| 0 <= k < w.nn() implies #[trigger] w.col(k) < w.nh() by {
            assert(v.col(k) < v.nh());
        }
        assert forall|hh: int| 0 <= hh < w.nh() implies #[trigger] w.col(hh) == hh by {
            assert(v.col(hh) == hh);
        }
        assert(forall|k: int| w.nh() <= k < w.nn() ==> #[trigger] w.row_id[k] < w.rows.len());
        assert(forall|k: int| w.nh() <= k < w.nn() ==> #[trigger] w.c[k].0 >= 1);
    }
    assert(w.wf_hdr());
    assert(w.wf_rows()) by {
        assert forall|r: int| 0 <= r < w.rows.len() implies #[trigger] w.row_ok(r) by {
            assert(v.row_ok(r));
        }
    }
    assert(w.wf_cols()) by {
        assert forall|hh: int| 0 <= hh < w.nh() implies #[trigger] w.col_ok(hh) by {
            assert(v.col_ok(hh));
            if hh != h {
                assert forall|i: int| 0 <= i < v.cols[hh].len() implies w.y[#[trigger] v.cols[hh][i] as int] == v.y[
                    v.cols[hh][i] as int] by {
                    if i == 0 {
                        assert(v.col(hh) == hh);
                    }
                    assert(v.c[v.cols[hh][i] as int] != v.c[j]);
                }
                lemma_ring_frame(v.y, w.y, v.cols[hh]);
            } else {
                assert forall|i: int| 1 <= i < w.cols[hh].len() implies #[trigger] w.cols[hh][i] >= w.nh() && w.col(
                    w.cols[hh][i] as int) == hh by {
                    let ii = if i < p { i } else { i + 1 };
                    assert(s[ii] == w.cols[hh][i]);
                }
            }
        }
        assert forall|k: int| 0 <= k < w.nn() implies w.col(#[trigger] w.y[k].prev.0 as int) == w.col(k) && w.col(
            w.y[k].next.0 as int) == w.col(k) by {
        }
    }
    assert forall|k: int| 0 <= k < v.nn() && v.col(k) != v.col(j) implies #[trigger] detach_spec(v, j).y[k] == v.y[k] by {
        assert(v.c[k] != v.c[j]);
    }
}

/// Taking an active column header out of the header ring keeps the
/// structure well formed.
pub proof fn lemma_unlink_hdr_wf(v: MatView, h: int)
    requires
        v.wf_links(),
        0 < h < v.nh(),
        v.hdr.contains(h as usize),
    ensures
        unlink_hdr_spec(v, h).wf_links(),
        linked_at(v.x, h),
        unlink_hdr_spec(v, h).hdr.len() == v.hdr.len() - 1,
        forall|k: usize| #[trigger] unlink_hdr_spec(v, h).hdr.contains(k) <==> (v.hdr.contains(k) && k != h),
{
    reveal(MatView::wf_shape);
    reveal(MatView::wf_cols);
    reveal(MatView::wf_hdr);
    reveal(MatView::wf_rows);
    let w = unlink_hdr_spec(v, h);
    lemma_pos_of(v.hdr, h as usize);
    let hp = pos_of(v.hdr, h as usize);
    assert(hp != 0);
    lemma_ring_remove(v.x, v.hdr, hp);
    lemma_remove_values(v.x, h);
    assert(v.hdr[hp - 1] < v.nh());
    assert(crate::llist::succ(v.hdr, hp) < v.nh()) by {
        if hp + 1 < v.hdr.len() {
            assert(v.hdr[hp + 1] < v.nh());
        } else {
            assert(v.hdr[0] < v.nh());
        }
    }
    assert(w.wf_shape()) by {
        assert forall|k: int| 0 <= k < w.x.len() implies (#[trigger] w.x[k]).prev.0 < w.x.len() && w.x[k].next.0 < w.x.len() by {
            assert(v.x[k].prev.0 < v.x.len());
        }
        assert forall|k: int| 0 <= k < w.nn() implies #[trigger] w.col(k) < w.nh() by {
            assert(v.col(k) < v.nh());
        }
        assert forall|hh: int| 0 <= hh < w.nh() implies #[trigger] w.col(hh) == hh by {
            assert(v.col(hh) == hh);
        }
        assert forall|k: int| w.nh() <= k < w.nn() implies #[trigger] w.row_id[k] < w.rows.len() by {
            assert(v.row_id[k] < v.rows.len());
        }
        assert forall|k: int| w.nh() <= k < w.nn() implies #[trigger] w.c[k].0 >= 1 by {
            assert(v.c[k].0 >= 1);
        }
    }
    assert(w.wf_hdr()) by {
        assert forall|i: int| 0 <= i < w.hdr.len() implies #[trigger] w.hdr[i] < w.nh() by {
            let ii = if i < hp { i } else { i + 1 };
            assert(w.hdr[i] == v.hdr[ii]);
        }
    }
    assert(w.wf_rows()) by {
        assert forall|r: int| 0 <= r < w.rows.len() implies #[trigger] w.row_ok(r) by {
            assert(v.row_ok(r));
            let rr = v.rows[r];
            if rr.len() > 0 {
                assert forall|i: int| 0 <= i < rr.len() implies w.x[#[trigger] rr[i] as int] == v.x[rr[i] as int] by {
                    assert(v.nh() <= rr[i] < v.nn());
                }
                lemma_ring_frame(v.x, w.x, rr);
            }
        }
    }
    assert(w.wf_cols()) by {
        assert forall|hh: int| 0 <= hh < w.nh() implies #[trigger] w.col_ok(hh) by {
            assert(v.col_ok(hh));
        }
    }
    assert forall|k: usize| #[trigger] w.hdr.contains(k) <==> (v.hdr.contains(k) && k != h) by {
        if w.hdr.contains(k) {
            let i = choose|i: int| 0 <= i < w.hdr.len() && w.hdr[i] == k;
            let ii = if i < hp { i } else { i + 1 };
            assert(v.hdr[ii] == k);
            assert(ii != hp);
        }
        if v.hdr.contains(k) && k != h {
            let i = choose|i: int| 0 <= i < v.hdr.len() && v.hdr[i] == k;
            assert(i != hp);
            let i2 = if i < hp { i } else { i - 1 };
            assert(w.hdr[i2] == k);
        }
    }
}

/// `w` with header `h` relinked and the header ring described by `hdr`.
pub open spec fn relink_hdr_spec(w: MatView, h: int, hdr: Seq<usize>) -> MatView {
    MatView { x: restore_spec(w.x, h), hdr: hdr, ..w }
}

/// `w` with node `j` relinked into its column, counted again, and the
/// column rings described by `cols`.
pub open spec fn reattach_spec(w: MatView, j: int, cols: Seq<Seq<usize>>) -> MatView {
    MatView {
        y: restore_spec(w.y, j),
        size: w.size.update(w.col(j), (w.size[w.col(j)] + 1) as usize),
        cols: cols,
        ..w
    }
}

/// Undoing the last trail step gives back the state before it.
pub proof fn lemma_trail_undo(v: MatView, w: MatView, j: int, first: int)
    requires
        trail_step(v, w, j, first),
        first == v.nh(),
    ensures
        j < first ==> v == relink_hdr_spec(w, j, v.hdr),
        j >= first ==> v == reattach_spec(w, j, v.cols),
        j >= first ==> w.size[v.col(j)] + 1 == v.size[v.col(j)],
{
    if j < first {
        lemma_remove_restore(v.x, j);
    } else {
        lemma_remove_restore(v.y, j);
        reveal(MatView::wf_shape);
        reveal(MatView::wf_cols);
        assert(v.col_ok(v.col(j)));
        lemma_pos_of(v.cols[v.col(j)], j as usize);
        assert(v.cols[v.col(j)].len() >= 2) by {
            assert(v.cols[v.col(j)][0] == v.col(j));
            assert(v.col(j) < v.nh());
        }
        assert(w.size =~= v.size.update(v.col(j), (v.size[v.col(j)] - 1) as usize));
        assert(w.size.update(v.col(j), (w.size[v.col(j)] + 1) as usize) =~= v.size);
    }
}

// ---------------------------------------------------------------- solver

/// The labels 0..n, each its own region.
pub open spec fn id_labels(n: int) -> Seq<usize> {
    Seq::new(n as nat, |i: int| i as usize)
}

/// In the identity label list, label `l` sits at position `l`.
pub proof fn lemma_id_labels(n: int, l: usize)
    requires
        l < n,
        n <= usize::MAX,
    ensures
        id_labels(n).contains(l),
        pos_of(id_labels(n), l) == l,
        id_labels(n).no_duplicates(),
        id_labels(n).len() == n,
{
    let s = id_labels(n);
    assert(s[l as int] == l);
    assert(s.no_duplicates()) by {
        assert forall|i: int, j: int| 0 <= i < s.len() && 0 <= j < s.len() && i != j implies s[i] != s[j] by {}
    }
    lemma_pos_of(s, l);
}

/// Step `i` of the trail.
pub open spec fn hist_step(hist: Seq<MatView>, trail: Seq<Cell>, i: int, first: int) -> bool {
    trail_step(hist[i], hist[i + 1], trail[i].0 as int, first)
}

/// Exact cover with multiplicities (Knuth's Algorithm M) over the
/// dancing-links `Matrix`: every column (board row, board column,
/// region) must be covered exactly `k` times by the chosen options (one
/// option per cell), with no two chosen cells touching.
pub struct DoubleSolver {
    m: Matrix,
    n: usize,
    /// Id of the first option node (= 3n + 1).
    first: usize,
    /// Per column: bulls it still needs.
    need: Vec<usize>,
    /// Per node: currently linked into its vertical list.
    attached: Vec<bool>,
    /// Per cell: how many placed bulls have it in their 3x3 neighborhood.
    blocked: Vec<u32>,
    /// Undo trail: nodes detached from y lists (and column headers removed
    /// from the x list, told apart by id < first), in order.
    trail: Vec<Cell>,
    /// Stop searching after this many solutions.
    max_sols: usize,
    /// A known solution (sorted) that doesn't count when found.
    skip: Option<Vec<Pos>>,
    /// Remaining work budget for the current solve call.
    steps: usize,
    /// Whether the current search spends `steps` (else it runs to the end).
    bounded: bool,
    /// Bulls per row, column and region.
    k: Ghost<nat>,
    /// The board.
    grid: Ghost<Seq<Vec<usize>>>,
    /// The matrix after each trail prefix.
    hist: Ghost<Seq<MatView>>,
    /// The options placed on the current search path.
    placed: Ghost<Seq<usize>>,
}

impl DoubleSolver {
    /// Structure of the links: well formed, laid out for the board, the
    /// `attached` flags mirror the column rings, and the trail replays the
    /// recorded states.
    pub closed spec fn links_ok(&self) -> bool {
        let v = self.m@;
        let n = self.n as int;
        let g = self.grid@;
        &&& v.wf_links()
        &&& n <= MAX_SIDE
        &&& g.len() == n
        &&& is_square(g)
        &&& forall|r: int, c: int| 0 <= r < n && 0 <= c < n ==> #[trigger] label(g, r, c) < n
        &&& self.first == first_node(n)
        &&& board_layout(v, g, id_labels(n))
        &&& self.attached@.len() == v.nn()
        &&& forall|k: int| 0 <= k < v.nh() ==> #[trigger] self.attached@[k]
        &&& forall|k: int| v.nh() <= k < v.nn() ==> (#[trigger] self.attached@[k] <==> v.cols[v.col(k)].contains(k as usize))
        &&& self.hist@.len() == self.trail@.len() + 1
        &&& self.hist@[self.trail@.len() as int] == v
        &&& forall|i: int| 0 <= i < self.trail@.len() ==> #[trigger] hist_step(self.hist@, self.trail@, i, self.first as int)
        &&& forall|i: int|
            0 <= i < self.hist@.len() ==> {
                &&& (#[trigger] self.hist@[i]).rows == v.rows
                &&& self.hist@[i].c == v.c
                &&& self.hist@[i].row_id == v.row_id
                &&& self.hist@[i].row_count == v.row_count
                &&& self.hist@[i].nh() == v.nh()
                &&& self.hist@[i].nn() == v.nn()
            }
    }

    /// Detach node j from its column's vertical list, recording it on
    /// the trail so `undo_to` can relink it later.
    fn detach(&mut self, j: Cell)
        requires
            old(self).links_ok(),
            old(self).first <= j.0 < old(self).m@.nn(),
            old(self).attached@[j.0 as int],
        ensures
            final(self).links_ok(),
            final(self).m@ == detach_spec(old(self).m@, j.0 as int),
            final(self).attached@ == old(self).attached@.update(j.0 as int, false),
            final(self).trail@ == old(self).trail@.push(j),
            final(self).hist@ == old(self).hist@.push(final(self).m@),
            final(self).n == old(self).n,
            final(self).first == old(self).first,
            final(self).need == old(self).need,
            final(self).blocked == old(self).blocked,
            final(self).max_sols == old(self).max_sols,
            final(self).skip == old(self).skip,
            final(self).steps == old(self).steps,
            final(self).bounded == old(self).bounded,
            final(self).k == old(self).k,
            final(self).grid == old(self).grid,
            final(self).placed == old(self).placed,
    {
        let ghost v = self.m@;
        let ghost jj = j.0 as int;
        proof {
            lemma_detach_wf(v, jj);
            reveal(MatView::wf_shape);
        }
        self.attached.set(j.0, false);
        self.m.y.remove(j);
        let h = self.m.c[j.0];
        let s = self.m.size[h.0];
        self.m.size.set(h.0, s - 1);
        proof {
            self.m.cols@ = v.cols.update(v.col(jj), v.cols[v.col(jj)].remove(pos_of(v.cols[v.col(jj)], j.0)));
            assert(self.m@ =~= detach_spec(v, jj));
        }
        self.trail.push(j);
        proof {
            let w = self.m@;
            let t0 = old(self).trail@;
            let h0 = old(self).hist@;
            self.hist@ = h0.push(w);
            assert forall|i: int| 0 <= i < self.trail@.len() implies #[trigger] hist_step(self.hist@, self.trail@, i, self.first as int) by {
                if i < t0.len() {
                    assert(hist_step(h0, t0, i, self.first as int));
                    assert(self.hist@[i] == h0[i]);
                    assert(self.hist@[i + 1] == h0[i + 1]);
                } else {
                    assert(self.hist@[i] == v);
                    assert(self.hist@[i + 1] == w);
                }
            }
            assert forall|k: int| w.nh() <= k < w.nn() implies (#[trigger] self.attached@[k] <==> w.cols[w.col(k)].contains(k as usize)) by {
                assert(w.col(k) == v.col(k));
                assert(v.col(k) < v.nh());
            }
            assert(board_layout(w, self.grid@, id_labels(self.n as int))) by {
                crate::solver::lemma_layout_frame(v, w, self.grid@, id_labels(self.n as int));
            }
        }
    }

    /// Undo every detach/de-list since the trail was `mark` entries long.
    /// Popping restores in exact reverse order, which is what
    /// dancing-links relinking requires.
    fn undo_to(&mut self, mark: usize)
        requires
            old(self).links_ok(),
            mark <= old(self).trail@.len(),
        ensures
            final(self).links_ok(),
            final(self).m@ == old(self).hist@[mark as int],
            final(self).trail@ == old(self).trail@.take(mark as int),
            final(self).hist@ == old(self).hist@.take(mark as int + 1),
            final(self).n == old(self).n,
            final(self).first == old(self).first,
            final(self).need == old(self).need,
            final(self).blocked == old(self).blocked,
            final(self).max_sols == old(self).max_sols,
            final(self).skip == old(self).skip,
            final(self).steps == old(self).steps,
            final(self).bounded == old(self).bounded,
            final(self).k == old(self).k,
            final(self).grid == old(self).grid,
            final(self).placed == old(self).placed,
    {
        proof {
            assert(self.hist@ =~= old(self).hist@.take(self.trail@.len() as int + 1));
            assert(self.trail@ =~= old(self).trail@.take(self.trail@.len() as int));
        }
        while self.trail.len() > mark
            invariant
                self.links_ok(),
                mark <= self.trail@.len() <= old(self).trail@.len(),
                self.trail@ == old(self).trail@.take(self.trail@.len() as int),
                self.hist@ == old(self).hist@.take(self.trail@.len() as int + 1),
                self.n == old(self).n,
                self.first == old(self).first,
                self.need == old(self).need,
                self.blocked == old(self).blocked,
                self.max_sols == old(self).max_sols,
                self.skip == old(self).skip,
                self.steps == old(self).steps,
                self.bounded == old(self).bounded,
                self.k == old(self).k,
                self.grid == old(self).grid,
                self.placed == old(self).placed,
                old(self).hist@.len() == old(self).trail@.len() + 1,
            decreases self.trail@.len(),
        {
            let ghost L = self.trail@.len() as int;
            let ghost hs = self.hist@;
            let ghost ts = self.trail@;
            let ghost w = self.m@;
            let ghost v = hs[L - 1];
            let ghost att0 = self.attached@;
            let j = self.trail.pop().unwrap();
            let ghost jj = j.0 as int;
            proof {
                assert(hist_step(hs, ts, L - 1, self.first as int));
                assert(hs[L] == w);
                assert(trail_step(v, w, jj, self.first as int));
                lemma_trail_undo(v, w, jj, self.first as int);
                reveal(MatView::wf_shape);
                assert(v.rows == w.rows && v.c == w.c && v.nh() == w.nh() && v.nn() == w.nn());
            }
            if j.0 < self.first {
                // column header back into the x list
                self.m.x.restore(j);
                proof {
                    self.m.hdr@ = v.hdr;
                    assert(self.m@ =~= relink_hdr_spec(w, jj, v.hdr));
                }
            } else {
                self.attached.set(j.0, true);
                self.m.y.restore(j);
                let h = self.m.c[j.0];
                let s = self.m.size[h.0];
                proof {
                    assert(w.col(jj) == v.col(jj));
                    assert(s + 1 == v.size[v.col(jj)]);
                    assert(v.size[v.col(jj)] <= v.nn()) by {
                        reveal(MatView::wf_cols);
                        assert(v.col_ok(v.col(jj)));
                    }
                }
                self.m.size.set(h.0, s + 1);
                proof {
                    self.m.cols@ = v.cols;
                    assert(self.m@ =~= reattach_spec(w, jj, v.cols));
                }
            }
            proof {
                assert(self.m@ == v);
                self.hist@ = hs.take(L);
                assert(self.trail@ =~= ts.take(L - 1));
                assert(self.trail@ == old(self).trail@.take(self.trail@.len() as int)) by {
                    assert(old(self).trail@.take(self.trail@.len() as int) =~= ts.take(L - 1));
                }
                assert(self.hist@ =~= old(self).hist@.take(self.trail@.len() as int + 1));
                assert forall|i: int| 0 <= i < self.trail@.len() implies #[trigger] hist_step(self.hist@, self.trail@, i, self.first as int) by {
                    assert(hist_step(hs, ts, i, self.first as int));
                }
                if jj >= self.first {
                    lemma_detach_wf(v, jj);
                    assert forall|k: int| v.nh() <= k < v.nn() implies (#[trigger] self.attached@[k] <==> v.cols[v.col(k)].contains(
                        k as usize)) by {
                        assert(v.col(k) < v.nh());
                        if k != jj {
                            assert(att0[k] <==> w.cols[w.col(k)].contains(k as usize));
                        }
                    }
                    assert forall|k: int| 0 <= k < v.nh() implies #[trigger] self.attached@[k] by {
                        assert(att0[k]);
                    }
                } else {
                    assert forall|k: int| v.nh() <= k < v.nn() implies (#[trigger] self.attached@[k] <==> v.cols[v.col(k)].contains(
                        k as usize)) by {
                        assert(att0[k] <==> w.cols[w.col(k)].contains(k as usize));
                    }
                }
                assert(board_layout(v, self.grid@, id_labels(self.n as int))) by {
                    crate::solver::lemma_layout_frame(w, v, self.grid@, id_labels(self.n as int));
                }
                assert forall|i: int| 0 <= i < self.hist@.len() implies {
                    &&& (#[trigger] self.hist@[i]).rows == v.rows
                    &&& self.hist@[i].c == v.c
                    &&& self.hist@[i].row_id == v.row_id
                    &&& self.hist@[i].row_count == v.row_count
                    &&& self.hist@[i].nh() == v.nh()
                    &&& self.hist@[i].nn() == v.nn()
                } by {
                    assert(self.hist@[i] == hs[i]);
                }
            }
        }
        proof {
            assert(old(self).trail@.take(mark as int) =~= self.trail@);
            assert(self.hist@.len() == mark + 1);
            assert(self.m@ == self.hist@[mark as int]);
        }
    }
}

/// The three nodes of option `o` are ids `first + 3o + t`, all in row `o`,
/// and they are the only nodes of row `o`.
pub proof fn lemma_option_nodes(v: MatView, g: Seq<Vec<usize>>, o: int)
    requires
        board_layout(v, g, id_labels(g.len() as int)),
        v.wf_links(),
        0 < g.len() <= MAX_SIDE,
        0 <= o < g.len() * g.len(),
    ensures
        ({
            let f = first_node(g.len() as int);
            &&& v.nh() <= f + 3 * o
            &&& f + 3 * o + 2 < v.nn()
            &&& v.row_id[f + 3 * o] == o
            &&& v.row_id[f + 3 * o + 1] == o
            &&& v.row_id[f + 3 * o + 2] == o
            &&& v.rows[o] == seq![(f + 3 * o) as usize, (f + 3 * o + 1) as usize, (f + 3 * o + 2) as usize]
            &&& 1 <= v.col(f + 3 * o) < v.nh()
            &&& 1 <= v.col(f + 3 * o + 1) < v.nh()
            &&& 1 <= v.col(f + 3 * o + 2) < v.nh()
            &&& forall|k: int| v.nh() <= k < v.nn() && v.row_id[k] == o ==> k == f + 3 * o || k == f + 3 * o + 1 || k == f + 3
                * o + 2
            &&& v.col(f + 3 * o) != v.col(f + 3 * o + 1)
            &&& v.col(f + 3 * o) != v.col(f + 3 * o + 2)
            &&& v.col(f + 3 * o + 1) != v.col(f + 3 * o + 2)
            &&& f + 3 * o + 2 < usize::MAX
        }),
{
    let n = g.len() as int;
    let f = first_node(n);
    crate::solver::lemma_row_columns(v, g, id_labels(n), o);
    reveal(MatView::wf_rows);
    reveal(MatView::wf_shape);
    assert(v.row_ok(o)) by {
        assert(v.rows.len() == n * n);
    }
    assert(v.rows[o][0] == f + 3 * o);
    assert(v.rows[o][1] == f + 3 * o + 1);
    assert(v.rows[o][2] == f + 3 * o + 2);
    assert(v.row_id[v.rows[o][0] as int] == o);
    assert(v.row_id[v.rows[o][1] as int] == o);
    assert(v.row_id[v.rows[o][2] as int] == o);
    assert(1 <= v.col(v.rows[o][0] as int) < v.nh());
    assert(1 <= v.col(v.rows[o][1] as int) < v.nh());
    assert(1 <= v.col(v.rows[o][2] as int) < v.nh());
    assert(v.nh() <= v.rows[o][0] < v.nn());
    assert(v.nh() <= v.rows[o][2] < v.nn());
    assert forall|k: int| v.nh() <= k < v.nn() && v.row_id[k] == o implies k == f + 3 * o || k == f + 3 * o + 1 || k == f + 3
        * o + 2 by {
        assert(v.rows[v.row_id[k] as int].contains(k as usize));
    }
}

impl DoubleSolver {
    /// The three nodes of option o, one per covered column.
    fn nodes(&self, o: usize) -> (r: [Cell; 3])
        requires
            self.links_ok(),
            o < self.n * self.n,
        ensures
            r@[0].0 == self.first + 3 * o,
            r@[1].0 == self.first + 3 * o + 1,
            r@[2].0 == self.first + 3 * o + 2,
    {
        proof {
            assert(0 < self.n) by (nonlinear_arith)
                requires
                    o < self.n * self.n,
            ;
            lemma_option_nodes(self.m@, self.grid@, o as int);
        }
        let base = self.first + 3 * o;
        [Cell(base), Cell(base + 1), Cell(base + 2)]
    }

    /// Column h is saturated: remove it from the header list and hide all
    /// its remaining options from the other columns' lists.
    #[verifier::rlimit(60)]
    fn cover(&mut self, h: Cell)
        requires
            old(self).links_ok(),
            0 < h.0 < old(self).m@.nh(),
            old(self).m@.hdr.contains(h.0),
        ensures
            final(self).links_ok(),
            forall|x: usize| #[trigger] final(self).m@.hdr.contains(x) <==> (old(self).m@.hdr.contains(x) && x != h.0),
            final(self).m@.hdr.len() == old(self).m@.hdr.len() - 1,
            final(self).m@.cols[h.0 as int] == old(self).m@.cols[h.0 as int],
            forall|k: int|
                old(self).m@.nh() <= k < old(self).m@.nn() ==> (#[trigger] final(self).attached@[k] <==> (old(self).attached@[k]
                    && !(old(self).m@.col(k) != h.0 && from_rows(
                    old(self).m@,
                    h.0 as int,
                    old(self).m@.cols[h.0 as int].len() - 1,
                    k as usize,
                )))),
            old(self).trail@.len() < final(self).trail@.len(),
            final(self).trail@.take(old(self).trail@.len() as int) == old(self).trail@,
            final(self).hist@.take(old(self).hist@.len() as int) == old(self).hist@,
            final(self).n == old(self).n,
            final(self).first == old(self).first,
            final(self).need == old(self).need,
            final(self).blocked == old(self).blocked,
            final(self).max_sols == old(self).max_sols,
            final(self).skip == old(self).skip,
            final(self).steps == old(self).steps,
            final(self).bounded == old(self).bounded,
            final(self).k == old(self).k,
            final(self).grid == old(self).grid,
            final(self).placed == old(self).placed,
    {
        let ghost v0 = self.m@;
        let ghost hi = h.0 as int;
        let ghost g = self.grid@;
        let ghost n = self.n as int;
        proof {
            assert(0 < n) by {
                crate::solver::lemma_layout_frame(v0, v0, g, id_labels(n));
                assert(v0.nh() == 3 * n + 1);
            }
            lemma_unlink_hdr_wf(v0, hi);
            reveal(MatView::wf_shape);
        }
        self.trail.push(h);
        self.m.x.remove(h);
        proof {
            self.m.hdr@ = v0.hdr.remove(pos_of(v0.hdr, h.0));
            let w = self.m@;
            assert(w =~= unlink_hdr_spec(v0, hi));
            let t0 = old(self).trail@;
            let h0 = old(self).hist@;
            self.hist@ = h0.push(w);
            assert forall|i: int| 0 <= i < self.trail@.len() implies #[trigger] hist_step(self.hist@, self.trail@, i, self.first as int) by {
                if i < t0.len() {
                    assert(hist_step(h0, t0, i, self.first as int));
                    assert(self.hist@[i] == h0[i]);
                    assert(self.hist@[i + 1] == h0[i + 1]);
                } else {
                    assert(self.hist@[i] == v0);
                    assert(self.hist@[i + 1] == w);
                    assert(h.0 < self.first);
                }
            }
            assert(board_layout(w, g, id_labels(n))) by {
                crate::solver::lemma_layout_frame(v0, w, g, id_labels(n));
            }
            assert(self.trail@.take(t0.len() as int) =~= t0);
            assert(self.hist@.take(h0.len() as int) =~= h0);
            crate::cover::lemma_col_members(v0, hi);
        }
        let ghost col0 = v0.cols[hi];
        let ghost att_start = self.attached@;
        let ghost mut tt: int = 0;
        let mut i = self.m.y.cursor(h);
        loop
            invariant_except_break
                i.curr() == col0[tt],
            invariant
                self.links_ok(),
                i.head() == h.0,
                0 <= tt < col0.len(),
                col0 == v0.cols[hi],
                col0[0] == hi,
                old(self).hist@.len() == old(self).trail@.len() + 1,
                v0.wf_links(),
                board_layout(v0, g, id_labels(n)),
                0 < hi < v0.nh(),
                hi == h.0,
                g == self.grid@,
                n == self.n,
                self.m@.cols[hi] == col0,
                forall|t: int| 0 <= t < col0.len() ==> self.m@.y[#[trigger] col0[t] as int] == v0.y[col0[t] as int],
                forall|t: int| 1 <= t < col0.len() ==> v0.nh() <= #[trigger] col0[t] < v0.nn() && v0.col(col0[t] as int) == hi,
                ring_ok(v0.y, col0),
                self.m@.rows == v0.rows,
                self.m@.c == v0.c,
                self.m@.row_id == v0.row_id,
                self.m@.nh() == v0.nh(),
                self.m@.nn() == v0.nn(),
                forall|x: usize| #[trigger] self.m@.hdr.contains(x) <==> (v0.hdr.contains(x) && x != h.0),
                self.m@.hdr.len() == v0.hdr.len() - 1,
                forall|k: int|
                    v0.nh() <= k < v0.nn() ==> (#[trigger] self.attached@[k] <==> (att_start[k] && !(v0.col(k) != hi && from_rows(
                        v0,
                        hi,
                        tt,
                        k as usize,
                    )))),
                att_start.len() == v0.nn(),
                forall|k: int| v0.nh() <= k < v0.nn() ==> (#[trigger] att_start[k] <==> v0.cols[v0.col(k)].contains(k as usize)),
                old(self).trail@.len() < self.trail@.len(),
                self.trail@.take(old(self).trail@.len() as int) == old(self).trail@,
                self.hist@.take(old(self).hist@.len() as int) == old(self).hist@,
                self.n == old(self).n,
                self.first == old(self).first,
                self.need == old(self).need,
                self.blocked == old(self).blocked,
                self.max_sols == old(self).max_sols,
                self.skip == old(self).skip,
                self.steps == old(self).steps,
                self.bounded == old(self).bounded,
                self.k == old(self).k,
                self.grid == old(self).grid,
                self.placed == old(self).placed,
            ensures
                self.links_ok(),
                tt == col0.len() - 1,
                self.m@.cols[hi] == col0,
                forall|x: usize| #[trigger] self.m@.hdr.contains(x) <==> (v0.hdr.contains(x) && x != h.0),
                self.m@.hdr.len() == v0.hdr.len() - 1,
                forall|k: int|
                    v0.nh() <= k < v0.nn() ==> (#[trigger] self.attached@[k] <==> (att_start[k] && !(v0.col(k) != hi && from_rows(
                        v0,
                        hi,
                        tt,
                        k as usize,
                    )))),
                old(self).trail@.len() < self.trail@.len(),
                self.trail@.take(old(self).trail@.len() as int) == old(self).trail@,
                self.hist@.take(old(self).hist@.len() as int) == old(self).hist@,
                self.n == old(self).n,
                self.first == old(self).first,
                self.need == old(self).need,
                self.blocked == old(self).blocked,
                self.max_sols == old(self).max_sols,
                self.skip == old(self).skip,
                self.steps == old(self).steps,
                self.bounded == old(self).bounded,
                self.k == old(self).k,
                self.grid == old(self).grid,
                self.placed == old(self).placed,
            decreases col0.len() - tt,
        {
            proof {
                assert(self.m@.y[col0[tt] as int] == v0.y[col0[tt] as int]);
                assert(v0.y[col0[tt] as int].next.0 == crate::llist::succ(col0, tt));
                reveal(MatView::wf_shape);
            }
            let nx = i.next(&self.m.y);
            let ii = match nx {
                None => {
                    proof {
                        if tt + 1 < col0.len() {
                            assert(col0[tt + 1] != col0[0]);
                        }
                    }
                    break;
                },
                Some(ii) => ii,
            };
            let ghost att1 = self.attached@;
            proof {
                if tt + 1 == col0.len() {
                    assert(crate::llist::succ(col0, tt) == col0[0]);
                }
                assert(tt + 1 < col0.len());
                assert(ii.0 == col0[tt + 1]);
                assert(v0.nh() <= ii.0 < v0.nn());
                crate::cover::lemma_in_own_row(v0, ii.0 as int);
                assert(v0.rows.len() == n * n);
            }
            let o = self.m.row_id[ii.0];
            let ns = self.nodes(o);
            proof {
                lemma_option_nodes(v0, g, o as int);
                assert(ii.0 == ns@[0].0 || ii.0 == ns@[1].0 || ii.0 == ns@[2].0);
            }
            let mut t: usize = 0;
            while t < 3
                invariant
                    0 <= t <= 3,
                    self.links_ok(),
                    ns@[0].0 == self.first + 3 * o,
                    ns@[1].0 == self.first + 3 * o + 1,
                    ns@[2].0 == self.first + 3 * o + 2,
                    o == v0.row_id[ii.0 as int],
                    o < n * n,
                    col0[0] == hi,
                    0 < hi < v0.nh(),
                    old(self).hist@.len() == old(self).trail@.len() + 1,
                    v0.wf_links(),
                    board_layout(v0, g, id_labels(n)),
                    ii.0 == ns@[0].0 || ii.0 == ns@[1].0 || ii.0 == ns@[2].0,
                    v0.nh() <= ii.0 < v0.nn(),
                    v0.col(ii.0 as int) == hi,
                    ii.0 == col0[tt + 1],
                    self.first == first_node(n),
                    g == self.grid@,
                    n == self.n,
                    0 < n <= MAX_SIDE,
                    self.m@.cols[hi] == col0,
                    forall|t2: int| 0 <= t2 < col0.len() ==> self.m@.y[#[trigger] col0[t2] as int] == v0.y[col0[t2] as int],
                    forall|t2: int| 1 <= t2 < col0.len() ==> v0.nh() <= #[trigger] col0[t2] < v0.nn() && v0.col(col0[t2] as int) == hi,
                    self.m@.rows == v0.rows,
                    self.m@.c == v0.c,
                    self.m@.row_id == v0.row_id,
                    self.m@.nh() == v0.nh(),
                    self.m@.nn() == v0.nn(),
                    forall|x: usize| #[trigger] self.m@.hdr.contains(x) <==> (v0.hdr.contains(x) && x != h.0),
                    self.m@.hdr.len() == v0.hdr.len() - 1,
                    forall|k: int|
                        v0.nh() <= k < v0.nn() ==> (#[trigger] self.attached@[k] <==> (att1[k] && !(v0.row_id[k] == o && k != ii.0
                            && (k == ns@[0].0 && 0 < t || k == ns@[1].0 && 1 < t || k == ns@[2].0 && 2 < t)))),
                    att1.len() == v0.nn(),
                    old(self).trail@.len() < self.trail@.len(),
                    self.trail@.take(old(self).trail@.len() as int) == old(self).trail@,
                    self.hist@.take(old(self).hist@.len() as int) == old(self).hist@,
                    self.n == old(self).n,
                    self.first == old(self).first,
                    self.need == old(self).need,
                    self.blocked == old(self).blocked,
                    self.max_sols == old(self).max_sols,
                    self.skip == old(self).skip,
                    self.steps == old(self).steps,
                    self.bounded == old(self).bounded,
                    self.k == old(self).k,
                    self.grid == old(self).grid,
                    self.placed == old(self).placed,
                decreases 3 - t,
            {
                let j = ns[t];
                proof {
                    lemma_option_nodes(v0, g, o as int);
                    assert(j.0 == self.first + 3 * o + t);
                }
                // adjacency hiding may have beaten us to a sibling
                if j.0 != ii.0 && self.attached[j.0] {
                    let ghost s0 = self.m@;
                    let ghost tr0 = self.trail@;
                    let ghost hs0 = self.hist@;
                    self.detach(j);
                    proof {
                        assert(s0.c == v0.c);
                        assert(s0.nn() == v0.nn());
                        lemma_detach_wf(s0, j.0 as int);
                        let f = first_node(n);
                        assert(v0.col(ii.0 as int) == hi);
                        assert(j.0 as int == f + 3 * o + t);
                        assert(v0.col(j.0 as int) != hi) by {
                            if t == 0 {
                                assert(j.0 == ns@[0].0);
                            } else if t == 1 {
                                assert(j.0 == ns@[1].0);
                            } else {
                                assert(j.0 == ns@[2].0);
                            }
                        }
                        assert forall|t2: int| 0 <= t2 < col0.len() implies self.m@.y[#[trigger] col0[t2] as int] == v0.y[col0[t2] as int] by {
                            if t2 == 0 {
                                assert(v0.col(hi) == hi) by {
                                    reveal(MatView::wf_shape);
                                }
                                assert(hi < v0.nn()) by {
                                    reveal(MatView::wf_shape);
                                }
                            } else {
                                assert(v0.col(col0[t2] as int) == hi);
                            }
                            assert(s0.col(col0[t2] as int) != s0.col(j.0 as int));
                            assert(col0[t2] < s0.nn());
                            assert(s0.y[col0[t2] as int] == v0.y[col0[t2] as int]);
                        }
                        assert(self.m@.cols[hi] == col0) by {
                            reveal(MatView::wf_cols);
                            assert(s0.cols.len() == s0.nh());
                            assert(s0.col(j.0 as int) != hi);
                            assert(self.m@.cols == s0.cols.update(s0.col(j.0 as int), s0.cols[s0.col(j.0 as int)].remove(
                                pos_of(s0.cols[s0.col(j.0 as int)], j.0))));
                            assert(0 <= hi < s0.cols.len());
                            assert(s0.cols[hi] == col0);
                            assert(self.m@.cols[hi] == s0.cols[hi]);
                        }
                        assert(self.trail@.take(old(self).trail@.len() as int) =~= old(self).trail@) by {
                            assert(tr0.take(old(self).trail@.len() as int) == old(self).trail@);
                        }
                        assert(self.hist@.take(old(self).hist@.len() as int) =~= old(self).hist@) by {
                            assert(hs0.take(old(self).hist@.len() as int) == old(self).hist@);
                            assert(hs0.len() == tr0.len() + 1);
                            assert(old(self).hist@.len() == old(self).trail@.len() + 1);
                            assert(self.hist@ == hs0.push(self.m@));
                        }
                    }
                }
                t = t + 1;
            }
            proof {
                lemma_option_nodes(v0, g, o as int);
                let tt0 = tt;
                tt = tt + 1;
                assert forall|k: int|
                    v0.nh() <= k < v0.nn() implies (#[trigger] self.attached@[k] <==> (att_start[k] && !(v0.col(k) != hi
                        && from_rows(v0, hi, tt, k as usize)))) by {
                    if from_rows(v0, hi, tt, k as usize) && !from_rows(v0, hi, tt0, k as usize) {
                        let t2 = choose|t2: int| 1 <= t2 <= tt && #[trigger] v0.row_id[v0.cols[hi][t2] as int] == v0.row_id[k];
                        assert(t2 == tt);
                    }
                    if v0.row_id[k] == o {
                        assert(from_rows(v0, hi, tt, k as usize)) by {
                            assert(v0.row_id[v0.cols[hi][tt] as int] == v0.row_id[k]);
                        }
                        if k == ii.0 {
                            assert(v0.col(k) == hi);
                        }
                    }
                    if from_rows(v0, hi, tt0, k as usize) {
                        let t2 = choose|t2: int| 1 <= t2 <= tt0 && #[trigger] v0.row_id[v0.cols[hi][t2] as int] == v0.row_id[k];
                        assert(1 <= t2 <= tt);
                        assert(v0.row_id[v0.cols[hi][t2] as int] == v0.row_id[k]);
                    }
                }
            }
        }
    }
}

/// Cell `q` is in the 3x3 neighbourhood of cell `o`, `o` itself excluded.
pub open spec fn around(n: int, o: int, q: int) -> bool {
    &&& q != o
    &&& 0 <= q < n * n
    &&& touching(cell_of(n, o), cell_of(n, q))
}

/// Cell `q` comes before row `ny`, or in row `ny` before column `nx`.
pub open spec fn scanned(n: int, q: int, ny: int, nx: int) -> bool {
    q / n < ny || (q / n == ny && q % n < nx)
}

impl DoubleSolver {
    /// Detach every still-attached node of option `q`.
    fn hide_option(&mut self, q: usize)
        requires
            old(self).links_ok(),
            q < old(self).n * old(self).n,
        ensures
            final(self).links_ok(),
            final(self).m@.hdr == old(self).m@.hdr,
            forall|k: int|
                old(self).m@.nh() <= k < old(self).m@.nn() ==> (#[trigger] final(self).attached@[k] <==> (old(
                    self,
                ).attached@[k] && old(self).m@.row_id[k] != q)),
            old(self).trail@.len() <= final(self).trail@.len(),
            final(self).trail@.take(old(self).trail@.len() as int) == old(self).trail@,
            final(self).hist@.take(old(self).hist@.len() as int) == old(self).hist@,
            final(self).m@.rows == old(self).m@.rows,
            final(self).m@.c == old(self).m@.c,
            final(self).m@.row_id == old(self).m@.row_id,
            final(self).m@.nh() == old(self).m@.nh(),
            final(self).m@.nn() == old(self).m@.nn(),
            final(self).n == old(self).n,
            final(self).first == old(self).first,
            final(self).need == old(self).need,
            final(self).blocked == old(self).blocked,
            final(self).max_sols == old(self).max_sols,
            final(self).skip == old(self).skip,
            final(self).steps == old(self).steps,
            final(self).bounded == old(self).bounded,
            final(self).k == old(self).k,
            final(self).grid == old(self).grid,
            final(self).placed == old(self).placed,
    {
        let ghost v0 = self.m@;
        let ghost g = self.grid@;
        let ghost n = self.n as int;
        let ghost att0 = self.attached@;
        proof {
            assert(0 < n) by (nonlinear_arith)
                requires
                    q < n * n,
                    0 <= n,
            ;
        }
        let ns = self.nodes(q);
        proof {
            lemma_option_nodes(v0, g, q as int);
            assert(self.hist@.take(self.hist@.len() as int) =~= self.hist@);
            assert(self.trail@.take(self.trail@.len() as int) =~= self.trail@);
        }
        let mut t: usize = 0;
        while t < 3
            invariant
                0 <= t <= 3,
                self.links_ok(),
                ns@[0].0 == self.first + 3 * q,
                ns@[1].0 == self.first + 3 * q + 1,
                ns@[2].0 == self.first + 3 * q + 2,
                q < n * n,
                v0.wf_links(),
                board_layout(v0, g, id_labels(n)),
                g == self.grid@,
                n == self.n,
                0 < n <= MAX_SIDE,
                self.first == first_node(n),
                self.m@.hdr == v0.hdr,
                self.m@.rows == v0.rows,
                self.m@.c == v0.c,
                self.m@.row_id == v0.row_id,
                self.m@.nh() == v0.nh(),
                self.m@.nn() == v0.nn(),
                att0.len() == v0.nn(),
                forall|k: int|
                    v0.nh() <= k < v0.nn() ==> (#[trigger] self.attached@[k] <==> (att0[k] && !(v0.row_id[k] == q && (k
                        == ns@[0].0 && 0 < t || k == ns@[1].0 && 1 < t || k == ns@[2].0 && 2 < t)))),
                old(self).hist@.len() == old(self).trail@.len() + 1,
                old(self).trail@.len() <= self.trail@.len(),
                self.trail@.take(old(self).trail@.len() as int) == old(self).trail@,
                self.hist@.take(old(self).hist@.len() as int) == old(self).hist@,
                self.n == old(self).n,
                self.first == old(self).first,
                self.need == old(self).need,
                self.blocked == old(self).blocked,
                self.max_sols == old(self).max_sols,
                self.skip == old(self).skip,
                self.steps == old(self).steps,
                self.bounded == old(self).bounded,
                self.k == old(self).k,
                self.grid == old(self).grid,
                self.placed == old(self).placed,
            decreases 3 - t,
        {
            let j = ns[t];
            proof {
                lemma_option_nodes(v0, g, q as int);
            }
            let ghost att_t = self.attached@;
            proof {
                assert(j == ns@[t as int]);
                assert(v0.row_id[j.0 as int] == q) by {
                    if t == 0 {
                    } else if t == 1 {
                    } else {
                    }
                }
            }
            if self.attached[j.0] {
                let ghost tr0 = self.trail@;
                let ghost hs0 = self.hist@;
                self.detach(j);
                proof {
                    assert(self.trail@.take(old(self).trail@.len() as int) =~= old(self).trail@) by {
                        assert(tr0.take(old(self).trail@.len() as int) == old(self).trail@);
                    }
                    assert(self.hist@.take(old(self).hist@.len() as int) =~= old(self).hist@) by {
                        assert(hs0.take(old(self).hist@.len() as int) == old(self).hist@);
                        assert(hs0.len() == tr0.len() + 1);
                    }
                }
            }
            proof {
                assert forall|k: int|
                    v0.nh() <= k < v0.nn() implies (#[trigger] self.attached@[k] <==> (att0[k] && !(v0.row_id[k] == q && (k
                        == ns@[0].0 && 0 < t + 1 || k == ns@[1].0 && 1 < t + 1 || k == ns@[2].0 && 2 < t + 1)))) by {
                    if k != j.0 {
                        assert(att_t[k] <==> (att0[k] && !(v0.row_id[k] == q && (k == ns@[0].0 && 0 < t || k == ns@[1].0
                            && 1 < t || k == ns@[2].0 && 2 < t))));
                    } else {
                        assert(att_t[k] <==> (att0[k] && !(v0.row_id[k] == q && (k == ns@[0].0 && 0 < t || k == ns@[1].0
                            && 1 < t || k == ns@[2].0 && 2 < t))));
                    }
                }
            }
            t = t + 1;
        }
        proof {
            lemma_option_nodes(v0, g, q as int);
        }
    }

    /// A bull was placed on cell o (`sign > 0`): block its 3x3
    /// neighborhood, pulling each newly blocked cell's option out of every
    /// list it is still in. With `sign <= 0` only the counts go back down
    /// (relinking is the trail's job).
    #[verifier::rlimit(80)]
    fn block_neighbors(&mut self, o: usize, sign: i32)
        requires
            old(self).links_ok(),
            o < old(self).n * old(self).n,
            old(self).blocked@.len() == old(self).n * old(self).n,
            sign > 0 ==> forall|q: int| around(old(self).n as int, o as int, q) ==> #[trigger] old(self).blocked@[q] < u32::MAX,
            sign <= 0 ==> forall|q: int| around(old(self).n as int, o as int, q) ==> #[trigger] old(self).blocked@[q] >= 1,
        ensures
            final(self).links_ok(),
            final(self).blocked@.len() == old(self).blocked@.len(),
            forall|q: int|
                0 <= q < old(self).n * old(self).n ==> #[trigger] final(self).blocked@[q] == old(self).blocked@[q] + (if around(
                    old(self).n as int,
                    o as int,
                    q,
                ) {
                    if sign > 0 {
                        1int
                    } else {
                        -1int
                    }
                } else {
                    0int
                }),
            sign > 0 ==> forall|k: int|
                old(self).m@.nh() <= k < old(self).m@.nn() ==> (#[trigger] final(self).attached@[k] <==> (old(
                    self,
                ).attached@[k] && !(around(old(self).n as int, o as int, old(self).m@.row_id[k] as int) && old(
                    self,
                ).blocked@[old(self).m@.row_id[k] as int] == 0))),
            sign <= 0 ==> final(self).m@ == old(self).m@ && final(self).attached == old(self).attached && final(self).trail
                == old(self).trail && final(self).hist == old(self).hist,
            final(self).m@.hdr == old(self).m@.hdr,
            old(self).trail@.len() <= final(self).trail@.len(),
            final(self).trail@.take(old(self).trail@.len() as int) == old(self).trail@,
            final(self).hist@.take(old(self).hist@.len() as int) == old(self).hist@,
            final(self).m@.rows == old(self).m@.rows,
            final(self).m@.c == old(self).m@.c,
            final(self).m@.row_id == old(self).m@.row_id,
            final(self).m@.nh() == old(self).m@.nh(),
            final(self).m@.nn() == old(self).m@.nn(),
            final(self).n == old(self).n,
            final(self).first == old(self).first,
            final(self).need == old(self).need,
            final(self).max_sols == old(self).max_sols,
            final(self).skip == old(self).skip,
            final(self).steps == old(self).steps,
            final(self).bounded == old(self).bounded,
            final(self).k == old(self).k,
            final(self).grid == old(self).grid,
            final(self).placed == old(self).placed,
    {
        let n = self.n;
        let ghost ni = n as int;
        let ghost v0 = self.m@;
        let ghost b0 = self.blocked@;
        let ghost att0 = self.attached@;
        proof {
            assert(n > 0) by (nonlinear_arith)
                requires
                    o < n * n,
            ;
            lemma_cell_of_id(ni, o as int);
            assert(self.hist@.take(self.hist@.len() as int) =~= self.hist@);
            assert(self.trail@.take(self.trail@.len() as int) =~= self.trail@);
        }
        proof {
            reveal(MatView::wf_shape);
            assert(n * n <= MAX_SIDE * MAX_SIDE) by (nonlinear_arith)
                requires
                    n <= MAX_SIDE,
            ;
        }
        let y = o / n;
        let x = o % n;
        let y0 = if y > 0 { y - 1 } else { 0 };
        let y1 = if y + 1 < n - 1 { y + 1 } else { n - 1 };
        let x0 = if x > 0 { x - 1 } else { 0 };
        let x1 = if x + 1 < n - 1 { x + 1 } else { n - 1 };
        let mut ny = y0;
        while ny <= y1
            invariant
                self.links_ok(),
                n == self.n,
                ni == n,
                0 < n <= MAX_SIDE,
                o < n * n,
                y == o / n,
                x == o % n,
                y < n,
                x < n,
                y0 <= ny <= y1 + 1,
                y1 < n,
                x1 < n,
                y0 == (if y > 0 { y - 1 } else { 0 }),
                y1 == (if y + 1 < n - 1 { y + 1 } else { n - 1 }),
                x0 == (if x > 0 { x - 1 } else { 0 }),
                x1 == (if x + 1 < n - 1 { x + 1 } else { n - 1 }),
                self.blocked@.len() == ni * ni,
                b0.len() == ni * ni,
                sign > 0 ==> forall|q: int| around(ni, o as int, q) ==> #[trigger] b0[q] < u32::MAX,
                sign <= 0 ==> forall|q: int| around(ni, o as int, q) ==> #[trigger] b0[q] >= 1,
                forall|q: int|
                    0 <= q < ni * ni ==> #[trigger] self.blocked@[q] == b0[q] + (if around(ni, o as int, q) && scanned(
                        ni,
                        q,
                        ny as int,
                        0,
                    ) {
                        if sign > 0 {
                            1int
                        } else {
                            -1int
                        }
                    } else {
                        0int
                    }),
                sign > 0 ==> forall|k: int|
                    v0.nh() <= k < v0.nn() ==> (#[trigger] self.attached@[k] <==> (att0[k] && !(around(
                        ni,
                        o as int,
                        v0.row_id[k] as int,
                    ) && scanned(ni, v0.row_id[k] as int, ny as int, 0) && b0[v0.row_id[k] as int] == 0))),
                sign <= 0 ==> self.m@ == v0 && self.attached == old(self).attached && self.trail == old(self).trail
                    && self.hist == old(self).hist,
                att0.len() == v0.nn(),
                v0 == old(self).m@,
                b0 == old(self).blocked@,
                att0 == old(self).attached@,
                self.m@.hdr == v0.hdr,
                self.m@.rows == v0.rows,
                self.m@.c == v0.c,
                self.m@.row_id == v0.row_id,
                self.m@.nh() == v0.nh(),
                self.m@.nn() == v0.nn(),
                v0.rows.len() == ni * ni,
                forall|k: int| v0.nh() <= k < v0.nn() ==> #[trigger] v0.row_id[k] < v0.rows.len(),
                old(self).hist@.len() == old(self).trail@.len() + 1,
                old(self).trail@.len() <= self.trail@.len(),
                self.trail@.take(old(self).trail@.len() as int) == old(self).trail@,
                self.hist@.take(old(self).hist@.len() as int) == old(self).hist@,
                self.first == old(self).first,
                self.need == old(self).need,
                self.max_sols == old(self).max_sols,
                self.skip == old(self).skip,
                self.steps == old(self).steps,
                self.bounded == old(self).bounded,
                self.k == old(self).k,
                self.grid == old(self).grid,
                self.placed == old(self).placed,
            decreases y1 + 1 - ny,
        {
            let mut nx = x0;
            while nx <= x1
                invariant
                    self.links_ok(),
                    n == self.n,
                    ni == n,
                    0 < n <= MAX_SIDE,
                    o < n * n,
                    y == o / n,
                    x == o % n,
                    y < n,
                    x < n,
                    y0 <= ny <= y1,
                    y1 < n,
                    x0 <= nx <= x1 + 1,
                    x1 < n,
                    y0 == (if y > 0 { y - 1 } else { 0 }),
                    y1 == (if y + 1 < n - 1 { y + 1 } else { n - 1 }),
                    x0 == (if x > 0 { x - 1 } else { 0 }),
                    x1 == (if x + 1 < n - 1 { x + 1 } else { n - 1 }),
                    self.blocked@.len() == ni * ni,
                    b0.len() == ni * ni,
                    sign > 0 ==> forall|q: int| around(ni, o as int, q) ==> #[trigger] b0[q] < u32::MAX,
                    sign <= 0 ==> forall|q: int| around(ni, o as int, q) ==> #[trigger] b0[q] >= 1,
                    forall|q: int|
                        0 <= q < ni * ni ==> #[trigger] self.blocked@[q] == b0[q] + (if around(ni, o as int, q) && scanned(
                            ni,
                            q,
                            ny as int,
                            nx as int,
                        ) {
                            if sign > 0 {
                                1int
                            } else {
                                -1int
                            }
                        } else {
                            0int
                        }),
                    sign > 0 ==> forall|k: int|
                        v0.nh() <= k < v0.nn() ==> (#[trigger] self.attached@[k] <==> (att0[k] && !(around(
                            ni,
                            o as int,
                            v0.row_id[k] as int,
                        ) && scanned(ni, v0.row_id[k] as int, ny as int, nx as int) && b0[v0.row_id[k] as int] == 0))),
                    sign <= 0 ==> self.m@ == v0 && self.attached == old(self).attached && self.trail == old(self).trail
                        && self.hist == old(self).hist,
                    att0.len() == v0.nn(),
                    v0 == old(self).m@,
                    b0 == old(self).blocked@,
                    att0 == old(self).attached@,
                    self.m@.hdr == v0.hdr,
                    self.m@.rows == v0.rows,
                    self.m@.c == v0.c,
                    self.m@.row_id == v0.row_id,
                    self.m@.nh() == v0.nh(),
                    self.m@.nn() == v0.nn(),
                    v0.rows.len() == ni * ni,
                    forall|k: int| v0.nh() <= k < v0.nn() ==> #[trigger] v0.row_id[k] < v0.rows.len(),
                    old(self).hist@.len() == old(self).trail@.len() + 1,
                    old(self).trail@.len() <= self.trail@.len(),
                    self.trail@.take(old(self).trail@.len() as int) == old(self).trail@,
                    self.hist@.take(old(self).hist@.len() as int) == old(self).hist@,
                    self.first == old(self).first,
                    self.need == old(self).need,
                    self.max_sols == old(self).max_sols,
                    self.skip == old(self).skip,
                    self.steps == old(self).steps,
                    self.bounded == old(self).bounded,
                    self.k == old(self).k,
                    self.grid == old(self).grid,
                    self.placed == old(self).placed,
                decreases x1 + 1 - nx,
            {
                proof {
                    crate::solver::lemma_cell_of(ni, ny as int, nx as int);
                    assert(0 <= ny * n);
                    assert(n * n <= MAX_SIDE * MAX_SIDE) by (nonlinear_arith)
                        requires
                            n <= MAX_SIDE,
                    ;
                }
                let q = ny * n + nx;
                let ghost qi = q as int;
                proof {
                    lemma_cell_of_id(ni, qi);
                    assert(qi / ni == ny && qi % ni == nx) by {
                        vstd::arithmetic::div_mod::lemma_fundamental_div_mod_converse(qi, ni, ny as int, nx as int);
                    }
                    // the scanned region grows by exactly cell q
                    assert forall|p: int| 0 <= p < ni * ni implies (scanned(ni, p, ny as int, nx + 1) <==> (scanned(
                        ni,
                        p,
                        ny as int,
                        nx as int,
                    ) || p == qi)) by {
                        lemma_cell_of_id(ni, p);
                        if p / ni == ny && p % ni == nx {
                            assert(p == qi);
                        }
                    }
                    // q is around o exactly when it is not o
                    assert(around(ni, o as int, qi) <==> qi != o) by {
                        lemma_cell_of_id(ni, o as int);
                        assert(cell_of(ni, qi) == (ny, nx));
                        assert(cell_of(ni, o as int) == (y, x));
                    }
                }
                if q != o {
                    let ghost bq = self.blocked@;
                    if sign > 0 {
                        let cur = self.blocked[q];
                        self.blocked.set(q, cur + 1);
                        if cur + 1 == 1 {
                            let ghost att1 = self.attached@;
                            let ghost tr0 = self.trail@;
                            let ghost hs0 = self.hist@;
                            self.hide_option(q);
                            proof {
                                assert(self.trail@.take(old(self).trail@.len() as int) =~= old(self).trail@) by {
                                    assert(tr0.take(old(self).trail@.len() as int) == old(self).trail@);
                                    assert(self.trail@.take(tr0.len() as int) == tr0);
                                }
                                assert(self.hist@.take(old(self).hist@.len() as int) =~= old(self).hist@) by {
                                    assert(hs0.take(old(self).hist@.len() as int) == old(self).hist@);
                                    assert(self.hist@.take(hs0.len() as int) == hs0);
                                    assert(hs0.len() == tr0.len() + 1);
                                }
                                assert forall|k: int| v0.nh() <= k < v0.nn() implies (#[trigger] self.attached@[k] <==> (att0[k]
                                    && !(around(ni, o as int, v0.row_id[k] as int) && scanned(
                                    ni,
                                    v0.row_id[k] as int,
                                    ny as int,
                                    nx + 1,
                                ) && b0[v0.row_id[k] as int] == 0))) by {
                                    assert(att1[k] <==> (att0[k] && !(around(ni, o as int, v0.row_id[k] as int) && scanned(
                                        ni,
                                        v0.row_id[k] as int,
                                        ny as int,
                                        nx as int,
                                    ) && b0[v0.row_id[k] as int] == 0)));
                                    assert(v0.row_id[k] < v0.rows.len());
                                    assert(b0[qi] == 0);
                                }
                            }
                        } else {
                            proof {
                                assert forall|k: int| v0.nh() <= k < v0.nn() implies (#[trigger] self.attached@[k] <==> (att0[k]
                                    && !(around(ni, o as int, v0.row_id[k] as int) && scanned(
                                    ni,
                                    v0.row_id[k] as int,
                                    ny as int,
                                    nx + 1,
                                ) && b0[v0.row_id[k] as int] == 0))) by {
                                    assert(v0.row_id[k] < v0.rows.len());
                                    if v0.row_id[k] == qi {
                                        assert(b0[qi] != 0);
                                    }
                                }
                            }
                        }
                    } else {
                        let cur = self.blocked[q];
                        self.blocked.set(q, cur - 1);
                    }
                    proof {
                        assert forall|p: int| 0 <= p < ni * ni implies #[trigger] self.blocked@[p] == b0[p] + (if around(
                            ni,
                            o as int,
                            p,
                        ) && scanned(ni, p, ny as int, nx + 1) {
                            if sign > 0 {
                                1int
                            } else {
                                -1int
                            }
                        } else {
                            0int
                        }) by {
                            assert(bq[p] == b0[p] + (if around(ni, o as int, p) && scanned(ni, p, ny as int, nx as int) {
                                if sign > 0 {
                                    1int
                                } else {
                                    -1int
                                }
                            } else {
                                0int
                            }));
                        }
                    }
                } else {
                    proof {
                        assert forall|p: int| 0 <= p < ni * ni implies #[trigger] self.blocked@[p] == b0[p] + (if around(
                            ni,
                            o as int,
                            p,
                        ) && scanned(ni, p, ny as int, nx + 1) {
                            if sign > 0 {
                                1int
                            } else {
                                -1int
                            }
                        } else {
                            0int
                        }) by {}
                        if sign > 0 {
                            assert forall|k: int| v0.nh() <= k < v0.nn() implies (#[trigger] self.attached@[k] <==> (att0[k]
                                && !(around(ni, o as int, v0.row_id[k] as int) && scanned(
                                ni,
                                v0.row_id[k] as int,
                                ny as int,
                                nx + 1,
                            ) && b0[v0.row_id[k] as int] == 0))) by {
                                assert(v0.row_id[k] < v0.rows.len());
                            }
                        }
                    }
                }
                nx = nx + 1;
            }
            proof {
                // row ny is done: cells of row ny outside the window are not around o
                assert forall|p: int| 0 <= p < ni * ni && around(ni, o as int, p) implies (scanned(ni, p, ny + 1, 0) <==> scanned(
                    ni,
                    p,
                    ny as int,
                    nx as int,
                )) by {
                    lemma_cell_of_id(ni, p);
                    lemma_cell_of_id(ni, o as int);
                    if p / ni == ny {
                        if p % ni > x1 {
                            assert(crate::board::absdiff(p % ni, x as int) > 1);
                        }
                    }
                }
            }
            ny = ny + 1;
        }
        proof {
            assert forall|p: int| 0 <= p < ni * ni && around(ni, o as int, p) implies scanned(ni, p, ny as int, 0) by {
                lemma_cell_of_id(ni, p);
                lemma_cell_of_id(ni, o as int);
                if p / ni > y1 {
                    assert(crate::board::absdiff(p / ni, y as int) > 1);
                }
                if p / ni < y0 {
                    assert(crate::board::absdiff(p / ni, y as int) > 1);
                }
            }
        }
    }
}

// -------------------------------------------------------- search state

/// How many options of `pl` provide column `h`.
pub open spec fn count_cov(g: Seq<Vec<usize>>, pl: Seq<usize>, h: int) -> int
    decreases pl.len(),
{
    if pl.len() == 0 {
        0
    } else {
        count_cov(g, pl.drop_last(), h) + if covers(g, id_labels(g.len() as int), pl.last() as int, h) {
            1int
        } else {
            0int
        }
    }
}

/// How many options of `pl` have cell `q` in their neighbourhood.
pub open spec fn count_around(n: int, pl: Seq<usize>, q: int) -> int
    decreases pl.len(),
{
    if pl.len() == 0 {
        0
    } else {
        count_around(n, pl.drop_last(), q) + if around(n, pl.last() as int, q) {
            1int
        } else {
            0int
        }
    }
}

/// Node `j` is attached and its column still active.
pub open spec fn node_live(v: MatView, att: Seq<bool>, j: int) -> bool {
    att[j] && v.hdr.contains(v.c[j].0)
}

/// Option `r` is either wholly live (all three nodes attached in active
/// columns) or has no attached node in an active column.
pub open spec fn option_settled(v: MatView, att: Seq<bool>, f: int, r: int) -> bool {
    let b = f + 3 * r;
    ||| node_live(v, att, b) && node_live(v, att, b + 1) && node_live(v, att, b + 2)
    ||| !node_live(v, att, b) && !node_live(v, att, b + 1) && !node_live(v, att, b + 2)
}

/// Option `r` has no attached node.
pub open spec fn option_hidden(att: Seq<bool>, f: int, r: int) -> bool {
    let b = f + 3 * r;
    !att[b] && !att[b + 1] && !att[b + 2]
}

impl DoubleSolver {
    /// The board.
    pub closed spec fn board(&self) -> Seq<Vec<usize>> {
        self.grid@
    }

    /// Bulls per row, column and region.
    pub closed spec fn mult(&self) -> nat {
        self.k@
    }

    /// How many solutions a search stops at.
    pub closed spec fn sol_cap(&self) -> usize {
        self.max_sols
    }

    /// The known solution a search does not count.
    pub closed spec fn known(&self) -> Option<Vec<Pos>> {
        self.skip
    }

    /// The search invariant: the needs count what the placed bulls still
    /// owe each column, a column is active exactly while it needs more,
    /// the blocked counts are the placed neighbours of each cell, and no
    /// option straddles live and dead columns.
    pub closed spec fn search_ok(&self) -> bool {
        let v = self.m@;
        let n = self.n as int;
        let g = self.grid@;
        let pl = self.placed@;
        let att = self.attached@;
        let f = self.first as int;
        &&& self.links_ok()
        &&& self.k@ >= 1
        &&& self.need@.len() == v.nh()
        &&& forall|h: int| 1 <= h < v.nh() ==> (#[trigger] v.hdr.contains(h as usize) <==> self.need@[h] > 0)
        &&& forall|h: int| 1 <= h < v.nh() ==> #[trigger] self.need@[h] + count_cov(g, pl, h) == self.k@
        &&& self.blocked@.len() == n * n
        &&& forall|q: int| 0 <= q < n * n ==> #[trigger] self.blocked@[q] == count_around(n, pl, q)
        &&& forall|q: int| 0 <= q < n * n && #[trigger] self.blocked@[q] > 0 ==> option_hidden(att, f, q)
        &&& forall|r: int| 0 <= r < n * n ==> #[trigger] option_settled(v, att, f, r)
        &&& forall|i: int| 0 <= i < pl.len() ==> #[trigger] pl[i] < n * n && option_hidden(att, f, pl[i] as int)
        &&& pl.no_duplicates()
        &&& forall|i: int, j: int|
            0 <= i < pl.len() && 0 <= j < pl.len() && i != j ==> !touching(
                cell_of(n, #[trigger] pl[i] as int),
                cell_of(n, #[trigger] pl[j] as int),
            )
    }

    /// At rest: nothing placed, nothing unlinked.
    pub closed spec fn idle(&self) -> bool {
        &&& self.placed@.len() == 0
        &&& self.trail@.len() == 0
        &&& self.m@.full()
    }
}

impl DoubleSolver {
    /// Takes an n x n region grid with labels 0..n and the number `k` of
    /// bulls per row, column and region.
    #[verifier::rlimit(80)]
    pub fn new(grid: &Vec<Vec<usize>>, k: usize) -> (res: DoubleSolver)
        requires
            grid@.len() <= MAX_SIDE,
            is_square(grid@),
            forall|r: int, c: int| 0 <= r < grid@.len() && 0 <= c < grid@.len() ==> #[trigger] label(grid@, r, c) < grid@.len(),
        ensures
            k >= 1 ==> res.search_ok(),
            res.idle(),
            res.board() == grid@,
            res.mult() == k,
            res.sol_cap() == 2,
            res.known() is None,
    {
        let n = grid.len();
        let ghost g = grid@;
        let ghost ls = id_labels(n as int);
        proof {
            assert(3 * n <= 3 * MAX_SIDE);
            assert(ls.no_duplicates()) by {
                if n > 0 {
                    lemma_id_labels(n as int, 0);
                } else {
                    assert(ls.len() == 0);
                }
            }
        }
        let mut m = Matrix::new(3 * n);
        let mut r: usize = 0;
        while r < n
            invariant
                n == g.len(),
                g == grid@,
                is_square(g),
                forall|rr: int, cc: int| 0 <= rr < n && 0 <= cc < n ==> #[trigger] label(g, rr, cc) < n,
                n <= MAX_SIDE,
                ls == id_labels(n as int),
                ls.no_duplicates(),
                0 <= r <= n,
                m@.wf_links(),
                m@.full(),
                m@.nh() == first_node(n as int),
                m@.nn() == first_node(n as int) + 3 * (r * n),
                m@.rows.len() == r * n,
                m@.row_count == r * n,
                layout_upto(m@, g, ls, r * n),
            decreases n - r,
        {
            let mut c: usize = 0;
            while c < n
                invariant
                    n == g.len(),
                    g == grid@,
                    is_square(g),
                    forall|rr: int, cc: int| 0 <= rr < n && 0 <= cc < n ==> #[trigger] label(g, rr, cc) < n,
                    n <= MAX_SIDE,
                    ls == id_labels(n as int),
                    ls.no_duplicates(),
                    0 <= r < n,
                    0 <= c <= n,
                    m@.wf_links(),
                    m@.full(),
                    m@.nh() == first_node(n as int),
                    m@.nn() == first_node(n as int) + 3 * (r * n + c),
                    m@.rows.len() == r * n + c,
                    m@.row_count == r * n + c,
                    layout_upto(m@, g, ls, r * n + c),
                decreases n - c,
            {
                proof {
                    assert(g[r as int]@.len() == n);
                }
                let region = grid[r][c];
                proof {
                    assert(label(g, r as int, c as int) == region);
                    assert(region < n);
                    lemma_id_labels(n as int, region);
                }
                let mut mrow = vec![false; 3 * n];
                mrow.set(r, true); // row constraint
                mrow.set(n + c, true); // column constraint
                mrow.set(2 * n + region, true); // region constraint
                proof {
                    assert forall|p: int| 0 <= p < mrow@.len() implies (mrow@[p] <==> (p == r || p == n + c || p == 2
                        * n + region)) by {}
                    lemma_three_positions(mrow@, r as int, (n + c) as int, (2 * n + region) as int);
                    assert((r * n + c) * 3 + 3 * n + 3 <= 3 * (n * n) + 3 * n + 3) by (nonlinear_arith)
                        requires
                            r < n,
                            c < n,
                    ;
                    assert(3 * (n * n) <= 3 * (MAX_SIDE * MAX_SIDE)) by (nonlinear_arith)
                        requires
                            n <= MAX_SIDE,
                    ;
                }
                let ghost v0 = m@;
                m.add_row(&mrow);
                proof {
                    let v = m@;
                    let o = r * n + c;
                    let f = first_node(n as int);
                    assert(v0.nn() == f + 3 * o);
                    assert(v.rows == v0.rows.push(Seq::new(3, |q: int| (v0.nn() + q) as usize)));
                    assert(Seq::new(3, |q: int| (v0.nn() + q) as usize) =~= seq![
                        (f + 3 * o) as usize,
                        (f + 3 * o + 1) as usize,
                        (f + 3 * o + 2) as usize,
                    ]);
                    assert(v.col(v0.nn() + 0) == r + 1);
                    assert(v.col(v0.nn() + 1) == n + c + 1);
                    assert(v.col(v0.nn() + 2) == 2 * n + region + 1);
                    assert(cell_id(n as int, r as int, c as int) == o);
                    assert forall|rr: int, cc: int| 0 <= rr < n && 0 <= cc < n && cell_id(n as int, rr, cc) < o + 1 implies {
                        let oo = #[trigger] cell_id(n as int, rr, cc);
                        &&& ls.contains(label(g, rr, cc))
                        &&& v.rows[oo] == seq![(f + 3 * oo) as usize, (f + 3 * oo + 1) as usize, (f + 3 * oo + 2) as usize]
                        &&& v.col(f + 3 * oo) == 1 + rr
                        &&& v.col(f + 3 * oo + 1) == 1 + n + cc
                        &&& v.col(f + 3 * oo + 2) == 1 + 2 * n + region_of(ls, label(g, rr, cc))
                    } by {
                        let oo = cell_id(n as int, rr, cc);
                        lemma_id_labels(n as int, label(g, rr, cc));
                        if oo < o {
                            assert(f + 3 * oo + 2 < v0.nn());
                            assert(v.c[f + 3 * oo] == v0.c[f + 3 * oo]);
                            assert(v.c[f + 3 * oo + 1] == v0.c[f + 3 * oo + 1]);
                            assert(v.c[f + 3 * oo + 2] == v0.c[f + 3 * oo + 2]);
                            assert(v.rows[oo] == v0.rows[oo]);
                        } else {
                            assert(rr == r && cc == c) by (nonlinear_arith)
                                requires
                                    oo == rr * n + cc,
                                    o == r * n + c,
                                    oo == o,
                                    0 <= cc < n,
                                    0 <= c < n,
                                    0 <= rr,
                                    0 <= r,
                            ;
                        }
                    }
                }
                c = c + 1;
            }
            proof {
                assert(r * n + n == (r + 1) * n) by (nonlinear_arith);
            }
            r = r + 1;
        }

        let first = 3 * n + 1;
        let total = m.c.len();
        proof {
            assert(r * n == n * n);
            assert(board_layout(m@, g, ls));
            reveal(MatView::wf_shape);
        }
        let mut need: Vec<usize> = vec![k; first];
        need.set(H, 0); // the sentinel is not an item
        let ghost h0 = seq![m@];
        let res = DoubleSolver {
            m,
            n,
            first,
            need,
            attached: vec![true; total],
            blocked: vec![0; n * n],
            trail: Vec::new(),
            max_sols: 2,
            skip: None,
            steps: usize::MAX,
            bounded: true,
            k: Ghost(k as nat),
            grid: Ghost(g),
            hist: Ghost(h0),
            placed: Ghost(Seq::empty()),
        };
        proof {
            let v = res.m@;
            let nn = n as int;
            assert forall|kk: int| v.nh() <= kk < v.nn() implies (#[trigger] res.attached@[kk] <==> v.cols[v.col(kk)].contains(
                kk as usize)) by {
                assert(v.cols[v.col(kk)].contains(kk as usize));
            }
            if k >= 1 {
                assert forall|h: int| 1 <= h < v.nh() implies (#[trigger] v.hdr.contains(h as usize) <==> res.need@[h] > 0) by {
                    assert(v.hdr[h] == h);
                }
            }
            assert forall|h: int| 1 <= h < v.nh() implies #[trigger] res.need@[h] + count_cov(g, Seq::empty(), h) == k by {}
            assert forall|r2: int| 0 <= r2 < nn * nn implies #[trigger] option_settled(v, res.attached@, first as int, r2) by {
                lemma_option_nodes(v, g, r2);
                let b = first + 3 * r2;
                assert(v.hdr[v.col(b)] == v.col(b));
                assert(v.hdr[v.col(b + 1)] == v.col(b + 1));
                assert(v.hdr[v.col(b + 2)] == v.col(b + 2));
                assert(v.hdr.contains(v.c[b].0));
                assert(v.hdr.contains(v.c[b + 1].0));
                assert(v.hdr.contains(v.c[b + 2].0));
            }
            assert forall|i: int| 0 <= i < res.trail@.len() implies #[trigger] hist_step(res.hist@, res.trail@, i, first as int) by {}
        }
        res
    }
}

// ------------------------------------------------------- search lemmas

/// Counting options by column is counting their cells by a matching
/// predicate.
pub proof fn lemma_count_cov_where(g: Seq<Vec<usize>>, pl: Seq<usize>, h: int, f: spec_fn(Pos) -> bool)
    requires
        forall|i: int|
            0 <= i < pl.len() ==> (covers(g, id_labels(g.len() as int), #[trigger] pl[i] as int, h) == f(
                cell_of(g.len() as int, pl[i] as int),
            )),
    ensures
        count_cov(g, pl, h) == crate::board::count_where(crate::solver::sol_of(g.len() as int, pl), f),
    decreases pl.len(),
{
    let n = g.len() as int;
    if pl.len() > 0 {
        let p0 = pl.drop_last();
        assert forall|i: int| 0 <= i < p0.len() implies (covers(g, id_labels(n), #[trigger] p0[i] as int, h) == f(
            cell_of(n, p0[i] as int),
        )) by {
            assert(p0[i] == pl[i]);
        }
        lemma_count_cov_where(g, p0, h, f);
        let s = crate::solver::sol_of(n, pl);
        assert(s.drop_last() =~= crate::solver::sol_of(n, p0));
        assert(s.last() == cell_of(n, pl.last() as int));
        assert(covers(g, id_labels(n), pl[pl.len() - 1] as int, h) == f(cell_of(n, pl[pl.len() - 1] as int)));
    }
}

/// No option counted means none is around `q`.
pub proof fn lemma_count_around(n: int, pl: Seq<usize>, q: int)
    ensures
        0 <= count_around(n, pl, q) <= pl.len(),
        count_around(n, pl, q) == 0 ==> forall|i: int| 0 <= i < pl.len() ==> !around(n, #[trigger] pl[i] as int, q),
        count_around(n, pl, q) > 0 ==> exists|i: int| 0 <= i < pl.len() && around(n, #[trigger] pl[i] as int, q),
    decreases pl.len(),
{
    if pl.len() > 0 {
        let p0 = pl.drop_last();
        lemma_count_around(n, p0, q);
        if count_around(n, pl, q) == 0 {
            assert forall|i: int| 0 <= i < pl.len() implies !around(n, #[trigger] pl[i] as int, q) by {
                if i < p0.len() {
                    assert(p0[i] == pl[i]);
                }
            }
        }
        if count_around(n, pl, q) > 0 {
            if count_around(n, p0, q) > 0 {
                let i = choose|i: int| 0 <= i < p0.len() && around(n, #[trigger] p0[i] as int, q);
                assert(p0[i] == pl[i]);
            } else {
                assert(around(n, pl[pl.len() - 1] as int, q));
            }
        }
    }
}

/// Counts of columns never exceed the number of options.
pub proof fn lemma_count_cov_bound(g: Seq<Vec<usize>>, pl: Seq<usize>, h: int)
    ensures
        0 <= count_cov(g, pl, h) <= pl.len(),
    decreases pl.len(),
{
    if pl.len() > 0 {
        lemma_count_cov_bound(g, pl.drop_last(), h);
    }
}

/// A list without repeats of numbers below `bound` is at most `bound` long.
pub proof fn lemma_nodup_bound(s: Seq<usize>, bound: nat)
    requires
        s.no_duplicates(),
        forall|i: int| 0 <= i < s.len() ==> #[trigger] s[i] < bound,
    ensures
        s.len() <= bound,
{
    let all = Set::new(|l: usize| l < bound);
    crate::regions::lemma_below_set(bound);
    s.unique_seq_to_set();
    assert(s.to_set().subset_of(all)) by {
        assert forall|x: usize| s.to_set().contains(x) implies all.contains(x) by {
            let i = choose|i: int| 0 <= i < s.len() && s[i] == x;
        }
    }
    vstd::set_lib::lemma_len_subset(s.to_set(), all);
}

/// With every column saturated, the placed options form a solution with
/// `k` bulls per row, column and region.
pub proof fn lemma_saturated_solution(v: MatView, g: Seq<Vec<usize>>, pl: Seq<usize>, k: int)
    requires
        board_layout(v, g, id_labels(g.len() as int)),
        g.len() <= MAX_SIDE,
        is_square(g),
        forall|r: int, c: int| 0 <= r < g.len() && 0 <= c < g.len() ==> #[trigger] label(g, r, c) < g.len(),
        forall|h: int| 1 <= h <= 3 * g.len() ==> #[trigger] count_cov(g, pl, h) == k,
        forall|i: int| 0 <= i < pl.len() ==> #[trigger] pl[i] < g.len() * g.len(),
        forall|i: int, j: int|
            0 <= i < pl.len() && 0 <= j < pl.len() && i != j ==> !touching(
                cell_of(g.len() as int, #[trigger] pl[i] as int),
                cell_of(g.len() as int, #[trigger] pl[j] as int),
            ),
    ensures
        crate::board::is_solution_k(g, crate::solver::sol_of(g.len() as int, pl), k),
{
    let n = g.len() as int;
    let ls = id_labels(n);
    let sol = crate::solver::sol_of(n, pl);
    if n == 0 {
        assert(n * n == 0);
        assert(pl.len() == 0) by {
            if pl.len() > 0 {
                assert(pl[0] < n * n);
            }
        }
        assert forall|l: usize| !crate::board::label_set(g).contains(l) by {}
        return;
    }
    assert forall|i: int| 0 <= i < pl.len() implies {
        &&& 0 <= (pl[i] as int) / n < n
        &&& 0 <= (pl[i] as int) % n < n
        &&& #[trigger] sol[i] == cell_of(n, pl[i] as int)
        &&& covers_facts(g, pl[i] as int)
    } by {
        lemma_cell_of_id(n, pl[i] as int);
        crate::solver::lemma_col_value_ranges(v, g, ls, pl[i] as int);
        lemma_id_labels(n, label(g, (pl[i] as int) / n, (pl[i] as int) % n));
    }
    assert forall|r: int| 0 <= r < n implies #[trigger] crate::board::count_row(sol, r) == k by {
        let f = crate::board::in_row(r);
        assert forall|i: int| 0 <= i < pl.len() implies (covers(g, ls, #[trigger] pl[i] as int, 1 + r) == f(cell_of(n, pl[i] as int))) by {
            assert(sol[i] == cell_of(n, pl[i] as int));
            assert(covers_facts(g, pl[i] as int));
        }
        lemma_count_cov_where(g, pl, 1 + r, f);
        assert(count_cov(g, pl, 1 + r) == k);
    }
    assert forall|c: int| 0 <= c < n implies #[trigger] crate::board::count_col_of(sol, c) == k by {
        let f = crate::board::in_col(c);
        assert forall|i: int| 0 <= i < pl.len() implies (covers(g, ls, #[trigger] pl[i] as int, 1 + n + c) == f(
            cell_of(n, pl[i] as int))) by {
            assert(sol[i] == cell_of(n, pl[i] as int));
            assert(covers_facts(g, pl[i] as int));
        }
        lemma_count_cov_where(g, pl, 1 + n + c, f);
        assert(count_cov(g, pl, 1 + n + c) == k);
    }
    assert forall|l: usize| crate::board::label_set(g).contains(l) implies #[trigger] crate::board::count_label(g, sol, l) == k by {
        let (r0, c0) = choose|r0: int, c0: int| 0 <= r0 < g.len() && 0 <= c0 < g[r0]@.len() && #[trigger] label(g, r0, c0) == l;
        assert(g[r0]@.len() == n);
        assert(l < n);
        let f = |p: Pos| label(g, p.0 as int, p.1 as int) == l;
        assert forall|i: int| 0 <= i < pl.len() implies (covers(g, ls, #[trigger] pl[i] as int, 1 + 2 * n + l) == f(
            cell_of(n, pl[i] as int))) by {
            assert(sol[i] == cell_of(n, pl[i] as int));
            assert(covers_facts(g, pl[i] as int));
        }
        lemma_count_cov_where(g, pl, 1 + 2 * n + l, f);
        assert(count_cov(g, pl, 1 + 2 * n + l) == k);
    }
    assert forall|i: int, j: int| 0 <= i < sol.len() && 0 <= j < sol.len() && i != j implies !touching(
        #[trigger] sol[i],
        #[trigger] sol[j],
    ) by {
        assert(!touching(cell_of(n, pl[i] as int), cell_of(n, pl[j] as int)));
    }
}

/// What covering means for option `o` under the identity labels: its
/// board row, its board column and its cell's label.
pub open spec fn covers_facts(g: Seq<Vec<usize>>, o: int) -> bool {
    let n = g.len() as int;
    let r = o / n;
    let c = o % n;
    forall|h: int|
        #![trigger covers(g, id_labels(n), o, h)]
        covers(g, id_labels(n), o, h) <==> (h == 1 + r || h == 1 + n + c || h == 1 + 2 * n + label(g, r, c))
}

/// Hiding whole options (those satisfying `gone`) keeps every option
/// settled, and keeps hidden options hidden.
pub proof fn lemma_settled_hide(
    v: MatView,
    v2: MatView,
    att: Seq<bool>,
    att2: Seq<bool>,
    g: Seq<Vec<usize>>,
    gone: spec_fn(int) -> bool,
)
    requires
        board_layout(v, g, id_labels(g.len() as int)),
        v.wf_links(),
        g.len() <= MAX_SIDE,
        v2.hdr == v.hdr,
        v2.c == v.c,
        att.len() == v.nn(),
        att2.len() == v.nn(),
        forall|k: int| v.nh() <= k < v.nn() ==> (#[trigger] att2[k] <==> (att[k] && !gone(v.row_id[k] as int))),
        forall|r: int| 0 <= r < g.len() * g.len() ==> #[trigger] option_settled(v, att, first_node(g.len() as int), r),
    ensures
        forall|r: int| 0 <= r < g.len() * g.len() ==> #[trigger] option_settled(v2, att2, first_node(g.len() as int), r),
        forall|r: int|
            0 <= r < g.len() * g.len() && option_hidden(att, first_node(g.len() as int), r) ==> #[trigger] option_hidden(
                att2,
                first_node(g.len() as int),
                r,
            ),
        forall|r: int| 0 <= r < g.len() * g.len() && gone(r) ==> #[trigger] option_hidden(att2, first_node(g.len() as int), r),
{
    let n = g.len() as int;
    let f = first_node(n);
    assert forall|r: int| 0 <= r < n * n implies #[trigger] option_settled(v2, att2, f, r) && (option_hidden(att, f, r)
        ==> option_hidden(att2, f, r)) && (gone(r) ==> option_hidden(att2, f, r)) by {
        assert(n > 0) by (nonlinear_arith)
            requires
                r < n * n,
                0 <= r,
                0 <= n,
        ;
        lemma_option_nodes(v, g, r);
        assert(option_settled(v, att, f, r));
    }
    assert forall|r: int| 0 <= r < n * n && gone(r) implies #[trigger] option_hidden(att2, f, r) by {
        assert(option_settled(v2, att2, f, r));
    }
    assert forall|r: int| 0 <= r < n * n && option_hidden(att, f, r) implies #[trigger] option_hidden(att2, f, r) by {
        assert(option_settled(v2, att2, f, r));
    }
}

/// Covering column `h` keeps every option settled.
pub proof fn lemma_settled_cover(
    v: MatView,
    v2: MatView,
    att: Seq<bool>,
    att2: Seq<bool>,
    g: Seq<Vec<usize>>,
    h: int,
)
    requires
        board_layout(v, g, id_labels(g.len() as int)),
        v.wf_links(),
        g.len() <= MAX_SIDE,
        0 < h < v.nh(),
        v2.c == v.c,
        forall|x: usize| #[trigger] v2.hdr.contains(x) <==> (v.hdr.contains(x) && x != h),
        att.len() == v.nn(),
        att2.len() == v.nn(),
        forall|k: int| v.nh() <= k < v.nn() ==> (#[trigger] att[k] <==> v.cols[v.col(k)].contains(k as usize)),
        forall|k: int|
            v.nh() <= k < v.nn() ==> (#[trigger] att2[k] <==> (att[k] && !(v.col(k) != h && from_rows(
                v,
                h,
                v.cols[h].len() - 1,
                k as usize,
            )))),
        forall|r: int| 0 <= r < g.len() * g.len() ==> #[trigger] option_settled(v, att, first_node(g.len() as int), r),
    ensures
        forall|r: int| 0 <= r < g.len() * g.len() ==> #[trigger] option_settled(v2, att2, first_node(g.len() as int), r),
        forall|r: int|
            0 <= r < g.len() * g.len() && option_hidden(att, first_node(g.len() as int), r) ==> #[trigger] option_hidden(
                att2,
                first_node(g.len() as int),
                r,
            ),
{
    let n = g.len() as int;
    let f = first_node(n);
    crate::cover::lemma_col_members(v, h);
    assert forall|r: int| 0 <= r < n * n implies #[trigger] option_settled(v2, att2, f, r) && (option_hidden(att, f, r)
        ==> option_hidden(att2, f, r)) by {
        assert(n > 0) by (nonlinear_arith)
            requires
                r < n * n,
                0 <= r,
                0 <= n,
        ;
        lemma_option_nodes(v, g, r);
        assert(option_settled(v, att, f, r));
        let b = f + 3 * r;
        // does option r have a listed node in column h?
        let t: int = if v.col(b) == h && att[b] {
            0
        } else if v.col(b + 1) == h && att[b + 1] {
            1
        } else if v.col(b + 2) == h && att[b + 2] {
            2
        } else {
            3
        };
        if t < 3 {
            let j = b + t;
            assert(v.cols[h].contains(j as usize));
            let x = choose|x: int| 0 <= x < v.cols[h].len() && v.cols[h][x] == j as usize;
            assert(x >= 1) by {
                if x == 0 {
                    assert(v.cols[h][0] == h);
                }
            }
            assert forall|u: int| 0 <= u < 3 && u != t implies #[trigger] from_rows(v, h, v.cols[h].len() - 1, (b + u) as usize) by {
                assert(v.row_id[v.cols[h][x] as int] == v.row_id[b + u]);
            }
            assert(!v2.hdr.contains(v.c[j].0));
        } else {
            assert forall|u: int| 0 <= u < 3 implies !#[trigger] from_rows(v, h, v.cols[h].len() - 1, (b + u) as usize) by {
                if from_rows(v, h, v.cols[h].len() - 1, (b + u) as usize) {
                    let t2 = choose|t2: int| 1 <= t2 <= v.cols[h].len() - 1 && #[trigger] v.row_id[v.cols[h][t2] as int]
                        == v.row_id[b + u];
                    let m = v.cols[h][t2] as int;
                    assert(v.col(m) == h);
                    assert(m == b || m == b + 1 || m == b + 2);
                    assert(att[m]);
                }
            }
        }
    }
}

// ------------------------------------------------------ recording

/// Cells in row-major order.
pub open spec fn pos_le(a: Pos, b: Pos) -> bool {
    a.0 < b.0 || (a.0 == b.0 && a.1 <= b.1)
}

/// Row-major order is a total order.
pub proof fn lemma_pos_le_total()
    ensures
        vstd::relations::total_ordering(|a: Pos, b: Pos| pos_le(a, b)),
{
}

/// `sk` is the sorted form of `c`.
pub open spec fn sorted_form(sk: Seq<Pos>, c: Seq<Pos>) -> bool {
    &&& vstd::relations::sorted_by(sk, |a: Pos, b: Pos| pos_le(a, b))
    &&& sk.to_multiset() == c.to_multiset()
}

/// Sort cells in row-major order (selection sort).
pub(crate) fn sort_positions(v: &mut Vec<Pos>)
    ensures
        sorted_form(final(v)@, old(v)@),
{
    let len = v.len();
    let mut i: usize = 0;
    while i < len
        invariant
            v@.len() == len,
            0 <= i <= len,
            v@.to_multiset() == old(v)@.to_multiset(),
            forall|a: int, b: int| 0 <= a < b < i ==> pos_le(v@[a], v@[b]),
            forall|a: int, b: int| 0 <= a < i <= b < len ==> pos_le(v@[a], v@[b]),
        decreases len - i,
    {
        let mut m = i;
        let mut j = i + 1;
        while j < len
            invariant
                v@.len() == len,
                i < len,
                i <= m < len,
                i + 1 <= j <= len,
                forall|b: int| i <= b < j ==> pos_le(v@[m as int], v@[b]),
            decreases len - j,
        {
            let a = v[j];
            let b = v[m];
            if a.0 < b.0 || (a.0 == b.0 && a.1 < b.1) {
                m = j;
            }
            j = j + 1;
        }
        let ghost s0 = v@;
        let x = v[i];
        let y = v[m];
        v.set(i, y);
        v.set(m, x);
        proof {
            assert(v@ =~= crate::rng::swap_spec(s0, i as int, m as int));
            crate::rng::lemma_swap_perm(s0, i as int, m as int);
        }
        i = i + 1;
    }
    proof {
        let leq = |a: Pos, b: Pos| pos_le(a, b);
        assert forall|a: int, b: int| 0 <= a < b < v@.len() implies #[trigger] leq(v@[a], v@[b]) by {
            assert(pos_le(v@[a], v@[b]));
        }
        assert(vstd::relations::sorted_by(v@, leq));
    }
}

/// Whether two lists of cells are equal.
fn same_positions(a: &Vec<Pos>, b: &Vec<Pos>) -> (r: bool)
    ensures
        r == (a@ == b@),
{
    if a.len() != b.len() {
        return false;
    }
    let mut i: usize = 0;
    while i < a.len()
        invariant
            a@.len() == b@.len(),
            0 <= i <= a@.len(),
            forall|j: int| 0 <= j < i ==> a@[j] == b@[j],
        decreases a@.len() - i,
    {
        if a[i].0 != b[i].0 || a[i].1 != b[i].1 {
            return false;
        }
        i = i + 1;
    }
    proof {
        assert(a@ =~= b@);
    }
    true
}

/// The record step skips `c` exactly when the known solution `skip` is
/// the sorted form of `c`.
pub open spec fn skipped(skip: Option<Vec<Pos>>, c: Seq<Pos>) -> bool {
    skip matches Some(sk) && sorted_form(sk@, c)
}

impl DoubleSolver {
    /// Record a completed placement set, unless it is the caller's
    /// already-known solution.
    fn record(&self, csol: &Vec<Pos>, sols: &mut Vec<Vec<Pos>>)
        ensures
            skipped(self.skip, csol@) ==> final(sols)@ == old(sols)@,
            !skipped(self.skip, csol@) ==> final(sols)@.len() == old(sols)@.len() + 1 && final(sols)@.take(
                old(sols)@.len() as int,
            ) == old(sols)@ && final(sols)@[old(sols)@.len() as int]@ == csol@,
    {
        match &self.skip {
            Some(skip) => {
                let mut sorted = crate::solver::copy_positions(csol);
                sort_positions(&mut sorted);
                if same_positions(&sorted, skip) {
                    return;
                }
                proof {
                    if skipped(self.skip, csol@) {
                        lemma_pos_le_total();
                        vstd::seq_lib::lemma_sorted_unique(sorted@, skip@, |a: Pos, b: Pos| pos_le(a, b));
                    }
                }
            },
            None => {},
        }
        let copy = crate::solver::copy_positions(csol);
        let ghost s0 = sols@;
        sols.push(copy);
        proof {
            assert(sols@.take(s0.len() as int) =~= s0);
        }
    }
}

/// Two `attached` tables that both mirror the column rings of `v` agree.
pub proof fn lemma_attached_determined(v: MatView, a1: Seq<bool>, a2: Seq<bool>)
    requires
        a1.len() == v.nn(),
        a2.len() == v.nn(),
        forall|k: int| 0 <= k < v.nh() ==> #[trigger] a1[k],
        forall|k: int| 0 <= k < v.nh() ==> #[trigger] a2[k],
        forall|k: int| v.nh() <= k < v.nn() ==> (#[trigger] a1[k] <==> v.cols[v.col(k)].contains(k as usize)),
        forall|k: int| v.nh() <= k < v.nn() ==> (#[trigger] a2[k] <==> v.cols[v.col(k)].contains(k as usize)),
    ensures
        a1 == a2,
{
    assert forall|k: int| 0 <= k < a1.len() implies a1[k] == a2[k] by {
        if k < v.nh() {
            assert(a1[k] && a2[k]);
        } else {
            assert(a1[k] <==> v.cols[v.col(k)].contains(k as usize));
            assert(a2[k] <==> v.cols[v.col(k)].contains(k as usize));
        }
    }
    assert(a1 =~= a2);
}

/// Every node attached in `a` is attached in `b`.
/// `s` holds a cell outside `c` whose option is not live in `att`, so no
/// extension of `c` by live options has the cells of `s`.
pub open spec fn outside_live(s: Seq<Pos>, c: Seq<Pos>, att: Seq<bool>, f: int, n: int) -> bool {
    exists|j: int| 0 <= j < s.len() && !c.contains(s[j]) && !cell_live(att, f, n, #[trigger] s[j])
}

/// A layout with a cell outside `c` that is not live differs, as a set of
/// cells, from every extension of `c` by live options.
pub proof fn lemma_outside_differs(a: Seq<Pos>, b: Seq<Pos>, c: Seq<Pos>, att: Seq<bool>, f: int, n: int)
    requires
        outside_live(a, c, att, f, n),
        extends_live(b, c, att, f, n),
    ensures
        a.to_set() != b.to_set(),
{
    let j = choose|j: int| 0 <= j < a.len() && !c.contains(a[j]) && !cell_live(att, f, n, #[trigger] a[j]);
    if a.to_set() == b.to_set() {
        assert(a.to_set().contains(a[j]));
        assert(b.to_set().contains(a[j]));
        let i = choose|i: int| 0 <= i < b.len() && b[i] == a[j];
        if i < c.len() {
            assert(b.take(c.len() as int)[i] == b[i]);
            assert(c[i] == a[j]);
        } else {
            assert(cell_live(att, f, n, b[i]));
        }
    }
}

pub open spec fn att_sub(a: Seq<bool>, b: Seq<bool>) -> bool {
    &&& a.len() == b.len()
    &&& forall|k: int| 0 <= k < a.len() && #[trigger] a[k] ==> b[k]
}

/// The option of cell `p` has its first node attached in `att`.
pub open spec fn cell_live(att: Seq<bool>, f: int, n: int, p: Pos) -> bool {
    let k = f + 3 * (p.0 * n + p.1);
    0 <= k < att.len() && att[k]
}

/// `s` extends `c`, and every cell after `c` is that of an option whose
/// first node is attached in `att`.
pub open spec fn extends_live(s: Seq<Pos>, c: Seq<Pos>, att: Seq<bool>, f: int, n: int) -> bool {
    &&& c.len() <= s.len()
    &&& s.take(c.len() as int) == c
    &&& forall|j: int| c.len() <= j < s.len() ==> cell_live(att, f, n, #[trigger] s[j])
}

/// The entries of `sols` from `from` on are pairwise different sets of cells.
pub open spec fn sets_distinct_from(sols: Seq<Vec<Pos>>, from: int) -> bool {
    forall|a: int, b: int| from <= a < b < sols.len() ==> (#[trigger] sols[a])@.to_set() != (#[trigger] sols[b])@.to_set()
}

/// Column `h` is one of the three columns of option `o`.
pub open spec fn opt_col(v: MatView, f: int, o: int, h: int) -> bool {
    h == v.col(f + 3 * o) || h == v.col(f + 3 * o + 1) || h == v.col(f + 3 * o + 2)
}

/// The three columns of option `o` are active.
pub open spec fn cols_active(v: MatView, f: int, o: int) -> bool {
    &&& v.hdr.contains(v.c[f + 3 * o].0)
    &&& v.hdr.contains(v.c[f + 3 * o + 1].0)
    &&& v.hdr.contains(v.c[f + 3 * o + 2].0)
}

impl DoubleSolver {
    /// Tweak: pull the option of `i`, the first node listed under the
    /// active column `p`, out of every list. The search state stays valid
    /// (with one option fewer), and `i` keeps the links that name its old
    /// neighbours.
    #[verifier::rlimit(60)]
    fn tweak(&mut self, p: Cell, i: Cell) -> (o: usize)
        requires
            old(self).search_ok(),
            0 < p.0 < old(self).m@.nh(),
            old(self).m@.hdr.contains(p.0),
            old(self).m@.cols[p.0 as int].len() > 1,
            i.0 == old(self).m@.cols[p.0 as int][1],
        ensures
            final(self).search_ok(),
            o == old(self).m@.row_id[i.0 as int],
            o < old(self).n * old(self).n,
            old(self).blocked@[o as int] == 0,
            !old(self).placed@.contains(o),
            option_hidden(final(self).attached@, final(self).first as int, o as int),
            old(self).attached@[old(self).first + 3 * o],
            att_sub(final(self).attached@, old(self).attached@),
            forall|kk: int|
                0 <= kk < old(self).attached@.len() && !(old(self).first + 3 * o <= kk <= old(self).first + 3 * o + 2)
                    ==> #[trigger] final(self).attached@[kk] == old(self).attached@[kk],
            cols_active(final(self).m@, final(self).first as int, o as int),
            final(self).m@.hdr == old(self).m@.hdr,
            final(self).m@.cols[p.0 as int] == old(self).m@.cols[p.0 as int].remove(1),
            final(self).m@.y[i.0 as int] == old(self).m@.y[i.0 as int],
            old(self).trail@.len() <= final(self).trail@.len(),
            final(self).trail@.take(old(self).trail@.len() as int) == old(self).trail@,
            final(self).hist@.take(old(self).hist@.len() as int) == old(self).hist@,
            final(self).need@ == old(self).need@,
            final(self).blocked@ == old(self).blocked@,
            final(self).placed@ == old(self).placed@,
            final(self).n == old(self).n,
            final(self).first == old(self).first,
            final(self).max_sols == old(self).max_sols,
            final(self).skip == old(self).skip,
            final(self).steps == old(self).steps,
            final(self).bounded == old(self).bounded,
            final(self).k == old(self).k,
            final(self).grid == old(self).grid,
    {
        let ghost v = self.m@;
        let ghost g = self.grid@;
        let ghost n = self.n as int;
        let ghost f = self.first as int;
        let ghost att = self.attached@;
        let ghost pl = self.placed@;
        let ghost pp = p.0 as int;
        let ghost ii = i.0 as int;
        proof {
            reveal(MatView::wf_cols);
            reveal(MatView::wf_shape);
            assert(v.col_ok(pp));
            assert(v.cols[pp].contains(i.0));
            assert(v.nh() <= ii < v.nn());
            assert(v.col(ii) == pp);
            assert(att[ii]);
        }
        let o = self.m.row_id[i.0];
        proof {
            assert(o < n * n);
            assert(0 < n) by (nonlinear_arith)
                requires
                    o < n * n,
                    0 <= n,
            ;
            lemma_option_nodes(v, g, o as int);
            assert(ii == f + 3 * o || ii == f + 3 * o + 1 || ii == f + 3 * o + 2);
            assert(option_settled(v, att, f, o as int));
            assert(node_live(v, att, ii));
            if self.blocked@[o as int] > 0 {
                assert(option_hidden(att, f, o as int));
            }
            if pl.contains(o) {
                let x = choose|x: int| 0 <= x < pl.len() && pl[x] == o;
                assert(option_hidden(att, f, pl[x] as int));
            }
        }
        let ns = self.nodes(o);
        let ghost hs0 = self.hist@;
        let ghost j0 = ns[0].0 as int;
        let ghost j1 = ns[1].0 as int;
        let ghost j2 = ns[2].0 as int;
        proof {
            lemma_detach_wf(v, j0);
        }
        self.detach(ns[0]);
        let ghost v1 = self.m@;
        proof {
            lemma_detach_wf(v1, j1);
        }
        self.detach(ns[1]);
        let ghost v2 = self.m@;
        proof {
            lemma_detach_wf(v2, j2);
        }
        self.detach(ns[2]);
        proof {
            let v3 = self.m@;
            let att3 = self.attached@;
            // column p loses exactly i, at its position 1
            assert(v.cols[pp].no_duplicates());
            crate::cover::lemma_pos_of(v.cols[pp], i.0);
            assert(pos_of(v.cols[pp], i.0) == 1);
            if ii == j0 {
                assert(v1.cols[pp] == v.cols[pp].remove(1));
                assert(v2.cols[pp] == v1.cols[pp]);
                assert(v3.cols[pp] == v2.cols[pp]);
            } else if ii == j1 {
                assert(v1.cols[pp] == v.cols[pp]);
                assert(v2.cols[pp] == v.cols[pp].remove(1));
                assert(v3.cols[pp] == v2.cols[pp]);
            } else {
                assert(v1.cols[pp] == v.cols[pp]);
                assert(v2.cols[pp] == v.cols[pp]);
                assert(v3.cols[pp] == v.cols[pp].remove(1));
            }
            assert(v3.y[ii] == v.y[ii]);
            assert(att3 =~= att.update(j0, false).update(j1, false).update(j2, false));
            assert forall|k: int| v.nh() <= k < v.nn() implies (#[trigger] att3[k] <==> (att[k] && !(v.row_id[k] as int
                == o as int))) by {}
            lemma_settled_hide(v, v3, att, att3, g, |r: int| r == o as int);
            assert(att_sub(att3, att));
            assert(v3.c == v.c);
            assert(self.hist@.take(hs0.len() as int) =~= hs0);
            assert(self.search_ok());
        }
        o
    }
}

impl DoubleSolver {
    /// One more bull for column `h`: its need drops, and when it reaches
    /// zero the column is covered.
    fn settle(&mut self, h: Cell)
        requires
            old(self).links_ok(),
            0 < h.0 < old(self).m@.nh(),
            old(self).m@.hdr.contains(h.0),
            old(self).need@.len() == old(self).m@.nh(),
            old(self).need@[h.0 as int] > 0,
            forall|r: int|
                0 <= r < old(self).n * old(self).n ==> #[trigger] option_settled(
                    old(self).m@,
                    old(self).attached@,
                    old(self).first as int,
                    r,
                ),
        ensures
            final(self).links_ok(),
            final(self).need@ == old(self).need@.update(h.0 as int, (old(self).need@[h.0 as int] - 1) as usize),
            forall|x: usize|
                #[trigger] final(self).m@.hdr.contains(x) <==> (old(self).m@.hdr.contains(x) && !(x == h.0 && old(
                    self,
                ).need@[h.0 as int] == 1)),
            forall|r: int|
                0 <= r < old(self).n * old(self).n ==> #[trigger] option_settled(
                    final(self).m@,
                    final(self).attached@,
                    final(self).first as int,
                    r,
                ),
            forall|r: int|
                0 <= r < old(self).n * old(self).n && option_hidden(old(self).attached@, old(self).first as int, r)
                    ==> #[trigger] option_hidden(final(self).attached@, final(self).first as int, r),
            att_sub(final(self).attached@, old(self).attached@),
            forall|q: int|
                0 <= q < old(self).n * old(self).n && !(old(self).need@[h.0 as int] == 1 && opt_col(
                    old(self).m@,
                    old(self).first as int,
                    q,
                    h.0 as int,
                )) ==> #[trigger] final(self).attached@[old(self).first + 3 * q] == old(self).attached@[old(self).first + 3 * q],
            final(self).m@.c == old(self).m@.c,
            old(self).trail@.len() <= final(self).trail@.len(),
            final(self).trail@.take(old(self).trail@.len() as int) == old(self).trail@,
            final(self).hist@.take(old(self).hist@.len() as int) == old(self).hist@,
            final(self).blocked@ == old(self).blocked@,
            final(self).placed@ == old(self).placed@,
            final(self).n == old(self).n,
            final(self).first == old(self).first,
            final(self).max_sols == old(self).max_sols,
            final(self).skip == old(self).skip,
            final(self).steps == old(self).steps,
            final(self).bounded == old(self).bounded,
            final(self).k == old(self).k,
            final(self).grid == old(self).grid,
    {
        let ghost v = self.m@;
        let ghost att = self.attached@;
        let x = self.need[h.0];
        self.need.set(h.0, x - 1);
        if x == 1 {
            let ghost hs = self.hist@;
            self.cover(h);
            proof {
                let v2 = self.m@;
                assert(self.hist@[0] == hs[0]);
                assert(v2.c == v.c);
                lemma_settled_cover(v, v2, att, self.attached@, self.grid@, h.0 as int);
                assert forall|k: int| 0 <= k < self.attached@.len() && #[trigger] self.attached@[k] implies att[k] by {
                    if k < v.nh() {
                        assert(att[k]);
                    }
                }
                let f = self.first as int;
                let n = self.n as int;
                let hh = h.0 as int;
                assert forall|q: int|
                    0 <= q < n * n && !(old(self).need@[hh] == 1 && opt_col(v, f, q, hh)) implies #[trigger] self.attached@[f
                        + 3 * q] == att[f + 3 * q] by {
                    assert(0 < n) by (nonlinear_arith)
                        requires
                            0 <= q < n * n,
                            0 <= n,
                    ;
                    lemma_option_nodes(v, self.grid@, q);
                    let kq = f + 3 * q;
                    if from_rows(v, hh, v.cols[hh].len() - 1, kq as usize) && v.col(kq) != hh {
                        let t2 = choose|t2: int| 1 <= t2 <= v.cols[hh].len() - 1 && #[trigger] v.row_id[v.cols[hh][t2] as int]
                            == v.row_id[kq];
                        crate::cover::lemma_col_members(v, hh);
                        let m = v.cols[hh][t2] as int;
                        assert(v.col(m) == hh);
                        assert(m == kq || m == kq + 1 || m == kq + 2);
                        assert(opt_col(v, f, q, hh));
                    }
                }
            }
        } else {
            proof {
                assert(self.trail@.take(self.trail@.len() as int) =~= self.trail@);
                assert(self.hist@.take(self.hist@.len() as int) =~= self.hist@);
            }
        }
    }

    /// Commit a bull on cell `o` (already tweaked off): block its
    /// neighbourhood, then charge its three columns, covering those that
    /// become full.
    #[verifier::rlimit(100)]
    fn place(&mut self, o: usize)
        requires
            old(self).search_ok(),
            o < old(self).n * old(self).n,
            old(self).blocked@[o as int] == 0,
            !old(self).placed@.contains(o),
            option_hidden(old(self).attached@, old(self).first as int, o as int),
            cols_active(old(self).m@, old(self).first as int, o as int),
        ensures
            final(self).search_ok(),
            final(self).placed@ == old(self).placed@.push(o),
            att_sub(final(self).attached@, old(self).attached@),
            forall|q: int|
                0 <= q < old(self).n * old(self).n && q != o && !around(old(self).n as int, o as int, q) && (forall|h: int|
                    opt_col(old(self).m@, old(self).first as int, q, h) ==> final(self).need@[h] > 0)
                    ==> #[trigger] final(self).attached@[old(self).first + 3 * q] == old(self).attached@[old(self).first + 3 * q],
            final(self).need@.len() == old(self).need@.len(),
            forall|h: int|
                0 <= h < old(self).need@.len() ==> #[trigger] final(self).need@[h] == old(self).need@[h] - (if opt_col(
                    old(self).m@,
                    old(self).first as int,
                    o as int,
                    h,
                ) {
                    1int
                } else {
                    0int
                }),
            final(self).blocked@.len() == old(self).blocked@.len(),
            forall|q: int|
                0 <= q < old(self).blocked@.len() ==> #[trigger] final(self).blocked@[q] == old(self).blocked@[q] + (if around(
                    old(self).n as int,
                    o as int,
                    q,
                ) {
                    1int
                } else {
                    0int
                }),
            old(self).trail@.len() <= final(self).trail@.len(),
            final(self).trail@.take(old(self).trail@.len() as int) == old(self).trail@,
            final(self).hist@.take(old(self).hist@.len() as int) == old(self).hist@,
            final(self).n == old(self).n,
            final(self).first == old(self).first,
            final(self).max_sols == old(self).max_sols,
            final(self).skip == old(self).skip,
            final(self).steps == old(self).steps,
            final(self).bounded == old(self).bounded,
            final(self).k == old(self).k,
            final(self).grid == old(self).grid,
    {
        let ghost v = self.m@;
        let ghost g = self.grid@;
        let ghost n = self.n as int;
        let ghost f = self.first as int;
        let ghost att = self.attached@;
        let ghost pl = self.placed@;
        let ghost b = self.blocked@;
        let ghost nd = self.need@;
        let ghost tr0 = self.trail@;
        let ghost hs0 = self.hist@;
        let ghost oo = o as int;
        proof {
            assert(0 < n) by (nonlinear_arith)
                requires
                    o < n * n,
                    0 <= n,
            ;
            lemma_option_nodes(v, g, oo);
            reveal(MatView::wf_shape);
            assert(v.c.len() == v.nn());
            lemma_nodup_bound(pl, (n * n) as nat);
            assert(n * n <= MAX_SIDE * MAX_SIDE) by (nonlinear_arith)
                requires
                    n <= MAX_SIDE,
                    0 <= n,
            ;
            assert forall|q: int| around(n, oo, q) implies #[trigger] b[q] < u32::MAX by {
                lemma_count_around(n, pl, q);
            }
        }
        self.block_neighbors(o, 1);
        let ghost v1 = self.m@;
        let ghost att1 = self.attached@;
        proof {
            assert forall|k: int| 0 <= k < att1.len() && #[trigger] att1[k] implies att[k] by {
                if k < v.nh() {
                    assert(att[k]);
                }
            }
            assert(self.hist@[0] == hs0[0]);
            lemma_settled_hide(v, v1, att, att1, g, |r: int| around(n, oo, r) && b[r] == 0);
        }
        let ns = self.nodes(o);
        let h0 = self.m.c[ns[0].0];
        proof {
            assert(h0.0 == v.col(f + 3 * oo));
            assert(v.hdr.contains((h0.0 as int) as usize));
            assert(nd[h0.0 as int] > 0);
        }
        self.settle(h0);
        let ghost att2 = self.attached@;
        let ghost tr2 = self.trail@;
        let ghost hs2 = self.hist@;
        let h1 = self.m.c[ns[1].0];
        proof {
            assert(h1.0 == v.col(f + 3 * oo + 1));
            assert(v.hdr.contains((h1.0 as int) as usize));
            assert(nd[h1.0 as int] > 0);
            assert(self.need@[h1.0 as int] == nd[h1.0 as int]);
        }
        self.settle(h1);
        let ghost att3 = self.attached@;
        let ghost tr3 = self.trail@;
        let ghost hs3 = self.hist@;
        let h2 = self.m.c[ns[2].0];
        proof {
            assert(h2.0 == v.col(f + 3 * oo + 2));
            assert(v.hdr.contains((h2.0 as int) as usize));
            assert(nd[h2.0 as int] > 0);
            assert(self.need@[h2.0 as int] == nd[h2.0 as int]);
        }
        self.settle(h2);
        proof {
            self.placed@ = pl.push(o);
            let pl2 = self.placed@;
            let v4 = self.m@;
            let att4 = self.attached@;
            let ids = id_labels(n);
            assert(self.trail@.take(tr0.len() as int) =~= tr0);
            assert(self.hist@.take(hs0.len() as int) =~= hs0);
            assert(pl2.drop_last() =~= pl);
            assert(pl2.last() == o);
            crate::solver::lemma_row_columns(v, g, ids, oo);
            assert(v.rows[oo][0] == f + 3 * oo);
            assert(v.rows[oo][1] == f + 3 * oo + 1);
            assert(v.rows[oo][2] == f + 3 * oo + 2);
            assert(self.need@ == nd.update(h0.0 as int, (nd[h0.0 as int] - 1) as usize).update(
                h1.0 as int,
                (nd[h1.0 as int] - 1) as usize,
            ).update(h2.0 as int, (nd[h2.0 as int] - 1) as usize));
            assert forall|h: int| 0 <= h < nd.len() implies #[trigger] self.need@[h] == nd[h] - (if opt_col(v, f, oo, h) {
                1int
            } else {
                0int
            }) by {}
            assert forall|h: int| 0 <= h < nd.len() implies (#[trigger] covers(g, ids, oo, h) <==> opt_col(v, f, oo, h)) by {
                if covers(g, ids, oo, h) {
                    let t = choose|t: int| 0 <= t < 3 && #[trigger] v.col(v.rows[oo][t] as int) == h;
                }
                if opt_col(v, f, oo, h) {
                    if h == v.col(f + 3 * oo) {
                        assert(covers(g, ids, oo, v.col(v.rows[oo][0] as int)));
                    } else if h == v.col(f + 3 * oo + 1) {
                        assert(covers(g, ids, oo, v.col(v.rows[oo][1] as int)));
                    } else {
                        assert(covers(g, ids, oo, v.col(v.rows[oo][2] as int)));
                    }
                }
            }
            assert forall|h: int| 1 <= h < v.nh() implies #[trigger] self.need@[h] + count_cov(g, pl2, h) == self.k@ by {
                assert(nd[h] + count_cov(g, pl, h) == self.k@);
            }
            assert forall|h: int| 1 <= h < v.nh() implies (#[trigger] v4.hdr.contains(h as usize) <==> self.need@[h] > 0) by {
                assert(v.hdr.contains(h as usize) <==> nd[h] > 0);
            }
            assert forall|q: int| 0 <= q < n * n implies #[trigger] self.blocked@[q] == count_around(n, pl2, q) by {}
            assert forall|q: int| 0 <= q < n * n && #[trigger] self.blocked@[q] > 0 implies option_hidden(att4, f, q) by {
                if b[q] > 0 {
                    assert(option_hidden(att, f, q));
                    assert(option_hidden(att1, f, q));
                } else {
                    assert(around(n, oo, q));
                    assert(option_hidden(att1, f, q));
                }
                assert(option_hidden(att2, f, q));
                assert(option_hidden(att3, f, q));
            }
            assert forall|x: int| 0 <= x < pl2.len() implies #[trigger] pl2[x] < n * n && option_hidden(att4, f, pl2[x] as int) by {
                if x < pl.len() {
                    assert(pl2[x] == pl[x]);
                }
                let q = pl2[x] as int;
                assert(option_hidden(att, f, q));
                assert(option_hidden(att1, f, q));
                assert(option_hidden(att2, f, q));
                assert(option_hidden(att3, f, q));
            }
            assert(pl2.no_duplicates()) by {
                assert forall|x: int, y: int| 0 <= x < pl2.len() && 0 <= y < pl2.len() && x != y implies pl2[x] != pl2[y] by {
                    if x < pl.len() && y < pl.len() {
                        assert(pl2[x] == pl[x] && pl2[y] == pl[y]);
                    } else if x < pl.len() {
                        assert(pl.contains(pl[x]));
                    } else if y < pl.len() {
                        assert(pl.contains(pl[y]));
                    }
                }
            }
            lemma_count_around(n, pl, oo);
            assert forall|x: int, y: int|
                0 <= x < pl2.len() && 0 <= y < pl2.len() && x != y implies !touching(
                cell_of(n, #[trigger] pl2[x] as int),
                cell_of(n, #[trigger] pl2[y] as int),
            ) by {
                if x < pl.len() && y < pl.len() {
                    assert(pl2[x] == pl[x] && pl2[y] == pl[y]);
                } else if x < pl.len() {
                    assert(pl2[x] == pl[x]);
                    assert(pl.contains(pl[x]));
                    assert(!around(n, pl[x] as int, oo));
                } else if y < pl.len() {
                    assert(pl2[y] == pl[y]);
                    assert(pl.contains(pl[y]));
                    assert(!around(n, pl[y] as int, oo));
                }
            }
            assert(self.search_ok());
            assert forall|q: int|
                0 <= q < n * n && q != o && !around(n, oo, q) && (forall|h: int| opt_col(v, f, q, h) ==> self.need@[h] > 0)
                    implies #[trigger] att4[f + 3 * q] == att[f + 3 * q] by {
                lemma_option_nodes(v, g, q);
                assert(v.row_id[f + 3 * q] == q);
                assert(att1[f + 3 * q] == att[f + 3 * q]);
                if opt_col(v, f, q, h0.0 as int) {
                    assert(self.need@[h0.0 as int] > 0);
                }
                if opt_col(v, f, q, h1.0 as int) {
                    assert(self.need@[h1.0 as int] > 0);
                }
                if opt_col(v, f, q, h2.0 as int) {
                    assert(self.need@[h2.0 as int] > 0);
                }
                assert(v1.c == v.c);
                assert(att2[f + 3 * q] == att1[f + 3 * q]);
                assert(att3[f + 3 * q] == att2[f + 3 * q]);
            }
        }
    }
}

/// After candidate `o` has been searched: the solutions found under it
/// start with the path and `o`'s cell, and differ as sets from every
/// earlier one, whose candidate cell is hidden from then on.
pub proof fn lemma_candidate_sols(
    n: int,
    f: int,
    o: int,
    att0: Seq<bool>,
    attw: Seq<bool>,
    att1: Seq<bool>,
    attc: Seq<bool>,
    csol0: Seq<Pos>,
    solsw: Seq<Vec<Pos>>,
    sols: Seq<Vec<Pos>>,
    from: int,
)
    requires
        0 < n <= MAX_SIDE,
        0 <= o < n * n,
        att_sub(attw, att0),
        att_sub(att1, attw),
        att_sub(attc, att1),
        0 <= f + 3 * o < attw.len(),
        attw[f + 3 * o],
        !att1[f + 3 * o],
        forall|j: int| 0 <= j < csol0.len() ==> !cell_live(att0, f, n, #[trigger] csol0[j]),
        0 <= from <= solsw.len(),
        forall|x: int| from <= x < solsw.len() ==> extends_live((#[trigger] solsw[x])@, csol0, att0, f, n),
        forall|x: int|
            from <= x < solsw.len() ==> (#[trigger] solsw[x])@.len() > csol0.len() && !cell_live(
                attw,
                f,
                n,
                solsw[x]@[csol0.len() as int],
            ),
        sets_distinct_from(solsw, from),
        solsw.len() <= sols.len(),
        sols.take(solsw.len() as int) == solsw,
        forall|x: int|
            solsw.len() <= x < sols.len() ==> extends_live(
                (#[trigger] sols[x])@,
                csol0.push(cell_of(n, o)),
                attc,
                f,
                n,
            ),
        sets_distinct_from(sols, solsw.len() as int),
    ensures
        forall|x: int| from <= x < sols.len() ==> extends_live((#[trigger] sols[x])@, csol0, att0, f, n),
        forall|x: int|
            from <= x < sols.len() ==> (#[trigger] sols[x])@.len() > csol0.len() && !cell_live(
                att1,
                f,
                n,
                sols[x]@[csol0.len() as int],
            ),
        sets_distinct_from(sols, from),
{
    let L = csol0.len() as int;
    let co = cell_of(n, o);
    lemma_cell_of_id(n, o);
    assert(f + 3 * (co.0 * n + co.1) == f + 3 * o);
    assert(cell_live(attw, f, n, co));
    assert(cell_live(att0, f, n, co));
    assert(!cell_live(att1, f, n, co));
    assert forall|x: int| from <= x < sols.len() implies extends_live((#[trigger] sols[x])@, csol0, att0, f, n) && (
    sols[x])@.len() > L && !cell_live(att1, f, n, sols[x]@[L]) by {
        if x < solsw.len() {
            assert(sols[x] == solsw[x]);
            let a = solsw[x]@;
            assert(!cell_live(attw, f, n, a[L]));
        } else {
            let b = sols[x]@;
            let c1 = csol0.push(co);
            assert(extends_live(b, c1, attc, f, n));
            assert(b.take(L + 1) == c1);
            assert(b[L] == b.take(L + 1)[L]);
            assert(b.take(L) =~= csol0) by {
                assert forall|j: int| 0 <= j < L implies b.take(L)[j] == csol0[j] by {
                    assert(b.take(L + 1)[j] == c1[j]);
                }
            }
            assert forall|j: int| L <= j < b.len() implies cell_live(att0, f, n, #[trigger] b[j]) by {
                if j > L {
                    assert(cell_live(attc, f, n, b[j]));
                }
            }
        }
    }
    assert forall|a: int, b: int| from <= a < b < sols.len() implies (#[trigger] sols[a])@.to_set() != (
    #[trigger] sols[b])@.to_set() by {
        if b < solsw.len() {
            assert(sols[a] == solsw[a]);
            assert(sols[b] == solsw[b]);
        } else if a >= solsw.len() {
        } else {
            assert(sols[a] == solsw[a]);
            let sa = solsw[a]@;
            let sb = sols[b]@;
            let p = sa[L];
            assert(sa.to_set().contains(p));
            assert(extends_live(sa, csol0, att0, f, n));
            assert(cell_live(att0, f, n, p));
            assert(!cell_live(attw, f, n, p));
            let c1 = csol0.push(co);
            assert(extends_live(sb, c1, attc, f, n));
            if sb.to_set().contains(p) {
                let j = choose|j: int| 0 <= j < sb.len() && sb[j] == p;
                if j < L {
                    assert(sb.take(L + 1)[j] == c1[j]);
                    assert(sb[j] == csol0[j]);
                } else if j == L {
                    assert(sb.take(L + 1)[j] == c1[j]);
                    assert(sb[j] == co);
                } else {
                    assert(cell_live(attc, f, n, sb[j]));
                }
            }
        }
    }
}

impl DoubleSolver {
    /// Take back the bull on cell `o`: give its three columns their need
    /// back, unblock its neighbourhood and relink everything unlinked since
    /// the trail was `mark` entries long.
    fn unplace(&mut self, o: usize, mark: usize)
        requires
            old(self).links_ok(),
            o < old(self).n * old(self).n,
            old(self).blocked@.len() == old(self).n * old(self).n,
            forall|q: int| around(old(self).n as int, o as int, q) ==> #[trigger] old(self).blocked@[q] >= 1,
            old(self).need@.len() == old(self).m@.nh(),
            forall|h: int|
                0 <= h < old(self).need@.len() && opt_col(old(self).m@, old(self).first as int, o as int, h)
                    ==> #[trigger] old(self).need@[h] < usize::MAX,
            mark <= old(self).trail@.len(),
        ensures
            final(self).links_ok(),
            final(self).m@ == old(self).hist@[mark as int],
            final(self).trail@ == old(self).trail@.take(mark as int),
            final(self).hist@ == old(self).hist@.take(mark as int + 1),
            final(self).need@.len() == old(self).need@.len(),
            forall|h: int|
                0 <= h < old(self).need@.len() ==> #[trigger] final(self).need@[h] == old(self).need@[h] + (if opt_col(
                    old(self).m@,
                    old(self).first as int,
                    o as int,
                    h,
                ) {
                    1int
                } else {
                    0int
                }),
            final(self).blocked@.len() == old(self).blocked@.len(),
            forall|q: int|
                0 <= q < old(self).blocked@.len() ==> #[trigger] final(self).blocked@[q] == old(self).blocked@[q] - (if around(
                    old(self).n as int,
                    o as int,
                    q,
                ) {
                    1int
                } else {
                    0int
                }),
            final(self).placed@ == old(self).placed@,
            final(self).n == old(self).n,
            final(self).first == old(self).first,
            final(self).max_sols == old(self).max_sols,
            final(self).skip == old(self).skip,
            final(self).steps == old(self).steps,
            final(self).bounded == old(self).bounded,
            final(self).k == old(self).k,
            final(self).grid == old(self).grid,
    {
        let ghost v = self.m@;
        let ghost nd = self.need@;
        let ghost f = self.first as int;
        let ghost oo = o as int;
        proof {
            assert(0 < self.n) by (nonlinear_arith)
                requires
                    o < self.n * self.n,
            ;
            lemma_option_nodes(v, self.grid@, oo);
            reveal(MatView::wf_shape);
        }
        let ns = self.nodes(o);
        let h0 = self.m.c[ns[0].0];
        let x0 = self.need[h0.0];
        self.need.set(h0.0, x0 + 1);
        let h1 = self.m.c[ns[1].0];
        let x1 = self.need[h1.0];
        self.need.set(h1.0, x1 + 1);
        let h2 = self.m.c[ns[2].0];
        let x2 = self.need[h2.0];
        self.need.set(h2.0, x2 + 1);
        proof {
            assert(h0.0 == v.col(f + 3 * oo));
            assert(h1.0 == v.col(f + 3 * oo + 1));
            assert(h2.0 == v.col(f + 3 * oo + 2));
            assert forall|h: int| 0 <= h < nd.len() implies #[trigger] self.need@[h] == nd[h] + (if opt_col(v, f, oo, h) {
                1int
            } else {
                0int
            }) by {}
        }
        self.block_neighbors(o, -1);
        self.undo_to(mark);
    }

    /// Try the candidates of the active column `p` in list order, each in
    /// turn placed, searched below and taken back, then kept tweaked off
    /// while the later ones run; finally relink them all.
    #[verifier::rlimit(100)]
    fn solve_candidates(&mut self, p: Cell, csol: &mut Vec<Pos>, sols: &mut Vec<Vec<Pos>>)
        requires
            old(self).search_ok(),
            0 < p.0 < old(self).m@.nh(),
            old(self).m@.hdr.contains(p.0),
            old(self).m@.size[p.0 as int] <= old(self).n + old(self).k@,
            old(self).m@.size[p.0 as int] > 0 ==> old(self).placed@.len() < old(self).k@ * old(self).n
                && old(self).placed@.len() < old(self).n * old(self).n,
            old(csol)@ == crate::solver::sol_of(old(self).n as int, old(self).placed@),
            all_solutions(old(self).grid@, old(self).k@ as int, old(sols)@),
            forall|y: int|
                0 <= y < old(sols)@.len() ==> outside_live(
                    (#[trigger] old(sols)@[y])@,
                    old(csol)@,
                    old(self).attached@,
                    old(self).first as int,
                    old(self).n as int,
                ),
        ensures
            forall|y: int, x: int|
                0 <= y < old(sols)@.len() <= x < final(sols)@.len() ==> (#[trigger] final(sols)@[y])@.to_set() != (
                #[trigger] final(sols)@[x])@.to_set(),
            final(self).search_ok(),
            final(self).m@ == old(self).m@,
            final(self).attached@ == old(self).attached@,
            final(self).need@ == old(self).need@,
            final(self).blocked@ == old(self).blocked@,
            final(self).trail@ == old(self).trail@,
            final(self).hist@ == old(self).hist@,
            final(self).placed@ == old(self).placed@,
            final(self).n == old(self).n,
            final(self).first == old(self).first,
            final(self).max_sols == old(self).max_sols,
            final(self).skip == old(self).skip,
            final(self).k == old(self).k,
            final(self).grid == old(self).grid,
            final(self).steps <= old(self).steps,
            final(self).bounded == old(self).bounded,
            !old(self).bounded ==> final(self).steps == old(self).steps,
            old(self).steps - final(self).steps <= placement_bound(
                (old(self).n + old(self).k@) as nat,
                bulls_left(old(self).n as int, old(self).k@ as int, old(self).placed@.len() as int),
            ),
            final(csol)@ == old(csol)@,
            all_solutions(old(self).grid@, old(self).k@ as int, final(sols)@),
            old(sols)@.len() <= final(sols)@.len(),
            final(sols)@.take(old(sols)@.len() as int) == old(sols)@,
            forall|x: int|
                old(sols)@.len() <= x < final(sols)@.len() ==> extends_live(
                    (#[trigger] final(sols)@[x])@,
                    old(csol)@,
                    old(self).attached@,
                    old(self).first as int,
                    old(self).n as int,
                ),
            sets_distinct_from(final(sols)@, old(sols)@.len() as int),
            forall|x: int| old(sols)@.len() <= x < final(sols)@.len() ==> !skipped(old(self).skip, (#[trigger] final(sols)@[x])@),
            old(sols)@.len() <= old(self).max_sols ==> final(sols)@.len() <= old(self).max_sols,
            (final(sols)@.len() < old(self).max_sols && final(self).steps > 0 && crate::double_count::all_labels(old(self).grid@))
                ==> complete_below(
                old(self).grid@,
                old(self).k@ as int,
                old(csol)@,
                old(self).attached@,
                old(self).first as int,
                old(self).skip,
                final(sols)@,
                old(sols)@.len() as int,
            ),
        decreases old(self).n * old(self).n - old(self).placed@.len(), 0int,
    {
        let ghost v0 = self.m@;
        let ghost att0 = self.attached@;
        let ghost nd0 = self.need@;
        let ghost b0 = self.blocked@;
        let ghost pl0 = self.placed@;
        let ghost tr0 = self.trail@;
        let ghost hs0 = self.hist@;
        let ghost sols0 = sols@;
        let ghost csol0 = csol@;
        let ghost g = self.grid@;
        let ghost kk = self.k@ as int;
        let ghost pp = p.0 as int;
        let mark_level = self.trail.len();
        let ghost bb = ((self.n as int) + self.k@) as nat;
        let ghost cl = bulls_left(self.n as int, self.k@ as int, pl0.len() as int);
        let ghost brec = placement_bound(bb, (cl - 1) as nat);
        proof {
            reveal(MatView::wf_cols);
            reveal(MatView::wf_shape);
            assert(v0.col_ok(pp));
            assert(v0.y[v0.cols[pp][0] as int].next.0 == crate::llist::succ(v0.cols[pp], 0));
            assert(self.trail@.take(tr0.len() as int) =~= tr0);
            assert(self.hist@.take(hs0.len() as int) =~= hs0);
            assert(sols@.take(sols0.len() as int) =~= sols0);
            let n = self.n as int;
            let f = self.first as int;
            assert forall|j: int| 0 <= j < csol0.len() implies !cell_live(att0, f, n, #[trigger] csol0[j]) by {
                let q = pl0[j] as int;
                assert(q < n * n && option_hidden(att0, f, q));
                assert(0 < n) by (nonlinear_arith)
                    requires
                        q < n * n,
                        0 <= q,
                        0 <= n,
                ;
                lemma_cell_of_id(n, q);
                assert(csol0[j] == cell_of(n, q));
            }
        }
        let mut i = self.m.y.index(p).next;
        while i.0 != p.0
            invariant
                self.search_ok(),
                p.0 == pp,
                0 < pp < self.m@.nh(),
                self.m@.hdr == v0.hdr,
                v0.hdr.contains(p.0),
                i.0 == crate::llist::succ(self.m@.cols[pp], 0),
                self.need@ == nd0,
                self.blocked@ == b0,
                self.placed@ == pl0,
                mark_level == tr0.len(),
                hs0.len() == tr0.len() + 1,
                tr0.len() <= self.trail@.len(),
                self.trail@.take(tr0.len() as int) == tr0,
                self.hist@.take(hs0.len() as int) == hs0,
                csol@ == csol0,
                csol0 == crate::solver::sol_of(self.n as int, pl0),
                g == self.grid@,
                kk == self.k@ as int,
                all_solutions(g, kk, sols@),
                sols0.len() <= sols@.len(),
                sols@.take(sols0.len() as int) == sols0,
                att0 == old(self).attached@,
                att_sub(self.attached@, att0),
                forall|j: int| 0 <= j < csol0.len() ==> !cell_live(att0, self.first as int, self.n as int, #[trigger] csol0[j]),
                forall|x: int|
                    sols0.len() <= x < sols@.len() ==> extends_live(
                        (#[trigger] sols@[x])@,
                        csol0,
                        att0,
                        self.first as int,
                        self.n as int,
                    ),
                forall|x: int|
                    sols0.len() <= x < sols@.len() ==> (#[trigger] sols@[x])@.len() > csol0.len() && !cell_live(
                        self.attached@,
                        self.first as int,
                        self.n as int,
                        sols@[x]@[csol0.len() as int],
                    ),
                sets_distinct_from(sols@, sols0.len() as int),
                forall|y: int|
                    0 <= y < sols0.len() ==> outside_live(
                        (#[trigger] sols0[y])@,
                        csol0,
                        att0,
                        self.first as int,
                        self.n as int,
                    ),
                forall|x: int| sols0.len() <= x < sols@.len() ==> !skipped(self.skip, (#[trigger] sols@[x])@),
                sols0.len() <= self.max_sols ==> sols@.len() <= self.max_sols,
                self.steps <= old(self).steps,
                self.bounded == old(self).bounded,
                !self.bounded ==> self.steps == old(self).steps,
                self.m@.cols[pp].len() <= v0.cols[pp].len(),
                v0.cols[pp].len() - self.m@.cols[pp].len() > 0 ==> cl >= 1,
                bb == ((self.n as int) + self.k@) as nat,
                cl == bulls_left(self.n as int, self.k@ as int, pl0.len() as int),
                v0.size[pp] == v0.cols[pp].len() - 1,
                v0.size[pp] > 0 ==> pl0.len() < self.k@ * self.n && pl0.len() < self.n * self.n,
                brec == placement_bound(bb, (cl - 1) as nat),
                old(self).steps - self.steps <= (v0.cols[pp].len() - self.m@.cols[pp].len()) * (1 + brec),
                self.n == old(self).n,
                self.first == old(self).first,
                self.max_sols == old(self).max_sols,
                self.skip == old(self).skip,
                self.k == old(self).k,
                self.grid == old(self).grid,
                pl0 == old(self).placed@,
                (sols@.len() < self.max_sols && self.steps > 0 && crate::double_count::all_labels(g)) ==> forall|x: Seq<Pos>|
                    #[trigger] cand_tracked(
                        g,
                        kk,
                        csol0,
                        att0,
                        self.attached@,
                        self.first as int,
                        self.skip,
                        sols@,
                        sols0.len() as int,
                        x,
                    ),
            ensures
                (sols@.len() < self.max_sols && self.steps > 0) ==> i.0 == p.0,
            decreases self.m@.cols[pp].len(),
        {
            if sols.len() >= self.max_sols || self.steps == 0 {
                break;
            }
            let ghost w = self.m@;
            let ghost attw = self.attached@;
            let ghost trw = self.trail@;
            let ghost hsw = self.hist@;
            let ghost solsw = sols@;
            proof {
                reveal(MatView::wf_cols);
                reveal(MatView::wf_shape);
                assert(w.col_ok(pp));
                assert(w.cols[pp].len() > 1) by {
                    if w.cols[pp].len() <= 1 {
                        assert(w.cols[pp][0] == pp);
                    }
                }
                assert(w.y[w.cols[pp][1] as int].next.0 == crate::llist::succ(w.cols[pp], 1));
            }
            let o = self.tweak(p, i);
            let ghost s1 = *self;
            let ghost stw = self.steps;
            if self.bounded {
                self.steps = self.steps - 1;
            }
            let mark = self.trail.len();
            csol.push((o / self.n, o % self.n));
            self.place(o);
            proof {
                assert(csol@ =~= crate::solver::sol_of(self.n as int, self.placed@));
                lemma_nodup_bound(self.placed@, (self.n * self.n) as nat);
            }
            let ghost attc = self.attached@;
            let ghost csolc = csol@;
            let ghost sc = *self;
            let ghost st_before = self.steps;
            proof {
                let n = self.n as int;
                let f = self.first as int;
                assert(0 < n) by (nonlinear_arith)
                    requires
                        o < n * n,
                        0 <= n,
                ;
                lemma_cell_of_id(n, o as int);
                let co = cell_of(n, o as int);
                assert(csol@ == csol0.push(co));
                assert(cell_live(attw, f, n, co));
                assert(cell_live(att0, f, n, co));
                assert forall|y: int| 0 <= y < sols@.len() implies outside_live((#[trigger] sols@[y])@, csol@, attc, f, n) by {
                    let sy = sols@[y]@;
                    if y < sols0.len() {
                        assert(sols@[y] == sols0[y]) by {
                            assert(sols@.take(sols0.len() as int)[y] == sols@[y]);
                        }
                        assert(outside_live(sols0[y]@, csol0, att0, f, n));
                        let j = choose|j: int| 0 <= j < sy.len() && !csol0.contains(sy[j]) && !cell_live(att0, f, n, #[trigger] sy[j]);
                        let e = sy[j];
                        assert(e != co);
                        assert(!csol@.contains(e)) by {
                            if csol@.contains(e) {
                                let i = choose|i: int| 0 <= i < csol@.len() && csol@[i] == e;
                                if i < csol0.len() {
                                    assert(csol0[i] == e);
                                }
                            }
                        }
                        assert(!cell_live(attc, f, n, e));
                    } else {
                        let j = csol0.len() as int;
                        let e = sy[j];
                        assert(!cell_live(attw, f, n, e));
                        assert(extends_live(sy, csol0, att0, f, n));
                        assert(cell_live(att0, f, n, e));
                        assert(e != co);
                        assert(!csol@.contains(e)) by {
                            if csol@.contains(e) {
                                let i = choose|i: int| 0 <= i < csol@.len() && csol@[i] == e;
                                if i < csol0.len() {
                                    assert(!cell_live(att0, f, n, csol0[i]));
                                }
                            }
                        }
                        assert(!cell_live(attc, f, n, e));
                    }
                }
            }
            self.solve_rec(csol, sols);
            proof {
                assert(v0.size[pp] > 0);
                assert(bulls_left(self.n as int, self.k@ as int, (pl0.len() + 1) as int) == cl - 1);
                assert(st_before - self.steps <= brec);
                assert(stw - st_before <= 1);
                let it0 = v0.cols[pp].len() - w.cols[pp].len();
                assert(it0 * (1 + brec) + (1 + brec) == (it0 + 1) * (1 + brec)) by (nonlinear_arith);
            }
            proof {
                assert(self.hist@[0] == s1.hist@[0]);
                assert(self.m@.c == s1.m@.c);
                assert forall|h: int|
                    0 <= h < self.need@.len() && opt_col(self.m@, self.first as int, o as int, h) implies #[trigger] self.need@[h]
                        < usize::MAX by {
                    assert(opt_col(s1.m@, s1.first as int, o as int, h));
                }
                assert forall|q: int| around(self.n as int, o as int, q) implies #[trigger] self.blocked@[q] >= 1 by {}
            }
            self.unplace(o, mark);
            csol.pop();
            proof {
                self.placed@ = pl0;
                lemma_attached_determined(s1.m@, self.attached@, s1.attached@);
                assert(self.need@ =~= s1.need@);
                assert(self.blocked@ =~= s1.blocked@);
                assert(csol@ =~= csol0);
                assert(self.m@ == s1.m@);
                assert(self.trail@ == s1.trail@);
                assert(self.hist@ == s1.hist@);
                assert(self.search_ok());
            }
            let nx = self.m.y.index(i).next;
            proof {
                let c = w.cols[pp];
                assert(self.m@.cols[pp] == c.remove(1));
                assert(crate::llist::succ(c.remove(1), 0) == crate::llist::succ(c, 1));
                assert(self.trail@.take(tr0.len() as int) =~= tr0) by {
                    assert(s1.trail@.take(trw.len() as int) == trw);
                }
                assert(self.hist@.take(hs0.len() as int) =~= hs0) by {
                    assert(s1.hist@.take(hsw.len() as int) == hsw);
                }
                assert(sols@.take(sols0.len() as int) =~= sols0) by {
                    assert(sols@.take(solsw.len() as int) == solsw);
                }
                assert forall|x: int| sols0.len() <= x < sols@.len() implies !skipped(self.skip, (#[trigger] sols@[x])@) by {
                    if x < solsw.len() {
                        assert(sols@[x] == solsw[x]);
                    }
                }
                lemma_candidate_sols(self.n as int, self.first as int, o as int, att0, attw, s1.attached@, attc, csol0, solsw, sols@, sols0.len() as int);
                if sols@.len() < self.max_sols && self.steps > 0 && crate::double_count::all_labels(g) {
                    let n = self.n as int;
                    let f = self.first as int;
                    assert(0 < n) by (nonlinear_arith)
                        requires
                            o < n * n,
                            0 <= n,
                    ;
                    assert(csolc == csol0.push(cell_of(n, o as int))) by {
                        lemma_cell_of_id(n, o as int);
                    }
                    assert(sc.hist@[0] == s1.hist@[0]);
                    assert(sc.m@.nh() == s1.m@.nh());
                    assert(sc.placed@ == pl0.push(o));
                    assert forall|h: int| 1 <= h < s1.m@.nh() implies #[trigger] sc.need@[h] + count_cov(g, pl0.push(o), h) == kk by {
                        assert(sc.search_ok());
                    }
                    lemma_candidate_complete(
                        g,
                        kk,
                        s1.m@,
                        pl0,
                        csol0,
                        att0,
                        attw,
                        s1.attached@,
                        attc,
                        sc.need@,
                        o as int,
                        self.skip,
                        solsw,
                        sols@,
                        sols0.len() as int,
                    );
                }
            }
            i = nx;
        }
        proof {
            if sols@.len() < self.max_sols && self.steps > 0 && crate::double_count::all_labels(g) {
                let n = self.n as int;
                let f = self.first as int;
                let vc = self.m@;
                assert(vc.nh() == 3 * n + 1);
                assert(0 < n);
                reveal(MatView::wf_cols);
                reveal(MatView::wf_shape);
                assert(vc.col_ok(pp));
                assert forall|x: Seq<Pos>| candidate(g, kk, csol0, att0, f, self.skip, x) implies found_set(
                    sols@,
                    sols0.len() as int,
                    csol0 + x,
                ) by {
                    assert(cand_tracked(g, kk, csol0, att0, self.attached@, f, self.skip, sols@, sols0.len() as int, x));
                    if !found_set(sols@, sols0.len() as int, csol0 + x) {
                        assert(vc.hdr.contains(pp as usize));
                        assert(self.search_ok());
                        assert(self.need@[pp] > 0);
                        assert(self.need@[pp] + count_cov(g, pl0, pp) == kk);
                        assert(count_cov(g, pl0, pp) < kk);
                        let j = lemma_extra_provides(g, kk, pl0, x, pp);
                        lemma_extra_live(vc, self.attached@, g, nd0, kk, pl0, x, j);
                        let o = opt_of(n, x[j]);
                        lemma_option_nodes(vc, g, o);
                        let node = node_in(vc, f, o, pp);
                        assert(opt_col(vc, f, o, pp));
                        assert(vc.col(node) == pp);
                        assert(self.attached@[node]);
                        assert(vc.cols[pp].contains(node as usize));
                        assert(vc.cols[pp][0] == pp);
                        assert(vc.cols[pp].len() > 1) by {
                            let t = choose|t: int| 0 <= t < vc.cols[pp].len() && vc.cols[pp][t] == node as usize;
                            assert(t != 0);
                        }
                        assert(vc.cols[pp][1] != vc.cols[pp][0]);
                    }
                }
            }
        }
        proof {
            let n = self.n as int;
            let f = self.first as int;
            assert forall|y: int, x: int| 0 <= y < sols0.len() <= x < sols@.len() implies (#[trigger] sols@[y])@.to_set() != (
            #[trigger] sols@[x])@.to_set() by {
                assert(sols@[y] == sols0[y]) by {
                    assert(sols@.take(sols0.len() as int)[y] == sols@[y]);
                }
                lemma_outside_differs(sols0[y]@, sols@[x]@, csol0, att0, f, n);
            }
        }
        proof {
            reveal(MatView::wf_cols);
            assert(v0.col_ok(pp));
            let iters = v0.cols[pp].len() - self.m@.cols[pp].len();
            assert(self.m@.cols[pp].len() >= 1) by {
                assert(self.m@.col_ok(pp));
            }
            assert(iters <= v0.size[pp]);
            assert(old(self).steps - self.steps <= iters * (1 + brec));
            if iters > 0 {
                assert(iters * (1 + brec) <= bb * (1 + brec)) by (nonlinear_arith)
                    requires
                        0 <= iters <= bb,
                        brec >= 0,
                ;
                assert(placement_bound(bb, cl) == bb * (1 + brec));
                assert(old(self).steps - self.steps <= placement_bound(bb, cl));
            } else {
                assert(iters * (1 + brec) == 0) by (nonlinear_arith)
                    requires
                        iters == 0,
                ;
            }
            assert(old(self).steps - self.steps <= placement_bound(bb, cl));
        }
        let ghost st_end = self.steps;
        self.undo_to(mark_level);
        proof {
            assert(self.steps == st_end);
            assert(bb == (old(self).n + old(self).k@) as nat);
            assert(cl == bulls_left(old(self).n as int, old(self).k@ as int, old(self).placed@.len() as int));
            assert(old(self).steps - self.steps <= placement_bound(bb, cl));
            lemma_attached_determined(v0, self.attached@, att0);
            assert(self.trail@ =~= tr0);
            assert(self.hist@ =~= hs0);
            assert(self.m@ == v0);
            assert(self.search_ok());
        }
    }
}

/// Every list of `sols` places `k` bulls per row, column and region of `g`.
pub open spec fn all_solutions(g: Seq<Vec<usize>>, k: int, sols: Seq<Vec<Pos>>) -> bool {
    forall|i: int| 0 <= i < sols.len() ==> crate::board::is_solution_k(g, (#[trigger] sols[i])@, k)
}

/// The empty board has exactly one solution, the empty one, for any `k`.
pub proof fn lemma_empty_unique(k: int)
    ensures
        unique_solution(Seq::<Vec<usize>>::empty(), k),
{
    let g = Seq::<Vec<usize>>::empty();
    let e = Seq::<Pos>::empty();
    assert(label_set_empty(g)) by {
        assert forall|l: usize| !crate::board::label_set(g).contains(l) by {}
    }
    assert(crate::board::is_solution_k(g, e, k));
    assert forall|t: Seq<Pos>| #[trigger] crate::board::is_solution_k(g, t, k) implies t.to_set() == e.to_set() by {
        if t.len() > 0 {
            assert(t[0].0 < 0);
        }
        assert(t.to_set() =~= e.to_set());
    }
}

/// No cell carries a label.
spec fn label_set_empty(g: Seq<Vec<usize>>) -> bool {
    forall|l: usize| !crate::board::label_set(g).contains(l)
}

/// How many placements a search subtree `d` levels above the last possible
/// placement makes at most when each node tries at most `b` candidates:
/// b + b^2 + ... + b^d.
pub open spec fn placement_bound(b: nat, d: nat) -> nat
    decreases d,
{
    if d == 0 {
        0
    } else {
        b * (1 + placement_bound(b, (d - 1) as nat))
    }
}

/// On boards of side at most 3 with at most two bulls per line the whole
/// search places fewer than 2^32 - 1 bulls, so a budget of `usize::MAX`
/// is never used up there.
pub proof fn lemma_small_double_boards_bounded(n: nat, k: nat)
    requires
        n <= 3,
        k <= 2,
    ensures
        placement_bound(n + k, n * n) < 0xffff_ffff,
{
    reveal_with_fuel(placement_bound, 10);
    if n == 0 && k == 0 {
        assert(n + k == 0 && n * n == 0);
        assert(placement_bound(0, 0) == 0);
    } else if n == 0 && k == 1 {
        assert(n + k == 1 && n * n == 0);
        assert(placement_bound(1, 0) == 0);
    } else if n == 0 && k == 2 {
        assert(n + k == 2 && n * n == 0);
        assert(placement_bound(2, 0) == 0);
    } else if n == 1 && k == 0 {
        assert(n + k == 1 && n * n == 1);
        assert(placement_bound(1, 1) == 1);
    } else if n == 1 && k == 1 {
        assert(n + k == 2 && n * n == 1);
        assert(placement_bound(2, 1) == 2);
    } else if n == 1 && k == 2 {
        assert(n + k == 3 && n * n == 1);
        assert(placement_bound(3, 1) == 3);
    } else if n == 2 && k == 0 {
        assert(n + k == 2 && n * n == 4);
        assert(placement_bound(2, 4) == 30);
    } else if n == 2 && k == 1 {
        assert(n + k == 3 && n * n == 4);
        assert(placement_bound(3, 4) == 120);
    } else if n == 2 && k == 2 {
        assert(n + k == 4 && n * n == 4);
        assert(placement_bound(4, 4) == 340);
    } else if n == 3 && k == 0 {
        assert(n + k == 3 && n * n == 9);
        assert(placement_bound(3, 9) == 29523);
    } else if n == 3 && k == 1 {
        assert(n + k == 4 && n * n == 9);
        assert(placement_bound(4, 9) == 349524);
    } else if n == 3 && k == 2 {
        assert(n + k == 5 && n * n == 9);
        assert(placement_bound(5, 9) == 2441405);
    }
}

/// On boards of side at most 5 with at most two bulls per line the whole
/// search places fewer than 2^32 - 1 bulls, counting at most `k` per line:
/// a budget of `usize::MAX` is never used up there.
pub proof fn lemma_small_double_searches_bounded(n: nat, k: nat)
    requires
        n <= 5,
        k <= 2,
    ensures
        placement_bound(n + k, k * n) < 0xffff_ffff,
{
    reveal_with_fuel(placement_bound, 11);
    if n == 0 && k == 0 {
        assert(n + k == 0 && k * n == 0);
        assert(placement_bound(0, 0) == 0);
    } else if n == 0 && k == 1 {
        assert(n + k == 1 && k * n == 0);
        assert(placement_bound(1, 0) == 0);
    } else if n == 0 && k == 2 {
        assert(n + k == 2 && k * n == 0);
        assert(placement_bound(2, 0) == 0);
    } else if n == 1 && k == 0 {
        assert(n + k == 1 && k * n == 0);
        assert(placement_bound(1, 0) == 0);
    } else if n == 1 && k == 1 {
        assert(n + k == 2 && k * n == 1);
        assert(placement_bound(2, 1) == 2);
    } else if n == 1 && k == 2 {
        assert(n + k == 3 && k * n == 2);
        assert(placement_bound(3, 2) == 12);
    } else if n == 2 && k == 0 {
        assert(n + k == 2 && k * n == 0);
        assert(placement_bound(2, 0) == 0);
    } else if n == 2 && k == 1 {
        assert(n + k == 3 && k * n == 2);
        assert(placement_bound(3, 2) == 12);
    } else if n == 2 && k == 2 {
        assert(n + k == 4 && k * n == 4);
        assert(placement_bound(4, 4) == 340);
    } else if n == 3 && k == 0 {
        assert(n + k == 3 && k * n == 0);
        assert(placement_bound(3, 0) == 0);
    } else if n == 3 && k == 1 {
        assert(n + k == 4 && k * n == 3);
        assert(placement_bound(4, 3) == 84);
    } else if n == 3 && k == 2 {
        assert(n + k == 5 && k * n == 6);
        assert(placement_bound(5, 6) == 19530);
    } else if n == 4 && k == 0 {
        assert(n + k == 4 && k * n == 0);
        assert(placement_bound(4, 0) == 0);
    } else if n == 4 && k == 1 {
        assert(n + k == 5 && k * n == 4);
        assert(placement_bound(5, 4) == 780);
    } else if n == 4 && k == 2 {
        assert(n + k == 6 && k * n == 8);
        assert(placement_bound(6, 8) == 2015538);
    } else if n == 5 && k == 0 {
        assert(n + k == 5 && k * n == 0);
        assert(placement_bound(5, 0) == 0);
    } else if n == 5 && k == 1 {
        assert(n + k == 6 && k * n == 5);
        assert(placement_bound(6, 5) == 9330);
    } else if n == 5 && k == 2 {
        assert(n + k == 7 && k * n == 10);
        assert(placement_bound(7, 10) == 329554456);
    }
}

/// Placements still possible with `len` bulls placed on a side-`n` board
/// with `k` bulls per line: at most `k * n` bulls, and at most one per cell.
pub open spec fn bulls_left(n: int, k: int, len: int) -> nat {
    let cap = if k * n <= n * n { k * n } else { n * n };
    if len <= cap {
        (cap - len) as nat
    } else {
        0
    }
}

/// A deeper subtree has the larger placement bound.
pub proof fn lemma_placement_bound_mono(b: nat, d1: nat, d2: nat)
    requires
        d1 <= d2,
    ensures
        placement_bound(b, d1) <= placement_bound(b, d2),
    decreases d2 - d1,
{
    if d1 < d2 {
        lemma_placement_bound_mono(b, d1, (d2 - 1) as nat);
        let x = placement_bound(b, (d2 - 1) as nat);
        assert(x <= b * (1 + x)) by (nonlinear_arith)
            requires
                x >= 0,
                b >= 0,
                b == 0 ==> x == 0,
        ;
        if b == 0 {
            assert(placement_bound(0, (d2 - 1) as nat) == 0) by {
                lemma_placement_bound_zero((d2 - 1) as nat);
            }
        }
    }
}

/// With no candidates per node nothing is placed.
pub proof fn lemma_placement_bound_zero(d: nat)
    ensures
        placement_bound(0, d) == 0,
    decreases d,
{
    if d > 0 {
        lemma_placement_bound_zero((d - 1) as nat);
    }
}

/// Bulls counted by the board-row columns 1..=m.
pub open spec fn rows_cov(g: Seq<Vec<usize>>, pl: Seq<usize>, m: int) -> int
    decreases m,
{
    if m <= 0 {
        0
    } else {
        rows_cov(g, pl, m - 1) + count_cov(g, pl, m)
    }
}

/// How many of the columns 1..=m option `o` provides.
pub open spec fn row_hits(g: Seq<Vec<usize>>, o: int, m: int) -> int
    decreases m,
{
    if m <= 0 {
        0
    } else {
        row_hits(g, o, m - 1) + if covers(g, id_labels(g.len() as int), o, m) {
            1int
        } else {
            0int
        }
    }
}

/// Adding a placed option adds its hits to the row counts.
proof fn lemma_rows_cov_step(g: Seq<Vec<usize>>, pl: Seq<usize>, m: int)
    requires
        pl.len() > 0,
    ensures
        rows_cov(g, pl, m) == rows_cov(g, pl.drop_last(), m) + row_hits(g, pl.last() as int, m),
    decreases m,
{
    if m > 0 {
        lemma_rows_cov_step(g, pl, m - 1);
    }
}

/// An option on the board provides exactly one board-row column: its own.
proof fn lemma_row_hits(g: Seq<Vec<usize>>, o: int, m: int)
    requires
        0 < g.len() <= MAX_SIDE,
        forall|r: int, c: int| 0 <= r < g.len() && 0 <= c < g.len() ==> #[trigger] label(g, r, c) < g.len(),
        0 <= o < g.len() * g.len(),
        0 <= m <= g.len(),
    ensures
        row_hits(g, o, m) == if o / (g.len() as int) < m { 1int } else { 0int },
    decreases m,
{
    let n = g.len() as int;
    if m > 0 {
        lemma_row_hits(g, o, m - 1);
        lemma_cell_of_id(n, o);
        let l = label(g, o / n, o % n);
        lemma_id_labels(n, l);
    }
}

/// The row counts add up to the number of placed bulls.
proof fn lemma_rows_cov_len(g: Seq<Vec<usize>>, pl: Seq<usize>)
    requires
        0 < g.len() <= MAX_SIDE,
        forall|r: int, c: int| 0 <= r < g.len() && 0 <= c < g.len() ==> #[trigger] label(g, r, c) < g.len(),
        forall|i: int| 0 <= i < pl.len() ==> #[trigger] pl[i] < g.len() * g.len(),
    ensures
        rows_cov(g, pl, g.len() as int) == pl.len(),
    decreases pl.len(),
{
    let n = g.len() as int;
    if pl.len() == 0 {
        lemma_rows_cov_empty(g, pl, n);
    } else {
        let p0 = pl.drop_last();
        assert forall|i: int| 0 <= i < p0.len() implies #[trigger] p0[i] < g.len() * g.len() by {
            assert(p0[i] == pl[i]);
        }
        lemma_rows_cov_len(g, p0);
        lemma_rows_cov_step(g, pl, n);
        lemma_cell_of_id(n, pl.last() as int);
        lemma_row_hits(g, pl.last() as int, n);
    }
}

/// With nothing placed the row counts are zero.
proof fn lemma_rows_cov_empty(g: Seq<Vec<usize>>, pl: Seq<usize>, m: int)
    requires
        pl.len() == 0,
    ensures
        rows_cov(g, pl, m) == 0,
    decreases m,
{
    if m > 0 {
        lemma_rows_cov_empty(g, pl, m - 1);
    }
}

/// Row counts of at most `k` each, one of them short, sum below `k * m`.
proof fn lemma_rows_cov_short(g: Seq<Vec<usize>>, pl: Seq<usize>, m: int, k: int, h0: int)
    requires
        forall|h: int| 1 <= h <= m ==> #[trigger] count_cov(g, pl, h) <= k,
        1 <= h0 <= m,
        count_cov(g, pl, h0) < k,
    ensures
        rows_cov(g, pl, m) < k * m,
    decreases m,
{
    if m > 1 {
        if h0 < m {
            lemma_rows_cov_short(g, pl, m - 1, k, h0);
        } else {
            lemma_rows_cov_at_most(g, pl, m - 1, k);
        }
        assert(k * m == k * (m - 1) + k) by (nonlinear_arith);
    } else {
        assert(rows_cov(g, pl, 0) == 0);
        assert(k * m == k) by (nonlinear_arith)
            requires
                m == 1,
        ;
    }
}

/// Row counts of at most `k` each sum to at most `k * m`.
proof fn lemma_rows_cov_at_most(g: Seq<Vec<usize>>, pl: Seq<usize>, m: int, k: int)
    requires
        forall|h: int| 1 <= h <= m ==> #[trigger] count_cov(g, pl, h) <= k,
        m >= 0,
    ensures
        rows_cov(g, pl, m) <= k * m,
    decreases m,
{
    if m > 0 {
        lemma_rows_cov_at_most(g, pl, m - 1, k);
        assert(k * m == k * (m - 1) + k) by (nonlinear_arith);
    } else {
        assert(k * m == 0) by (nonlinear_arith)
            requires
                m == 0,
        ;
    }
}

/// The column the search branches on (fewest spare candidates among the
/// active columns) lists at most n + k candidates: some board row is still
/// open, it lists at most n, and the branch column needs at most k more.
proof fn lemma_double_branch(
    v: MatView,
    att: Seq<bool>,
    g: Seq<Vec<usize>>,
    need: Seq<usize>,
    kk: int,
    pl: Seq<usize>,
    p: int,
)
    requires
        forall|r: int, c: int| 0 <= r < g.len() && 0 <= c < g.len() ==> #[trigger] label(g, r, c) < g.len(),
        forall|h: int| 1 <= h < v.nh() ==> #[trigger] need[h] + count_cov(g, pl, h) == kk,
        forall|h: int| 1 <= h < v.nh() ==> (#[trigger] v.hdr.contains(h as usize) <==> need[h] > 0),
        forall|i: int|
            0 <= i < pl.len() ==> #[trigger] pl[i] < g.len() * g.len() && option_hidden(
                att,
                first_node(g.len() as int),
                pl[i] as int,
            ),
        pl.no_duplicates(),
        v.wf_links(),
        board_layout(v, g, id_labels(g.len() as int)),
        0 < g.len() <= MAX_SIDE,
        att.len() == v.nn(),
        forall|k: int| v.nh() <= k < v.nn() ==> (#[trigger] att[k] <==> v.cols[v.col(k)].contains(k as usize)),
        forall|r: int| 0 <= r < g.len() * g.len() ==> #[trigger] option_settled(v, att, first_node(g.len() as int), r),
        need.len() == v.nh(),
        need[p] <= kk,
        v.hdr.contains(p as usize),
        0 < p < v.nh(),
        v.size[p] > 0,
        forall|i: int|
            1 <= i < v.hdr.len() ==> v.size[#[trigger] v.hdr[i] as int] >= need[v.hdr[i] as int] && v.size[p] - need[p]
                <= v.size[v.hdr[i] as int] - need[v.hdr[i] as int],
    ensures
        v.size[p] <= g.len() + kk,
        pl.len() < kk * g.len(),
        pl.len() < g.len() * g.len(),
{
    let n = g.len() as int;
    let f = first_node(n);
    reveal(MatView::wf_cols);
    reveal(MatView::wf_shape);
    reveal(MatView::wf_hdr);
    assert(v.col_ok(p));
    let j = v.cols[p][1] as int;
    crate::cover::lemma_col_members(v, p);
    crate::solver::lemma_node_row(v, g, id_labels(n), j);
    let o = v.row_id[j] as int;
    lemma_option_nodes(v, g, o);
    assert(att[j]);
    assert(node_live(v, att, j));
    assert(option_settled(v, att, f, o));
    assert(node_live(v, att, f + 3 * o));
    lemma_cell_of_id(n, o);
    let r = o / n;
    let c = o % n;
    assert(cell_id(n, r, c) == o);
    assert(v.col(f + 3 * o) == 1 + r);
    let h = 1 + r;
    assert(v.hdr.contains(h as usize));
    let i = choose|i: int| 0 <= i < v.hdr.len() && v.hdr[i] == h as usize;
    assert(i != 0);
    crate::solver::lemma_row_col_size(v, g, id_labels(n), h);
    // depth: the open row still needs a bull
    assert(v.nh() == 3 * n + 1);
    assert(need[h] > 0);
    assert forall|h2: int| 1 <= h2 <= n implies #[trigger] count_cov(g, pl, h2) <= kk by {
        assert(need[h2] + count_cov(g, pl, h2) == kk);
    }
    lemma_rows_cov_short(g, pl, n, kk, h);
    lemma_rows_cov_len(g, pl);
    // the candidate's option is not placed, so fewer than n * n are
    let ps = Seq::new(pl.len(), |x: int| pl[x] as int);
    assert(ps.no_duplicates()) by {
        assert forall|a: int, b: int| 0 <= a < ps.len() && 0 <= b < ps.len() && a != b implies ps[a] != ps[b] by {
            assert(pl[a] != pl[b]);
        }
    }
    let dom = vstd::set_lib::set_int_range(0, n * n).remove(o);
    assert forall|x: int| ps.to_set().contains(x) implies dom.contains(x) by {
        let y = choose|y: int| 0 <= y < ps.len() && ps[y] == x;
        assert(option_hidden(att, f, pl[y] as int));
        if x == o {
            assert(att[f + 3 * o]);
        }
    }
    ps.unique_seq_to_set();
    vstd::set_lib::lemma_int_range(0, n * n);
    vstd::set_lib::lemma_len_subset(ps.to_set(), dom);
}

impl DoubleSolver {
    /// Place bulls one search node at a time: the first remaining
    /// candidate of the most constrained column, recursing, then trying
    /// the next candidate with the tried ones tweaked off.
    #[verifier::rlimit(100)]
    fn solve_rec(&mut self, csol: &mut Vec<Pos>, sols: &mut Vec<Vec<Pos>>)
        requires
            old(self).search_ok(),
            old(csol)@ == crate::solver::sol_of(old(self).n as int, old(self).placed@),
            all_solutions(old(self).grid@, old(self).k@ as int, old(sols)@),
            forall|y: int|
                0 <= y < old(sols)@.len() ==> outside_live(
                    (#[trigger] old(sols)@[y])@,
                    old(csol)@,
                    old(self).attached@,
                    old(self).first as int,
                    old(self).n as int,
                ),
        ensures
            forall|y: int, x: int|
                0 <= y < old(sols)@.len() <= x < final(sols)@.len() ==> (#[trigger] final(sols)@[y])@.to_set() != (
                #[trigger] final(sols)@[x])@.to_set(),
            final(self).search_ok(),
            final(self).m@ == old(self).m@,
            final(self).attached@ == old(self).attached@,
            final(self).need@ == old(self).need@,
            final(self).blocked@ == old(self).blocked@,
            final(self).trail@ == old(self).trail@,
            final(self).hist@ == old(self).hist@,
            final(self).placed@ == old(self).placed@,
            final(self).n == old(self).n,
            final(self).first == old(self).first,
            final(self).max_sols == old(self).max_sols,
            final(self).skip == old(self).skip,
            final(self).k == old(self).k,
            final(self).grid == old(self).grid,
            final(self).steps <= old(self).steps,
            final(self).bounded == old(self).bounded,
            !old(self).bounded ==> final(self).steps == old(self).steps,
            old(self).steps - final(self).steps <= placement_bound(
                (old(self).n + old(self).k@) as nat,
                bulls_left(old(self).n as int, old(self).k@ as int, old(self).placed@.len() as int),
            ),
            final(csol)@ == old(csol)@,
            all_solutions(old(self).grid@, old(self).k@ as int, final(sols)@),
            old(sols)@.len() <= final(sols)@.len(),
            final(sols)@.take(old(sols)@.len() as int) == old(sols)@,
            forall|x: int|
                old(sols)@.len() <= x < final(sols)@.len() ==> extends_live(
                    (#[trigger] final(sols)@[x])@,
                    old(csol)@,
                    old(self).attached@,
                    old(self).first as int,
                    old(self).n as int,
                ),
            sets_distinct_from(final(sols)@, old(sols)@.len() as int),
            forall|x: int| old(sols)@.len() <= x < final(sols)@.len() ==> !skipped(old(self).skip, (#[trigger] final(sols)@[x])@),
            old(sols)@.len() < old(self).max_sols ==> final(sols)@.len() <= old(self).max_sols,
            (final(sols)@.len() < old(self).max_sols && final(self).steps > 0 && crate::double_count::all_labels(old(self).grid@))
                ==> complete_below(
                old(self).grid@,
                old(self).k@ as int,
                old(csol)@,
                old(self).attached@,
                old(self).first as int,
                old(self).skip,
                final(sols)@,
                old(sols)@.len() as int,
            ),
        decreases old(self).n * old(self).n - old(self).placed@.len(), 1int,
    {
        let ghost v = self.m@;
        let ghost g = self.grid@;
        let ghost ni = self.n as int;
        let ghost f = self.first as int;
        let ghost pl = self.placed@;
        let ghost kk = self.k@ as int;
        proof {
            reveal(MatView::wf_hdr);
            reveal(MatView::wf_shape);
            assert(v.x[v.hdr[0] as int].next.0 == crate::llist::succ(v.hdr, 0));
            assert(sols@.take(sols@.len() as int) =~= sols@);
            lemma_nodup_bound(pl, (ni * ni) as nat);
        }
        // Choose the branch column by MRV: fewest spare options.
        let mut best = Cell(H);
        let mut best_spare = usize::MAX;
        let mut cur = self.m.x.cursor(Cell(H));
        let ghost mut t: int = 0;
        loop
            invariant_except_break
                cur.curr() == v.hdr[t],
            invariant
                self.m@ == v,
                old(self).search_ok(),
                *old(self) == *self,
                v.wf_links(),
                all_solutions(g, kk, sols@),
                g == old(self).grid@,
                kk == old(self).k@ as int,
                ni == old(self).n as int,
                f == old(self).first as int,
                pl == old(self).placed@,
                old(csol)@ == crate::solver::sol_of(ni, pl),
                t == 0 ==> best_spare == usize::MAX,
                sols@ == old(sols)@,
                csol@ == old(csol)@,
                crate::llist::ring_ok(v.x, v.hdr),
                v.hdr[0] == 0,
                forall|ix: int| 0 <= ix < v.hdr.len() ==> #[trigger] v.hdr[ix] < v.nh(),
                v.nh() <= v.nn(),
                v.size.len() == v.nh(),
                self.need@.len() == v.nh(),
                0 <= t < v.hdr.len(),
                cur.head() == 0,
                t == 0 <==> best.0 == H,
                best.0 != H ==> v.hdr.contains(best.0) && 0 < best.0 < v.nh(),
                best.0 != H ==> best_spare == v.size[best.0 as int] - self.need@[best.0 as int],
                forall|ix: int|
                    1 <= ix <= t ==> v.size[#[trigger] v.hdr[ix] as int] >= self.need@[v.hdr[ix] as int] && best_spare
                        <= v.size[v.hdr[ix] as int] - self.need@[v.hdr[ix] as int],
            ensures
                self.m@ == v,
                *old(self) == *self,
                best.0 == H <==> v.hdr.len() == 1,
                best.0 != H ==> v.hdr.contains(best.0) && 0 < best.0 < v.nh(),
                best.0 != H ==> forall|ix: int|
                    1 <= ix < v.hdr.len() ==> v.size[#[trigger] v.hdr[ix] as int] >= self.need@[v.hdr[ix] as int] && v.size[best.0 as int]
                        - self.need@[best.0 as int] <= v.size[v.hdr[ix] as int] - self.need@[v.hdr[ix] as int],
            decreases v.hdr.len() - t,
        {
            proof {
                assert(v.x[v.hdr[t] as int].next.0 == crate::llist::succ(v.hdr, t));
            }
            let nx = cur.next(&self.m.x);
            match nx {
                None => {
                    proof {
                        if t + 1 < v.hdr.len() {
                            assert(v.hdr[t + 1] != v.hdr[0]);
                        }
                    }
                    break;
                },
                Some(h) => {
                    proof {
                        if t + 1 == v.hdr.len() {
                            assert(crate::llist::succ(v.hdr, t) == v.hdr[0]);
                        }
                        assert(h.0 == v.hdr[t + 1]);
                        assert(h.0 != 0) by {
                            assert(v.hdr.no_duplicates());
                        }
                    }
                    if self.m.size[h.0] < self.need[h.0] {
                        proof {
                            assert(sols@.take(sols@.len() as int) =~= sols@);
                            if crate::double_count::all_labels(g) {
                                assert(v.nh() == 3 * ni + 1) by {
                                    assert(board_layout(v, g, id_labels(ni)));
                                }
                                assert forall|x: Seq<Pos>| !#[trigger] candidate(g, kk, csol@, self.attached@, f, self.skip, x) by {
                                    if candidate(g, kk, csol@, self.attached@, f, self.skip, x) {
                                        lemma_short_column(v, self.attached@, g, self.need@, kk, pl, x, h.0 as int);
                                    }
                                }
                            }
                        }
                        return;  // column can no longer be satisfied
                    }
                    let spare = self.m.size[h.0] - self.need[h.0];
                    if spare < best_spare {
                        best_spare = spare;
                        best = h;
                    }
                    proof {
                        if t == 0 {
                            assert(spare < usize::MAX) by {
                                reveal(MatView::wf_shape);
                                assert(v.size[h.0 as int] <= v.nn()) by {
                                    reveal(MatView::wf_cols);
                                    assert(v.col_ok(h.0 as int));
                                }
                            }
                        }
                        t = t + 1;
                    }
                },
            }
        }
        if best.0 == H {
            // no active columns left => every column got exactly k bulls
            proof {
                assert forall|h: int| 1 <= h <= 3 * ni implies #[trigger] count_cov(g, pl, h) == kk by {
                    assert(h < v.nh());
                    if v.hdr.contains(h as usize) {
                        let ix = choose|ix: int| 0 <= ix < v.hdr.len() && v.hdr[ix] == h as usize;
                    }
                    assert(!v.hdr.contains(h as usize));
                    assert(self.need@[h] + count_cov(g, pl, h) == kk);
                }
                lemma_saturated_solution(v, g, pl, kk);
            }
            let ghost s0 = sols@;
            self.record(csol, sols);
            proof {
                assert(sols@.take(s0.len() as int) =~= s0);
                assert forall|x: int| 0 <= x < sols@.len() implies crate::board::is_solution_k(g, (#[trigger] sols@[x])@, kk) by {
                    if x < s0.len() {
                        assert(sols@[x] == s0[x]);
                    }
                }
                assert(csol@.take(csol@.len() as int) =~= csol@);
                assert forall|y: int, x: int| 0 <= y < s0.len() <= x < sols@.len() implies (#[trigger] sols@[y])@.to_set() != (
                #[trigger] sols@[x])@.to_set() by {
                    assert(sols@[y] == s0[y]);
                    assert(sols@[x]@ == csol@);
                    assert(extends_live(csol@, csol@, self.attached@, f, ni));
                    lemma_outside_differs(s0[y]@, csol@, csol@, self.attached@, f, ni);
                }
                if crate::double_count::all_labels(g) {
                    assert forall|x: Seq<Pos>| candidate(g, kk, csol@, self.attached@, f, self.skip, x) implies found_set(
                        sols@,
                        s0.len() as int,
                        csol@ + x,
                    ) by {
                        if ni > 0 {
                            lemma_full_no_extra(g, kk, pl, x);
                        } else if x.len() > 0 {
                            assert((csol@ + x)[csol@.len() as int] == x[0]);
                        }
                        assert(csol@ + x =~= csol@);
                        assert(sols@[s0.len() as int]@ == csol@);
                    }
                }
            }
            return;
        }
        proof {
            if v.size[best.0 as int] > 0 {
                assert(ni > 0) by {
                    assert(v.nh() == first_node(ni));
                }
                lemma_count_cov_bound(g, pl, best.0 as int);
                assert(self.need@[best.0 as int] + count_cov(g, pl, best.0 as int) == kk);
                lemma_double_branch(v, self.attached@, g, self.need@, kk, pl, best.0 as int);
            }
        }
        self.solve_candidates(best, csol, sols);
    }
}

/// Every list of `sols` places `k` bulls per row, column and region of
/// `g`, and no two are the same set of cells.
pub open spec fn solutions_k_ok(g: Seq<Vec<usize>>, k: int, sols: Seq<Vec<Pos>>) -> bool {
    &&& all_solutions(g, k, sols)
    &&& sets_distinct_from(sols, 0)
}

/// Two complete answers for one board agree: each lists two different
/// solutions when the board has two or more, else all of them, so they
/// list equally many, and the same cell sets when there are fewer than two.
#[verifier::rlimit(100)]
pub proof fn lemma_answers_agree(g: Seq<Vec<usize>>, k: int, r1: Seq<Vec<Pos>>, r2: Seq<Vec<Pos>>)
    requires
        r1.len() <= 2,
        r2.len() <= 2,
        solutions_k_ok(g, k, r1),
        solutions_k_ok(g, k, r2),
        r1.len() < 2 ==> all_found(g, k, None, r1),
        r2.len() < 2 ==> all_found(g, k, None, r2),
    ensures
        r1.len() == r2.len(),
        r1.len() < 2 ==> forall|i: int| 0 <= i < r1.len() ==> (#[trigger] r1[i])@.to_set() == r2[i]@.to_set(),
{
    lemma_answers_cover(g, k, r1, r2);
    lemma_answers_cover(g, k, r2, r1);
    assert(r1.len() == r2.len());
    if r1.len() == 1 {
        assert(all_solutions(g, k, r1));
        assert(crate::board::is_solution_k(g, r1[0]@, k));
        assert(!skipped(None, r1[0]@));
        assert(all_found(g, k, None, r2));
        assert(found_set(r2, 0, r1[0]@));
        let y = choose|y: int| 0 <= y < r2.len() && (#[trigger] r2[y])@.to_set() == r1[0]@.to_set();
        assert(y == 0);
        assert(r1[0]@.to_set() == r2[0]@.to_set());
    }
}

/// A complete answer with fewer than two entries lists every entry of
/// another answer, so the other is no longer.
proof fn lemma_answers_cover(g: Seq<Vec<usize>>, k: int, r1: Seq<Vec<Pos>>, r2: Seq<Vec<Pos>>)
    requires
        r1.len() <= 2,
        r2.len() <= 2,
        solutions_k_ok(g, k, r1),
        solutions_k_ok(g, k, r2),
        r1.len() < 2 ==> all_found(g, k, None, r1),
    ensures
        r1.len() < 2 ==> r2.len() <= r1.len(),
{
    if r1.len() < 2 && r2.len() > r1.len() {
        assert(crate::board::is_solution_k(g, r2[0]@, k));
        assert(!skipped(None, r2[0]@));
        assert(found_set(r1, 0, r2[0]@));
        if r2.len() == 2 {
            assert(crate::board::is_solution_k(g, r2[1]@, k));
            assert(!skipped(None, r2[1]@));
            assert(found_set(r1, 0, r2[1]@));
            assert(r2[0]@.to_set() != r2[1]@.to_set());
            let y0 = choose|y: int| 0 <= y < r1.len() && (#[trigger] r1[y])@.to_set() == r2[0]@.to_set();
            let y1 = choose|y: int| 0 <= y < r1.len() && (#[trigger] r1[y])@.to_set() == r2[1]@.to_set();
            assert(y0 == y1);
        }
    }
}

/// Every solution of `g` with `k` bulls per row, column and region, other
/// than the skipped one, is among `sols` as a set of cells.
pub open spec fn all_found(g: Seq<Vec<usize>>, k: int, skip: Option<Vec<Pos>>, sols: Seq<Vec<Pos>>) -> bool {
    forall|s: Seq<Pos>| #[trigger] crate::board::is_solution_k(g, s, k) && !skipped(skip, s) ==> found_set(sols, 0, s)
}

/// `g` has a solution with `k` bulls per row, column and region, and every
/// such solution is the same set of cells.
pub open spec fn unique_solution(g: Seq<Vec<usize>>, k: int) -> bool {
    exists|s: Seq<Pos>|
        #[trigger] crate::board::is_solution_k(g, s, k) && forall|t: Seq<Pos>|
            #[trigger] crate::board::is_solution_k(g, t, k) ==> t.to_set() == s.to_set()
}

impl DoubleSolver {
    /// The last search ran out of its work budget.
    pub closed spec fn gave_up(&self) -> bool {
        self.steps == 0
    }

    /// Search from the idle state with the given work budget; the solutions
    /// recorded (at most `max_sols`).
    fn search(&mut self, budget: usize, bounded: bool) -> (sols: Vec<Vec<Pos>>)
        requires
            old(self).search_ok(),
            old(self).idle(),
            old(self).max_sols >= 1,
        ensures
            final(self).search_ok(),
            final(self).idle(),
            final(self).board() == old(self).board(),
            final(self).mult() == old(self).mult(),
            final(self).max_sols == old(self).max_sols,
            final(self).skip == old(self).skip,
            final(self).steps <= budget,
            budget == 0 ==> final(self).steps == 0,
            !bounded ==> final(self).steps == budget,
            budget > placement_bound((old(self).board().len() + old(self).mult()) as nat, (old(self).board().len() * old(self).board().len()) as nat) ==> final(self).steps > 0,
            budget > placement_bound((old(self).board().len() + old(self).mult()) as nat, (old(self).mult() * old(self).board().len()) as nat) ==> final(self).steps > 0,
            solutions_k_ok(old(self).board(), old(self).mult() as int, sols@),
            sols@.len() <= old(self).max_sols,
            forall|x: int| 0 <= x < sols@.len() ==> !skipped(old(self).skip, (#[trigger] sols@[x])@),
            sols@.len() < old(self).max_sols && !final(self).gave_up() ==> all_found(
                old(self).board(),
                old(self).mult() as int,
                old(self).skip,
                sols@,
            ),
    {
        self.steps = budget;
        self.bounded = bounded;
        let mut sols: Vec<Vec<Pos>> = Vec::new();
        let mut csol: Vec<Pos> = Vec::new();
        let ghost att = self.attached@;
        let ghost c0 = csol@;
        proof {
            assert(csol@ =~= crate::solver::sol_of(self.n as int, self.placed@));
        }
        self.solve_rec(&mut csol, &mut sols);
        proof {
            let nn = self.n as int;
            let kq = self.k@ as int;
            let b = (nn + kq) as nat;
            let d0 = bulls_left(nn, kq, 0);
            assert(d0 <= nn * nn && d0 <= kq * nn);
            lemma_placement_bound_mono(b, d0, (nn * nn) as nat);
            lemma_placement_bound_mono(b, d0, (kq * nn) as nat);
        }
        proof {
            assert(self.trail@.len() == 0);
            let g = self.grid@;
            let k = self.k@ as int;
            let n = self.n as int;
            let f = self.first as int;
            if sols@.len() < self.max_sols && self.steps > 0 && crate::double_count::all_labels(g) {
                let v = self.m@;
                assert forall|s: Seq<Pos>| #[trigger] crate::board::is_solution_k(g, s, k) && !skipped(self.skip, s) implies found_set(
                    sols@,
                    0,
                    s,
                ) by {
                    assert(c0 + s =~= s);
                    assert forall|j: int| 0 <= j < s.len() implies cell_live(att, f, n, #[trigger] s[j]) by {
                        lemma_opt_of(n, s[j]);
                        let o = opt_of(n, s[j]);
                        lemma_option_nodes(v, g, o);
                        assert(v.cols[v.col(f + 3 * o)].contains((f + 3 * o) as usize));
                    }
                    assert(candidate(g, k, c0, att, f, self.skip, s));
                }
            }
            if !crate::double_count::all_labels(g) {
                // a board missing a label has no solution at all
                assert forall|s: Seq<Pos>| #[trigger] crate::board::is_solution_k(g, s, k) && !skipped(self.skip, s) implies found_set(
                    sols@,
                    0,
                    s,
                ) by {
                    crate::board::lemma_solution_all_labels(g, s, k);
                }
            }
        }
        sols
    }

    /// Whether the puzzle has exactly one solution.
    pub fn is_unique(&mut self) -> (r: bool)
        requires
            old(self).search_ok(),
            old(self).idle(),
        ensures
            final(self).search_ok(),
            final(self).idle(),
            final(self).board() == old(self).board(),
            final(self).mult() == old(self).mult(),
            r ==> exists|sol: Seq<Pos>| crate::board::is_solution_k(old(self).board(), sol, old(self).mult() as int),
            r == unique_solution(old(self).board(), old(self).mult() as int),
    {
        let sols = self.solve();
        let ghost g = self.grid@;
        let ghost k = self.k@ as int;
        proof {
            if sols@.len() == 2 {
                assert(crate::board::is_solution_k(g, sols@[0]@, k));
                assert(crate::board::is_solution_k(g, sols@[1]@, k));
                assert(sols@[0]@.to_set() != sols@[1]@.to_set());
                if unique_solution(g, k) {
                    let s = choose|s: Seq<Pos>|
                        #[trigger] crate::board::is_solution_k(g, s, k) && forall|t: Seq<Pos>|
                            #[trigger] crate::board::is_solution_k(g, t, k) ==> t.to_set() == s.to_set();
                    assert(sols@[0]@.to_set() == s.to_set());
                    assert(sols@[1]@.to_set() == s.to_set());
                }
            }
            if !self.gave_up() && sols@.len() < 2 {
                assert(all_found(g, k, None, sols@));
                if sols@.len() == 0 && unique_solution(g, k) {
                    let s = choose|s: Seq<Pos>|
                        #[trigger] crate::board::is_solution_k(g, s, k) && forall|t: Seq<Pos>|
                            #[trigger] crate::board::is_solution_k(g, t, k) ==> t.to_set() == s.to_set();
                    assert(!skipped(None, s));
                    assert(found_set(sols@, 0, s));
                }
                if sols@.len() == 1 {
                    let a = sols@[0]@;
                    assert(crate::board::is_solution_k(g, a, k));
                    assert forall|t: Seq<Pos>| #[trigger] crate::board::is_solution_k(g, t, k) implies t.to_set() == a.to_set() by {
                        assert(!skipped(None, t));
                        assert(found_set(sols@, 0, t));
                    }
                    assert(unique_solution(g, k));
                }
            }
        }
        if sols.len() == 1 {
            proof {
                assert(crate::board::is_solution_k(old(self).board(), sols@[0]@, old(self).mult() as int));
            }
            true
        } else {
            false
        }
    }

    /// At most 2 solutions, pairwise different: two when the board has two
    /// or more, else all of them. The search is not cut short.
    pub fn solve(&mut self) -> (r: Vec<Vec<Pos>>)
        requires
            old(self).search_ok(),
            old(self).idle(),
        ensures
            final(self).search_ok(),
            final(self).idle(),
            final(self).board() == old(self).board(),
            final(self).mult() == old(self).mult(),
            !final(self).gave_up(),
            r@.len() <= 2,
            solutions_k_ok(old(self).board(), old(self).mult() as int, r@),
            r@.len() < 2 ==> all_found(
                old(self).board(),
                old(self).mult() as int,
                None,
                r@,
            ),
    {
        self.max_sols = 2;
        self.skip = None;
        self.search(usize::MAX, false)
    }

    /// Like `solve`, but gives up once the search has placed `budget`
    /// bulls, returning None. Aborting unwinds cleanly, so the solver stays
    /// reusable.
    pub fn solve_within(&mut self, budget: usize) -> (r: Option<Vec<Vec<Pos>>>)
        requires
            old(self).search_ok(),
            old(self).idle(),
        ensures
            final(self).search_ok(),
            final(self).idle(),
            final(self).board() == old(self).board(),
            final(self).mult() == old(self).mult(),
            budget == 0 ==> r is None,
            budget > placement_bound((old(self).board().len() + old(self).mult()) as nat, (old(self).board().len() * old(self).board().len()) as nat) ==> r is Some,
            budget > placement_bound((old(self).board().len() + old(self).mult()) as nat, (old(self).mult() * old(self).board().len()) as nat) ==> r is Some,
            r is None <==> final(self).gave_up(),
            r matches Some(sols) ==> sols@.len() <= 2 && solutions_k_ok(old(self).board(), old(self).mult() as int, sols@),
            r matches Some(sols) ==> (sols@.len() < 2 ==> all_found(
                old(self).board(),
                old(self).mult() as int,
                None,
                sols@,
            )),
    {
        self.max_sols = 2;
        self.skip = None;
        self.run(budget)
    }

    /// Does any solution other than `known` (sorted, a solution of the
    /// board) exist? None over budget, Some(None) when none other was
    /// found, Some(Some(other)) otherwise.
    pub fn solve_other_within(&mut self, budget: usize, known: &[Pos]) -> (r: Option<Option<Vec<Pos>>>)
        requires
            old(self).search_ok(),
            old(self).idle(),
            vstd::relations::sorted_by(known@, |a: Pos, b: Pos| pos_le(a, b)),
        ensures
            final(self).search_ok(),
            final(self).idle(),
            final(self).board() == old(self).board(),
            final(self).mult() == old(self).mult(),
            budget == 0 ==> r is None,
            budget > placement_bound((old(self).board().len() + old(self).mult()) as nat, (old(self).board().len() * old(self).board().len()) as nat) ==> r is Some,
            budget > placement_bound((old(self).board().len() + old(self).mult()) as nat, (old(self).mult() * old(self).board().len()) as nat) ==> r is Some,
            r is None <==> final(self).gave_up(),
            r matches Some(Some(other)) ==> crate::board::is_solution_k(old(self).board(), other@, old(self).mult() as int)
                && other@.to_multiset() != known@.to_multiset(),
            r matches Some(None) ==> forall|s: Seq<Pos>|
                #[trigger] crate::board::is_solution_k(old(self).board(), s, old(self).mult() as int) ==> s.to_multiset()
                    == known@.to_multiset(),
    {
        self.max_sols = 1;
        self.skip = Some(vstd::slice::slice_to_vec(known));
        let sols = self.run(budget);
        match sols {
            None => None,
            Some(mut v) => {
                if v.len() == 0 {
                    proof {
                        let g = self.grid@;
                        let k = self.k@ as int;
                        assert forall|s: Seq<Pos>| #[trigger] crate::board::is_solution_k(g, s, k) implies s.to_multiset()
                            == known@.to_multiset() by {
                            if !skipped(self.skip, s) {
                                assert(found_set(v@, 0, s));
                            }
                        }
                    }
                    Some(None)
                } else {
                    let ghost first = v@[0];
                    let other = v.swap_remove(0);
                    proof {
                        assert(other == first);
                        assert(!skipped(self.skip, other@));
                    }
                    Some(Some(other))
                }
            },
        }
    }

    fn run(&mut self, budget: usize) -> (r: Option<Vec<Vec<Pos>>>)
        requires
            old(self).search_ok(),
            old(self).idle(),
            old(self).max_sols >= 1,
        ensures
            final(self).search_ok(),
            final(self).idle(),
            final(self).board() == old(self).board(),
            final(self).mult() == old(self).mult(),
            final(self).max_sols == old(self).max_sols,
            final(self).skip == old(self).skip,
            budget == 0 ==> r is None,
            budget > placement_bound((old(self).board().len() + old(self).mult()) as nat, (old(self).board().len() * old(self).board().len()) as nat) ==> r is Some,
            budget > placement_bound((old(self).board().len() + old(self).mult()) as nat, (old(self).mult() * old(self).board().len()) as nat) ==> r is Some,
            r is None <==> final(self).gave_up(),
            r matches Some(sols) ==> sols@.len() <= old(self).max_sols && solutions_k_ok(
                old(self).board(),
                old(self).mult() as int,
                sols@,
            ) && forall|x: int| 0 <= x < sols@.len() ==> !skipped(old(self).skip, (#[trigger] sols@[x])@),
            r matches Some(sols) ==> (sols@.len() < old(self).max_sols ==> all_found(
                old(self).board(),
                old(self).mult() as int,
                old(self).skip,
                sols@,
            )),
    {
        let sols = self.search(budget, true);
        if self.steps == 0 {
            None
        } else {
            Some(sols)
        }
    }
}

// ---------------------------------------------------------- completeness

/// Every cell of `x` is that of an option whose first node is attached.
pub open spec fn cells_live(x: Seq<Pos>, att: Seq<bool>, f: int, n: int) -> bool {
    forall|j: int| 0 <= j < x.len() ==> cell_live(att, f, n, #[trigger] x[j])
}

/// Some entry of `sols` from `from` on is `s` as a set of cells.
pub open spec fn found_set(sols: Seq<Vec<Pos>>, from: int, s: Seq<Pos>) -> bool {
    exists|y: int| from <= y < sols.len() && (#[trigger] sols[y])@.to_set() == s.to_set()
}

/// `c + x` is a solution with `k` bulls per line and region, its extra
/// cells `x` are of options live in `att`, and it is not the skipped one.
pub open spec fn candidate(
    g: Seq<Vec<usize>>,
    k: int,
    c: Seq<Pos>,
    att: Seq<bool>,
    f: int,
    skip: Option<Vec<Pos>>,
    x: Seq<Pos>,
) -> bool {
    &&& cells_live(x, att, f, g.len() as int)
    &&& crate::board::is_solution_k(g, c + x, k)
    &&& !skipped(skip, c + x)
}

/// Every solution that extends `c` by cells of options live in `att`, other
/// than the skipped one, is among `sols[from..]` as a set of cells.
pub open spec fn complete_below(
    g: Seq<Vec<usize>>,
    k: int,
    c: Seq<Pos>,
    att: Seq<bool>,
    f: int,
    skip: Option<Vec<Pos>>,
    sols: Seq<Vec<Pos>>,
    from: int,
) -> bool {
    forall|x: Seq<Pos>| #[trigger] candidate(g, k, c, att, f, skip, x) ==> found_set(sols, from, c + x)
}

/// The node of option `o` in column `h` (its last node when none is).
pub open spec fn node_in(v: MatView, f: int, o: int, h: int) -> int {
    if v.col(f + 3 * o) == h {
        f + 3 * o
    } else if v.col(f + 3 * o + 1) == h {
        f + 3 * o + 1
    } else {
        f + 3 * o + 2
    }
}

/// The option of an extra cell of a solution extending the placed options,
/// with its first node attached, is wholly live: all three nodes attached,
/// in active columns.
pub proof fn lemma_extra_live(
    v: MatView,
    att: Seq<bool>,
    g: Seq<Vec<usize>>,
    need: Seq<usize>,
    kk: int,
    pl: Seq<usize>,
    x: Seq<Pos>,
    j: int,
)
    requires
        board_layout(v, g, id_labels(g.len() as int)),
        v.wf_links(),
        board_ok(g),
        att.len() == v.nn(),
        forall|r: int| 0 <= r < g.len() * g.len() ==> #[trigger] option_settled(v, att, first_node(g.len() as int), r),
        need.len() == v.nh(),
        forall|h: int| 1 <= h < v.nh() ==> (#[trigger] v.hdr.contains(h as usize) <==> need[h] > 0),
        forall|h: int| 1 <= h < v.nh() ==> #[trigger] need[h] + count_cov(g, pl, h) == kk,
        forall|i: int| 0 <= i < pl.len() ==> #[trigger] pl[i] < g.len() * g.len(),
        crate::board::is_solution_k(g, crate::solver::sol_of(g.len() as int, pl) + x, kk),
        0 <= j < x.len(),
        cell_live(att, first_node(g.len() as int), g.len() as int, x[j]),
    ensures
        ({
            let n = g.len() as int;
            let f = first_node(n);
            let o = opt_of(n, x[j]);
            &&& 0 <= o < n * n
            &&& cell_of(n, o) == x[j]
            &&& att[f + 3 * o] && att[f + 3 * o + 1] && att[f + 3 * o + 2]
            &&& v.hdr.contains(v.c[f + 3 * o].0)
            &&& v.hdr.contains(v.c[f + 3 * o + 1].0)
            &&& v.hdr.contains(v.c[f + 3 * o + 2].0)
            &&& forall|h: int| opt_col(v, f, o, h) <==> cover_test(g, h)(x[j])
        }),
{
    let n = g.len() as int;
    let f = first_node(n);
    let c = crate::solver::sol_of(n, pl);
    let s = c + x;
    assert(s[c.len() + j] == x[j]);
    let p = x[j];
    lemma_opt_of(n, p);
    let o = opt_of(n, p);
    lemma_option_nodes(v, g, o);
    let ids = id_labels(n);
    crate::solver::lemma_row_columns(v, g, ids, o);
    assert(v.rows[o][0] == f + 3 * o);
    assert(v.rows[o][1] == f + 3 * o + 1);
    assert(v.rows[o][2] == f + 3 * o + 2);
    assert forall|t: int| 0 <= t < 3 implies v.hdr.contains(#[trigger] v.c[f + 3 * o + t].0) by {
        let h = v.col(f + 3 * o + t);
        assert(covers(g, ids, o, v.col(v.rows[o][t] as int)));
        assert(cover_test(g, h)(p));
        lemma_extra_column_open(g, kk, pl, x, j, h);
        assert(need[h] > 0);
        assert(v.hdr.contains(h as usize));
    }
    assert(v.hdr.contains(v.c[f + 3 * o + 0].0));
    assert(node_live(v, att, f + 3 * o));
    assert(option_settled(v, att, f, o));
    assert forall|h: int| opt_col(v, f, o, h) <==> cover_test(g, h)(p) by {
        if cover_test(g, h)(p) {
            let t = choose|t: int| 0 <= t < 3 && #[trigger] v.col(v.rows[o][t] as int) == h;
        }
        if opt_col(v, f, o, h) {
            if h == v.col(f + 3 * o) {
                assert(covers(g, ids, o, v.col(v.rows[o][0] as int)));
            } else if h == v.col(f + 3 * o + 1) {
                assert(covers(g, ids, o, v.col(v.rows[o][1] as int)));
            } else {
                assert(covers(g, ids, o, v.col(v.rows[o][2] as int)));
            }
        }
    }
}

/// A column that some solution extending the placed options still needs
/// `need[h]` bulls in has at least that many options listed.
pub proof fn lemma_short_column(
    v: MatView,
    att: Seq<bool>,
    g: Seq<Vec<usize>>,
    need: Seq<usize>,
    kk: int,
    pl: Seq<usize>,
    x: Seq<Pos>,
    h: int,
)
    requires
        board_layout(v, g, id_labels(g.len() as int)),
        v.wf_links(),
        board_ok(g),
        att.len() == v.nn(),
        forall|k: int| v.nh() <= k < v.nn() ==> (#[trigger] att[k] <==> v.cols[v.col(k)].contains(k as usize)),
        forall|r: int| 0 <= r < g.len() * g.len() ==> #[trigger] option_settled(v, att, first_node(g.len() as int), r),
        need.len() == v.nh(),
        forall|hh: int| 1 <= hh < v.nh() ==> (#[trigger] v.hdr.contains(hh as usize) <==> need[hh] > 0),
        forall|hh: int| 1 <= hh < v.nh() ==> #[trigger] need[hh] + count_cov(g, pl, hh) == kk,
        forall|i: int| 0 <= i < pl.len() ==> #[trigger] pl[i] < g.len() * g.len(),
        crate::board::is_solution_k(g, crate::solver::sol_of(g.len() as int, pl) + x, kk),
        cells_live(x, att, first_node(g.len() as int), g.len() as int),
        1 <= h < v.nh(),
    ensures
        v.size[h] >= need[h],
{
    let n = g.len() as int;
    let f = first_node(n);
    let c = crate::solver::sol_of(n, pl);
    let s = c + x;
    reveal(MatView::wf_cols);
    reveal(MatView::wf_shape);
    assert(v.col_ok(h));
    assert(h <= 3 * n);
    lemma_extra_count(g, kk, pl, x, h);
    crate::board::lemma_solution_distinct(g, s, kk);
    assert(x.no_duplicates()) by {
        assert forall|a: int, b: int| 0 <= a < x.len() && 0 <= b < x.len() && a != b implies x[a] != x[b] by {
            assert(s[c.len() + a] == x[a]);
            assert(s[c.len() + b] == x[b]);
        }
    }
    let ch = cover_test(g, h);
    let m = |p: Pos| node_in(v, f, opt_of(n, p), h) as usize;
    let t = v.cols[h].to_set().remove(h as usize);
    v.cols[h].unique_seq_to_set();
    assert(v.cols[h].to_set().contains(h as usize)) by {
        assert(v.cols[h][0] == h);
    }
    assert forall|i: int| 0 <= i < x.len() && ch(x[i]) implies t.contains(m(#[trigger] x[i])) by {
        lemma_extra_live(v, att, g, need, kk, pl, x, i);
        let o = opt_of(n, x[i]);
        lemma_option_nodes(v, g, o);
        assert(opt_col(v, f, o, h));
        let k = node_in(v, f, o, h);
        assert(v.col(k) == h);
        assert(att[k]);
        assert(v.cols[h].contains(k as usize));
    }
    assert forall|i: int, j: int| 0 <= i < x.len() && 0 <= j < x.len() && i != j && ch(x[i]) && ch(x[j]) implies m(
        #[trigger] x[i],
    ) != m(#[trigger] x[j]) by {
        lemma_extra_live(v, att, g, need, kk, pl, x, i);
        lemma_extra_live(v, att, g, need, kk, pl, x, j);
        let oi = opt_of(n, x[i]);
        let oj = opt_of(n, x[j]);
        assert(oi != oj);
    }
    crate::board::lemma_count_inject(x, ch, m, t);
}

/// Within the candidate loop: a candidate solution relative to the
/// attachments `att0` at entry is found already, or its extra cells are all
/// still live in `att`.
pub open spec fn cand_tracked(
    g: Seq<Vec<usize>>,
    k: int,
    c: Seq<Pos>,
    att0: Seq<bool>,
    att: Seq<bool>,
    f: int,
    skip: Option<Vec<Pos>>,
    sols: Seq<Vec<Pos>>,
    from: int,
    x: Seq<Pos>,
) -> bool {
    candidate(g, k, c, att0, f, skip, x) ==> found_set(sols, from, c + x) || cells_live(x, att, f, g.len() as int)
}

/// Lists with the same members, counted, are the same set.
pub proof fn lemma_mset_set(a: Seq<Pos>, b: Seq<Pos>)
    requires
        a.to_multiset() == b.to_multiset(),
    ensures
        a.to_set() == b.to_set(),
{
    assert forall|p: Pos| a.to_set().contains(p) <==> b.to_set().contains(p) by {
        vstd::seq_lib::to_multiset_contains(a, p);
        vstd::seq_lib::to_multiset_contains(b, p);
    }
    assert(a.to_set() =~= b.to_set());
}

/// One candidate of the branch column has been searched (tweaked off in
/// `att1`, placed and searched below with entry attachments `attc`): every
/// candidate solution tracked before is still found or still live.
pub proof fn lemma_candidate_complete(
    g: Seq<Vec<usize>>,
    kk: int,
    v1: MatView,
    pl0: Seq<usize>,
    csol0: Seq<Pos>,
    att0: Seq<bool>,
    attw: Seq<bool>,
    att1: Seq<bool>,
    attc: Seq<bool>,
    needc: Seq<usize>,
    o: int,
    skip: Option<Vec<Pos>>,
    solsw: Seq<Vec<Pos>>,
    solsc: Seq<Vec<Pos>>,
    from: int,
)
    requires
        board_ok(g),
        board_layout(v1, g, id_labels(g.len() as int)),
        v1.wf_links(),
        0 <= o < g.len() * g.len(),
        forall|i: int| 0 <= i < pl0.len() ==> #[trigger] pl0[i] < g.len() * g.len(),
        csol0 == crate::solver::sol_of(g.len() as int, pl0),
        forall|x: Seq<Pos>|
            #[trigger] cand_tracked(g, kk, csol0, att0, attw, first_node(g.len() as int), skip, solsw, from, x),
        att1.len() == attw.len(),
        forall|k: int|
            0 <= k < attw.len() && !(first_node(g.len() as int) + 3 * o <= k <= first_node(g.len() as int) + 3 * o + 2)
                ==> #[trigger] att1[k] == attw[k],
        !att1[first_node(g.len() as int) + 3 * o],
        attc.len() == att1.len(),
        forall|q: int|
            0 <= q < g.len() * g.len() && q != o && !around(g.len() as int, o, q) && (forall|h: int|
                opt_col(v1, first_node(g.len() as int), q, h) ==> needc[h] > 0) ==> #[trigger] attc[first_node(
                g.len() as int,
            ) + 3 * q] == att1[first_node(g.len() as int) + 3 * q],
        needc.len() == v1.nh(),
        forall|h: int| 1 <= h < v1.nh() ==> #[trigger] needc[h] + count_cov(g, pl0.push(o as usize), h) == kk,
        complete_below(
            g,
            kk,
            csol0.push(cell_of(g.len() as int, o)),
            attc,
            first_node(g.len() as int),
            skip,
            solsc,
            solsw.len() as int,
        ),
        0 <= from <= solsw.len() <= solsc.len(),
        solsc.take(solsw.len() as int) == solsw,
    ensures
        forall|x: Seq<Pos>|
            #[trigger] cand_tracked(g, kk, csol0, att0, att1, first_node(g.len() as int), skip, solsc, from, x),
{
    let n = g.len() as int;
    let f = first_node(n);
    let co = cell_of(n, o);
    let L = csol0.len() as int;
    lemma_of_opt(n, o);
    assert forall|x: Seq<Pos>| #[trigger] cand_tracked(g, kk, csol0, att0, att1, f, skip, solsc, from, x) by {
        if candidate(g, kk, csol0, att0, f, skip, x) && !found_set(solsc, from, csol0 + x) {
            assert(cand_tracked(g, kk, csol0, att0, attw, f, skip, solsw, from, x));
            if found_set(solsw, from, csol0 + x) {
                let y = choose|y: int| from <= y < solsw.len() && (#[trigger] solsw[y])@.to_set() == (csol0 + x).to_set();
                assert(solsc[y] == solsw[y]) by {
                    assert(solsc.take(solsw.len() as int)[y] == solsc[y]);
                }
            }
            assert(cells_live(x, attw, f, n));
            let s = csol0 + x;
            // every extra cell is in range and not the candidate's option
            assert forall|j: int| 0 <= j < x.len() && x[j] != co implies opt_of(n, x[j]) != o && 0 <= opt_of(n, x[j]) < n * n
                && cell_live(attw, f, n, x[j]) by {
                assert(s[L + j] == x[j]);
                lemma_opt_of(n, x[j]);
            }
            if !x.contains(co) {
                assert forall|j: int| 0 <= j < x.len() implies cell_live(att1, f, n, #[trigger] x[j]) by {
                    assert(x[j] != co);
                    let q = opt_of(n, x[j]);
                    assert(q != o);
                    assert(!(f + 3 * o <= f + 3 * q <= f + 3 * o + 2));
                }
            } else {
                let j = choose|j: int| 0 <= j < x.len() && x[j] == co;
                let x2 = x.remove(j);
                let c2 = csol0.push(co);
                let s2 = c2 + x2;
                // the same cells, so the same kind of solution
                assert(s =~= (csol0 + x2).insert(L + j, co));
                assert(s2 =~= (csol0 + x2).insert(L, co));
                vstd::seq_lib::to_multiset_insert(csol0 + x2, L + j, co);
                vstd::seq_lib::to_multiset_insert(csol0 + x2, L, co);
                crate::board::lemma_solution_perm(g, s, s2, kk);
                assert(!skipped(skip, s2));
                let pl2 = pl0.push(o as usize);
                assert(o < usize::MAX) by {
                    assert(n * n <= MAX_SIDE * MAX_SIDE) by (nonlinear_arith)
                        requires
                            0 < n <= MAX_SIDE,
                    ;
                }
                assert((o as usize) as int == o);
                assert(crate::solver::sol_of(n, pl2) =~= c2) by {
                    assert forall|i: int| 0 <= i < pl2.len() implies crate::solver::sol_of(n, pl2)[i] == c2[i] by {
                        if i < pl0.len() {
                            assert(pl2[i] == pl0[i]);
                            assert(csol0[i] == cell_of(n, pl0[i] as int));
                        }
                    }
                }
                assert forall|i: int| 0 <= i < pl2.len() implies #[trigger] pl2[i] < n * n by {
                    if i < pl0.len() {
                        assert(pl2[i] == pl0[i]);
                    }
                }
                assert forall|i: int| 0 <= i < x2.len() implies cell_live(attc, f, n, #[trigger] x2[i]) by {
                    let i0 = if i < j { i } else { i + 1 };
                    assert(x2[i] == x[i0]);
                    assert(x[i0] != co) by {
                        assert(x.no_duplicates()) by {
                            crate::board::lemma_solution_distinct(g, s, kk);
                            assert forall|a: int, b: int| 0 <= a < x.len() && 0 <= b < x.len() && a != b implies x[a] != x[b] by {
                                assert(s[L + a] == x[a] && s[L + b] == x[b]);
                            }
                        }
                    }
                    let q = opt_of(n, x[i0]);
                    assert(att1[f + 3 * q] == attw[f + 3 * q]) by {
                        assert(!(f + 3 * o <= f + 3 * q <= f + 3 * o + 2));
                    }
                    assert(!around(n, o, q)) by {
                        assert(s[L + j] == co && s[L + i0] == x[i0]);
                        assert(!touching(s[L + j], s[L + i0]));
                        lemma_opt_of(n, x[i0]);
                    }
                    assert forall|h: int| opt_col(v1, f, q, h) implies needc[h] > 0 by {
                        lemma_option_nodes(v1, g, q);
                        crate::solver::lemma_row_columns(v1, g, id_labels(n), q);
                        assert(v1.rows[q][0] == f + 3 * q);
                        assert(v1.rows[q][1] == f + 3 * q + 1);
                        assert(v1.rows[q][2] == f + 3 * q + 2);
                        if h == v1.col(f + 3 * q) {
                            assert(covers(g, id_labels(n), q, v1.col(v1.rows[q][0] as int)));
                        } else if h == v1.col(f + 3 * q + 1) {
                            assert(covers(g, id_labels(n), q, v1.col(v1.rows[q][1] as int)));
                        } else {
                            assert(covers(g, id_labels(n), q, v1.col(v1.rows[q][2] as int)));
                        }
                        assert(cover_test(g, h)(x2[i]));
                        assert(h <= 3 * n) by {
                            reveal(MatView::wf_shape);
                        }
                        lemma_extra_column_open(g, kk, pl2, x2, i, h);
                    }
                }
                assert(candidate(g, kk, c2, attc, f, skip, x2));
                assert(found_set(solsc, solsw.len() as int, c2 + x2));
                let y = choose|y: int| solsw.len() <= y < solsc.len() && (#[trigger] solsc[y])@.to_set() == s2.to_set();
                lemma_mset_set(s, s2);
                assert(found_set(solsc, from, s));
            }
        }
    }
}

} // verus!
