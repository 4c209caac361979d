use vstd::prelude::*;

use crate::board::{
    absdiff, count_where, is_board, is_solution_k, is_square, label, label_set, lemma_count_where_one, touching,
    Grid, Pos,
};
use crate::cell::Cell;
use crate::double::{all_found, found_set, skipped, unique_solution};
use crate::cover::{cover_post, lemma_col_members, lemma_row_rest, pos_of};
use crate::llist::{pred, ring_ok, rot, succ};
use crate::matrix::{lemma_true_positions_facts, true_positions, MatView, Matrix, H};
use crate::place::{chain_step, cover_chain, in_cols, lemma_cover_hdr, row_active, rows_listed};

verus! {

/// Exact-cover solver for bullpens with one bull per row, column and region
/// (Knuth's Algorithm X on dancing links, with adjacency checked against a
/// bitmap of placed bulls).
pub struct BullpenSolver {
    m: Matrix,
    /// Board width
    n: usize,
    /// Bitmap of board cells currently holding a bull,
    /// indexed by row_id = r * n + c
    placed: Vec<bool>,
    /// Remaining work budget for the current solve call;
    /// `solve_rec` stops exploring when it reaches 0
    steps: usize,
    /// Whether the current search spends `steps` (else it runs to the end).
    bounded: bool,
    /// The board the matrix encodes.
    grid: Ghost<Seq<Vec<usize>>>,
    /// Its labels, in the order they were given region columns.
    lbl: Ghost<Seq<usize>>,
}

/// Largest board side the solvers and generators accept. A board of side
/// n takes a matrix of 3n^2 + 3n + 1 nodes, each with two links, plus
/// per-cell tables; at 4096 that is some 50 million nodes, close to what a
/// 32-bit (wasm32) address space holds, and every node index and count
/// product the code forms stays well inside a 32-bit `usize`.
pub const MAX_SIDE: usize = 4096;

/// The matrix row of cell (r, c) of an n x n board.
pub open spec fn cell_id(n: int, r: int, c: int) -> int {
    r * n + c
}

/// Index of the first option node in the matrix of an n x n board.
pub open spec fn first_node(n: int) -> int {
    3 * n + 1
}

/// Position of label `l` in the label list `ls`.
pub open spec fn region_of(ls: Seq<usize>, l: usize) -> int {
    pos_of(ls, l)
}

/// The matrix of an n x n board: one column per board row, board column
/// and region; one matrix row per cell, covering its row, column and
/// region; node ids allocated in that order.
pub open spec fn board_layout(v: MatView, g: Seq<Vec<usize>>, ls: Seq<usize>) -> bool {
    let n = g.len() as int;
    let f = first_node(n);
    &&& v.nh() == f
    &&& v.nn() == f + 3 * (n * n)
    &&& v.rows.len() == n * n
    &&& ls.len() == n
    &&& layout_upto(v, g, ls, n * n)
}

/// The cells before `cnt` (in row-major order) are laid out as in
/// `board_layout`, and the labels list has no repeats.
pub open spec fn layout_upto(v: MatView, g: Seq<Vec<usize>>, ls: Seq<usize>, cnt: int) -> bool {
    let n = g.len() as int;
    let f = first_node(n);
    &&& ls.no_duplicates()
    &&& forall|r: int, c: int|
        0 <= r < n && 0 <= c < n && cell_id(n, r, c) < cnt ==> {
            let o = #[trigger] cell_id(n, r, c);
            &&& ls.contains(label(g, r, c))
            &&& v.rows[o] == seq![(f + 3 * o) as usize, (f + 3 * o + 1) as usize, (f + 3 * o + 2) as usize]
            &&& v.col(f + 3 * o) == 1 + r
            &&& v.col(f + 3 * o + 1) == 1 + n + c
            &&& v.col(f + 3 * o + 2) == 1 + 2 * n + region_of(ls, label(g, r, c))
        }
}

/// A row with `true` exactly at `a < b < d` has those three positions.
pub proof fn lemma_three_positions(row: Seq<bool>, a: int, b: int, d: int)
    requires
        0 <= a < b < d < row.len(),
        row.len() <= usize::MAX,
        forall|p: int| 0 <= p < row.len() ==> (row[p] <==> (p == a || p == b || p == d)),
    ensures
        true_positions(row) == seq![a as usize, b as usize, d as usize],
{
    lemma_true_positions_facts(row);
    let tp = true_positions(row);
    assert(row[a] && row[b] && row[d]);
    assert(tp.contains(a as usize));
    assert(tp.contains(b as usize));
    assert(tp.contains(d as usize));
    let ia = choose|i: int| 0 <= i < tp.len() && tp[i] == a as usize;
    let ib = choose|i: int| 0 <= i < tp.len() && tp[i] == b as usize;
    let id = choose|i: int| 0 <= i < tp.len() && tp[i] == d as usize;
    assert(forall|q: int| 0 <= q < tp.len() ==> row[tp[q] as int]);
    assert(ia == 0) by {
        if ia > 0 {
            assert(tp[0] < tp[ia]);
            assert(row[tp[0] as int]);
        }
    }
    assert(ib == 1) by {
        if ib < 1 {
        } else if ib > 1 {
            assert(tp[1] < tp[ib]);
            assert(tp[0] < tp[1]);
            assert(row[tp[1] as int]);
        }
    }
    assert(id == 2) by {
        if id < 2 {
            if id == 0 {
            } else {
            }
        } else if id > 2 {
            assert(tp[2] < tp[id]);
            assert(tp[1] < tp[2]);
            assert(row[tp[2] as int]);
        }
    }
    assert(tp.len() == 3) by {
        if tp.len() > 3 {
            assert(tp[2] < tp[3]);
            assert(row[tp[3] as int]);
        }
    }
    assert(tp =~= seq![a as usize, b as usize, d as usize]);
}

/// Appending to a list without repeats keeps the positions of its members.
pub proof fn lemma_pos_of_push(ls: Seq<usize>, x: usize, l: usize)
    requires
        ls.no_duplicates(),
        ls.contains(l),
        !ls.contains(x),
    ensures
        pos_of(ls.push(x), l) == pos_of(ls, l),
        ls.push(x).contains(l),
{
    crate::cover::lemma_pos_of(ls, l);
    let p = pos_of(ls, l);
    assert(ls.push(x)[p] == l);
    assert(ls.push(x).contains(l));
    crate::cover::lemma_pos_of(ls.push(x), l);
    let p2 = pos_of(ls.push(x), l);
    if p2 < ls.len() {
        assert(ls[p2] == l);
    } else {
        assert(x == l);
        assert(ls[p] == x);
    }
}

impl BullpenSolver {
    /// Standing invariant: the matrix encodes `grid`, the bitmap matches
    /// its size.
    pub closed spec fn wf(&self) -> bool {
        &&& self.m@.wf()
        &&& self.n <= MAX_SIDE
        &&& self.placed@.len() == self.n * self.n
        &&& self.m@.rows.len() == self.n * self.n
        &&& self.grid@.len() == self.n
        &&& is_board(self.grid@)
        &&& board_layout(self.m@, self.grid@, self.lbl@)
    }

    /// The board this solver was built for.
    pub closed spec fn board(&self) -> Seq<Vec<usize>> {
        self.grid@
    }

    /// The last search ran out of its work budget.
    pub closed spec fn gave_up(&self) -> bool {
        self.steps == 0
    }

    /// The solver is at rest: no column covered, no bull placed.
    pub closed spec fn idle(&self) -> bool {
        &&& self.m@.full()
        &&& forall|o: int| 0 <= o < self.placed@.len() ==> !self.placed@[o]
    }

    /// Takes in `[[1, 1], [2, 2]]` etc.: an n x n grid of region labels
    /// with exactly n distinct labels.
    #[verifier::rlimit(80)]
    pub fn new(regions: &[Vec<usize>]) -> (res: BullpenSolver)
        requires
            is_board(regions@),
            regions@.len() <= MAX_SIDE,
        ensures
            res.wf(),
            res.idle(),
            res.board() == regions@,
    {
        let n = regions.len();
        let ghost g = regions@;
        proof {
            assert(3 * n <= 3 * MAX_SIDE);
        }
        let mut labels: Vec<usize> = Vec::with_capacity(n);
        let mut m = Matrix::new(3 * n);
        let mut r: usize = 0;
        while r < n
            invariant
                n == g.len(),
                g == regions@,
                is_board(g),
                n <= MAX_SIDE,
                0 <= r <= n,
                m@.wf_links(),
                m@.full(),
                m@.nh() == first_node(n as int),
                m@.nn() == first_node(n as int) + 3 * (r * n),
                m@.rows.len() == r * n,
                m@.row_count == r * n,
                layout_upto(m@, g, labels@, r * n),
                labels@.len() <= n,
                forall|i: int| 0 <= i < labels@.len() ==> label_set(g).contains(#[trigger] labels@[i]),
                forall|rr: int, cc: int| 0 <= rr < r && 0 <= cc < n ==> labels@.contains(#[trigger] label(g, rr, cc)),
            decreases n - r,
        {
            let row = &regions[r];
            let mut c: usize = 0;
            while c < n
                invariant
                    n == g.len(),
                    g == regions@,
                    is_board(g),
                    n <= MAX_SIDE,
                    0 <= r < n,
                    0 <= c <= n,
                    row@ == g[r as int]@,
                    m@.wf_links(),
                    m@.full(),
                    m@.nh() == first_node(n as int),
                    m@.nn() == first_node(n as int) + 3 * (r * n + c),
                    m@.rows.len() == r * n + c,
                    m@.row_count == r * n + c,
                    layout_upto(m@, g, labels@, r * n + c),
                    labels@.len() <= n,
                    forall|i: int| 0 <= i < labels@.len() ==> label_set(g).contains(#[trigger] labels@[i]),
                    forall|rr: int, cc: int|
                        (0 <= rr < r && 0 <= cc < n) || (rr == r && 0 <= cc < c) ==> labels@.contains(
                            #[trigger] label(g, rr, cc),
                        ),
                decreases n - c,
            {
                proof {
                    assert(is_square(g));
                    assert(g[r as int]@.len() == n);
                }
                let lab = row[c];
                // index of the label, appending it when new
                let mut region = labels.len();
                let mut k: usize = 0;
                while k < labels.len()
                    invariant_except_break
                        region == labels@.len(),
                    invariant
                        0 <= k <= labels@.len(),
                        forall|i: int| 0 <= i < k ==> labels@[i] != lab,
                    ensures
                        region == labels@.len() ==> forall|i: int| 0 <= i < labels@.len() ==> labels@[i] != lab,
                        region < labels@.len() ==> labels@[region as int] == lab,
                        region <= labels@.len(),
                    decreases labels@.len() - k,
                {
                    if labels[k] == lab {
                        region = k;
                        break;
                    }
                    k = k + 1;
                }
                let ghost ls0 = labels@;
                proof {
                    if region == labels@.len() {
                        assert(!labels@.contains(lab));
                    }
                }
                if region == labels.len() {
                    proof {
                        // a new label: the list stays inside the n labels of the board
                        let seen = labels@.to_set();
                        assert(seen.subset_of(label_set(g)));
                        assert(label_set(g).contains(lab)) by {
                            assert(label(g, r as int, c as int) == lab);
                        }
                        assert(seen.insert(lab).subset_of(label_set(g)));
                        vstd::set_lib::lemma_len_subset(seen.insert(lab), label_set(g));
                        labels@.unique_seq_to_set();
                        assert(!seen.contains(lab));
                    }
                    labels.push(lab);
                }
                proof {
                    assert(labels@[region as int] == lab);
                    crate::cover::lemma_pos_of(labels@, lab);
                    assert forall|rr: int, cc: int|
                        (0 <= rr < r && 0 <= cc < n) || (rr == r && 0 <= cc < c + 1) implies labels@.contains(
                            #[trigger] label(g, rr, cc)) by {
                        if rr == r && cc == c {
                            assert(labels@[region as int] == label(g, rr, cc));
                        } else {
                            assert(ls0.contains(label(g, rr, cc)));
                            let i = choose|i: int| 0 <= i < ls0.len() && ls0[i] == label(g, rr, cc);
                            assert(labels@[i] == label(g, rr, cc));
                        }
                    }
                    assert forall|i: int| 0 <= i < labels@.len() implies label_set(g).contains(#[trigger] labels@[i]) by {
                        if i < ls0.len() {
                            assert(labels@[i] == ls0[i]);
                        } else {
                            assert(label(g, r as int, c as int) == lab);
                        }
                    }
                }
                let mut mrow = vec![false; 3 * n];
                mrow.set(r, true);
                mrow.set(n + c, true);
                mrow.set(2 * n + region, true);
                proof {
                    assert forall|p: int| 0 <= p < mrow@.len() implies (mrow@[p] <==> (p == r || p == n + c || p == 2
                        * n + region)) by {}
                    lemma_three_positions(mrow@, r as int, (n + c) as int, (2 * n + region) as int);
                    assert((r * n + c) * 3 + 3 * n + 3 <= 3 * (n * n) + 3 * n + 3) by (nonlinear_arith)
                        requires
                            r < n,
                            c < n,
                    ;
                    assert(3 * (n * n) <= 3 * (MAX_SIDE * MAX_SIDE)) by (nonlinear_arith)
                        requires
                            n <= MAX_SIDE,
                    ;
                }
                let ghost v0 = m@;
                m.add_row(&mrow);
                proof {
                    let v = m@;
                    let o = r * n + c;
                    let f = first_node(n as int);
                    assert(v0.nn() == f + 3 * o);
                    assert(v.rows == v0.rows.push(Seq::new(3, |q: int| (v0.nn() + q) as usize)));
                    assert(Seq::new(3, |q: int| (v0.nn() + q) as usize) =~= seq![
                        (f + 3 * o) as usize,
                        (f + 3 * o + 1) as usize,
                        (f + 3 * o + 2) as usize,
                    ]);
                    assert(v.col(v0.nn() + 0) == r + 1);
                    assert(v.col(v0.nn() + 1) == n + c + 1);
                    assert(v.col(v0.nn() + 2) == 2 * n + region + 1);
                    assert(cell_id(n as int, r as int, c as int) == o);
                    assert forall|rr: int, cc: int| 0 <= rr < n && 0 <= cc < n && cell_id(n as int, rr, cc) < o + 1 implies {
                        let oo = #[trigger] cell_id(n as int, rr, cc);
                        &&& labels@.contains(label(g, rr, cc))
                        &&& v.rows[oo] == seq![(f + 3 * oo) as usize, (f + 3 * oo + 1) as usize, (f + 3 * oo + 2) as usize]
                        &&& v.col(f + 3 * oo) == 1 + rr
                        &&& v.col(f + 3 * oo + 1) == 1 + n + cc
                        &&& v.col(f + 3 * oo + 2) == 1 + 2 * n + region_of(labels@, label(g, rr, cc))
                    } by {
                        let oo = cell_id(n as int, rr, cc);
                        if oo < o {
                            assert(labels@.contains(label(g, rr, cc))) by {
                                if rr < r {
                                } else {
                                    assert(rr == r) by (nonlinear_arith)
                                        requires
                                            oo == rr * n + cc,
                                            o == r * n + c,
                                            oo < o,
                                            rr >= r,
                                            0 <= cc < n,
                                            0 <= c < n,
                                            0 <= r,
                                    ;
                                    assert(cc < c);
                                }
                            }
                            assert(ls0.contains(label(g, rr, cc)) || true);
                            assert(f + 3 * oo + 2 < v0.nn());
                            assert(v.c[f + 3 * oo] == v0.c[f + 3 * oo]);
                            assert(v.c[f + 3 * oo + 1] == v0.c[f + 3 * oo + 1]);
                            assert(v.c[f + 3 * oo + 2] == v0.c[f + 3 * oo + 2]);
                            assert(v.rows[oo] == v0.rows[oo]);
                            if region == ls0.len() {
                                lemma_pos_of_push(ls0, lab, label(g, rr, cc));
                            }
                        } else {
                            assert(rr == r && cc == c) by (nonlinear_arith)
                                requires
                                    oo == rr * n + cc,
                                    o == r * n + c,
                                    oo == o,
                                    0 <= cc < n,
                                    0 <= c < n,
                                    0 <= rr,
                                    0 <= r,
                            ;
                        }
                    }
                    assert(labels@.no_duplicates()) by {
                        if region == ls0.len() {
                            assert forall|i: int, j: int| 0 <= i < labels@.len() && 0 <= j < labels@.len() && i != j implies labels@[i] != labels@[j] by {
                                if i < ls0.len() && j < ls0.len() {
                                } else if i < ls0.len() {
                                    assert(ls0[i] != lab);
                                } else if j < ls0.len() {
                                    assert(ls0[j] != lab);
                                }
                            }
                        }
                    }
                }
                c = c + 1;
            }
            proof {
                assert(r * n + n == (r + 1) * n) by (nonlinear_arith);
            }
            r = r + 1;
        }
        proof {
            // every label of the board is in the list, and the list has no repeats
            let seen = labels@.to_set();
            assert(label_set(g).subset_of(seen)) by {
                assert forall|l: usize| label_set(g).contains(l) implies seen.contains(l) by {
                    let (rr, cc) = choose|rr: int, cc: int| 0 <= rr < g.len() && 0 <= cc < g[rr]@.len() && #[trigger] label(g, rr, cc) == l;
                    assert(is_square(g));
                    assert(g[rr]@.len() == n);
                    assert(labels@.contains(label(g, rr, cc)));
                }
            }
            labels@.unique_seq_to_set();
            vstd::set_lib::lemma_len_subset(label_set(g), seen);
        }
        let res = BullpenSolver {
            m,
            n,
            placed: vec![false; n * n],
            steps: usize::MAX,
            bounded: true,
            grid: Ghost(g),
            lbl: Ghost(labels@),
        };
        proof {
            assert(res.m@.live()) by {
                assert forall|h: int, i: int|
                    res.m@.hdr.contains(h as usize) && 0 <= h < res.m@.nh() && 1 <= i < res.m@.cols[h].len()
                        implies #[trigger] res.m@.row_live(res.m@.row_id[#[trigger] res.m@.cols[h][i] as int] as int) by {
                    crate::matrix::lemma_full_live(res.m@, h, i);
                }
            }
            assert(r * n == n * n);
            assert(board_layout(res.m@, g, labels@));
        }
        res
    }
}

/// The board cell of matrix row `o`.
pub open spec fn cell_of(n: int, o: int) -> Pos {
    ((o / n) as usize, (o % n) as usize)
}

/// `(r, c)` is the cell of row `r * n + c`.
pub proof fn lemma_cell_of(n: int, r: int, c: int)
    requires
        0 <= r < n,
        0 <= c < n,
        n <= MAX_SIDE,
    ensures
        cell_of(n, r * n + c) == (r as usize, c as usize),
        0 <= r * n + c < n * n,
{
    vstd::arithmetic::div_mod::lemma_fundamental_div_mod_converse(r * n + c, n, r, c);
    assert(r * n + c < n * n) by (nonlinear_arith)
        requires
            0 <= r < n,
            0 <= c < n,
    ;
    assert(0 <= r * n) by (nonlinear_arith)
        requires
            0 <= r,
            0 <= n,
    ;
}

/// Row `o` of an n x n board is the cell `(o / n, o % n)`.
pub proof fn lemma_cell_of_id(n: int, o: int)
    requires
        0 <= o < n * n,
        0 < n <= MAX_SIDE,
    ensures
        0 <= o / n < n,
        0 <= o % n < n,
        o == (o / n) * n + o % n,
        cell_of(n, o) == ((o / n) as usize, (o % n) as usize),
{
    vstd::arithmetic::div_mod::lemma_fundamental_div_mod(o, n);
    vstd::arithmetic::div_mod::lemma_div_pos_is_pos(o, n);
    vstd::arithmetic::div_mod::lemma_mod_pos_bound(o, n);
    assert(o / n < n) by {
        vstd::arithmetic::div_mod::lemma_div_by_multiple_is_strongly_ordered(o, n * n, n, n);
        vstd::arithmetic::div_mod::lemma_div_by_multiple(n, n);
    }
    assert(o == (o / n) * n + o % n) by {
        vstd::arithmetic::mul::lemma_mul_is_commutative(n, o / n);
    }
}

impl BullpenSolver {
    /// Whether a placed bull touches cell `id` (the cell itself excluded).
    fn conflicts(&self, id: usize) -> (r: bool)
        requires
            self.wf(),
            id < self.n * self.n,
        ensures
            r == exists|o2: int|
                0 <= o2 < self.n * self.n && o2 != id && self.placed@[o2] && #[trigger] touching(
                    cell_of(self.n as int, id as int),
                    cell_of(self.n as int, o2),
                ),
    {
        let n = self.n;
        proof {
            assert(n > 0) by (nonlinear_arith)
                requires
                    id < n * n,
            ;
            lemma_cell_of_id(n as int, id as int);
        }
        let y = id / n;
        let x = id % n;
        let y0 = if y > 0 { y - 1 } else { 0 };
        let y1 = if y + 1 < n - 1 { y + 1 } else { n - 1 };
        let x0 = if x > 0 { x - 1 } else { 0 };
        let x1 = if x + 1 < n - 1 { x + 1 } else { n - 1 };
        let mut ny = y0;
        while ny <= y1
            invariant
                n == self.n,
                self.wf(),
                0 < n <= MAX_SIDE,
                y == id / n,
                x == id % n,
                y < n,
                x < n,
                y0 <= ny <= y1 + 1,
                y1 < n,
                x1 < n,
                y0 == (if y > 0 { y - 1 } else { 0 }),
                y1 == (if y + 1 < n - 1 { y + 1 } else { n - 1 }),
                x0 == (if x > 0 { x - 1 } else { 0 }),
                x1 == (if x + 1 < n - 1 { x + 1 } else { n - 1 }),
                id < n * n,
                forall|o2: int|
                    0 <= o2 < n * n && o2 != id && self.placed@[o2] && (o2 / (n as int) < ny) ==> !#[trigger] touching(
                        cell_of(n as int, id as int),
                        cell_of(n as int, o2),
                    ),
            decreases y1 + 1 - ny,
        {
            let mut nx = x0;
            while nx <= x1
                invariant
                    n == self.n,
                    self.wf(),
                    0 < n <= MAX_SIDE,
                    y == id / n,
                    x == id % n,
                    y < n,
                    x < n,
                    y0 <= ny <= y1,
                    y1 < n,
                    x0 <= nx <= x1 + 1,
                    x1 < n,
                    y0 == (if y > 0 { y - 1 } else { 0 }),
                    y1 == (if y + 1 < n - 1 { y + 1 } else { n - 1 }),
                    x0 == (if x > 0 { x - 1 } else { 0 }),
                    x1 == (if x + 1 < n - 1 { x + 1 } else { n - 1 }),
                    id < n * n,
                    forall|o2: int|
                        0 <= o2 < n * n && o2 != id && self.placed@[o2] && (o2 / (n as int) < ny || (o2 / (n as int) == ny && o2 % (n as int)
                            < nx)) ==> !#[trigger] touching(cell_of(n as int, id as int), cell_of(n as int, o2)),
                decreases x1 + 1 - nx,
            {
                proof {
                    lemma_cell_of(n as int, ny as int, nx as int);
                    assert(n * n <= MAX_SIDE * MAX_SIDE) by (nonlinear_arith)
                        requires
                            n <= MAX_SIDE,
                    ;
                    assert(0 <= ny * n);
                }
                let idx = ny * n + nx;
                if (ny != y || nx != x) && self.placed[idx] {
                    proof {
                        assert(idx != id) by {
                            lemma_cell_of(n as int, y as int, x as int);
                            lemma_cell_of_id(n as int, id as int);
                        }
                        assert(touching(cell_of(n as int, id as int), cell_of(n as int, idx as int)));
                    }
                    return true;
                }
                proof {
                    assert forall|o2: int|
                        0 <= o2 < n * n && o2 != id && self.placed@[o2] && (o2 / (n as int) < ny || (o2 / (n as int) == ny && o2 % (n as int)
                            < nx + 1)) implies !#[trigger] touching(cell_of(n as int, id as int), cell_of(n as int, o2)) by {
                        lemma_cell_of_id(n as int, o2);
                        if o2 / (n as int) == ny && o2 % (n as int) == nx {
                            assert(o2 == idx);
                            if ny == y && nx == x {
                                lemma_cell_of_id(n as int, id as int);
                                assert(o2 == id);
                            }
                        }
                    }
                }
                nx = nx + 1;
            }
            proof {
                assert forall|o2: int|
                    0 <= o2 < n * n && o2 != id && self.placed@[o2] && (o2 / (n as int) < ny + 1) implies !#[trigger] touching(
                        cell_of(n as int, id as int), cell_of(n as int, o2)) by {
                    lemma_cell_of_id(n as int, o2);
                    if o2 / (n as int) == ny {
                        if o2 % (n as int) < x0 || o2 % (n as int) > x1 {
                            assert(absdiff((o2 % (n as int)) as int, x as int) > 1);
                        }
                    }
                }
            }
            ny = ny + 1;
        }
        proof {
            assert forall|o2: int|
                0 <= o2 < n * n && o2 != id && self.placed@[o2] implies !#[trigger] touching(
                    cell_of(n as int, id as int), cell_of(n as int, o2)) by {
                lemma_cell_of_id(n as int, o2);
                if o2 / (n as int) < y0 || o2 / (n as int) > y1 {
                    assert(absdiff((o2 / (n as int)) as int, y as int) > 1);
                }
            }
        }
        false
    }
}

impl BullpenSolver {
    /// Choose column c: the first active column with the fewest rows;
    /// `None` when every column is covered.
    fn choose_column(&self) -> (r: Option<Cell>)
        requires
            self.m@.wf(),
        ensures
            r is None <==> self.m@.hdr.len() == 1,
            r matches Some(c) ==> {
                &&& self.m@.hdr.contains(c.0)
                &&& 0 < c.0 < self.m@.nh()
                &&& forall|i: int| 1 <= i < self.m@.hdr.len() ==> self.m@.size[c.0 as int] <= self.m@.size[#[trigger] self.m@.hdr[i] as int]
            },
    {
        let ghost v = self.m@;
        proof {
            reveal(MatView::wf_hdr);
            reveal(MatView::wf_shape);
            assert(v.x[v.hdr[0] as int].next.0 == succ(v.hdr, 0));
            if v.hdr.len() > 1 {
                assert(v.hdr[1] != v.hdr[0]);
            }
        }
        let mut i = self.m.x.cursor(Cell(H));
        let first = i.next(&self.m.x);
        let mut c = match first {
            Some(it) => it,
            None => {
                return None;
            },
        };
        let ghost mut t: int = 1;
        loop
            invariant_except_break
                i.curr() == v.hdr[t],
            invariant
                self.m@ == v,
                v.wf(),
                ring_ok(v.x, v.hdr),
                v.hdr[0] == 0,
                forall|ix: int| 0 <= ix < v.hdr.len() ==> #[trigger] v.hdr[ix] < v.nh(),
                v.nh() <= v.nn(),
                v.size.len() == v.nh(),
                1 <= t < v.hdr.len(),
                i.head() == 0,
                v.hdr.contains(c.0),
                c.0 != 0,
                forall|ix: int| 1 <= ix <= t ==> v.size[c.0 as int] <= v.size[#[trigger] v.hdr[ix] as int],
            ensures
                forall|ix: int| 1 <= ix < v.hdr.len() ==> v.size[c.0 as int] <= v.size[#[trigger] v.hdr[ix] as int],
            decreases v.hdr.len() - t,
        {
            proof {
                assert(v.x[v.hdr[t] as int].next.0 == succ(v.hdr, t));
            }
            let nx = i.next(&self.m.x);
            match nx {
                None => {
                    proof {
                        if t + 1 < v.hdr.len() {
                            assert(v.hdr[t + 1] != v.hdr[0]);
                        }
                    }
                    break;
                },
                Some(next_c) => {
                    proof {
                        if t + 1 == v.hdr.len() {
                            assert(succ(v.hdr, t) == v.hdr[0]);
                        }
                        assert(next_c.0 == v.hdr[t + 1]);
                    }
                    // find smallest column
                    if self.m.size[next_c.0] < self.m.size[c.0] {
                        c = next_c;
                    }
                    proof {
                        t = t + 1;
                    }
                },
            }
        }
        proof {
            let ic = choose|ic: int| 0 <= ic < v.hdr.len() && v.hdr[ic] == c.0;
            assert(c.0 < v.nh());
        }
        Some(c)
    }
}

/// Matrix row `o` provides column `h`: its board row, board column or region.
pub open spec fn covers(g: Seq<Vec<usize>>, ls: Seq<usize>, o: int, h: int) -> bool {
    let n = g.len() as int;
    let r = o / n;
    let c = o % n;
    ||| h == 1 + r
    ||| h == 1 + n + c
    ||| h == 1 + 2 * n + region_of(ls, label(g, r, c))
}

/// The cells of the chosen rows.
pub open spec fn sol_of(n: int, chosen: Seq<usize>) -> Seq<Pos> {
    chosen.map_values(|o: usize| cell_of(n, o as int))
}

/// The nodes of row `o` sit in exactly the columns that row `o` provides.
pub proof fn lemma_row_columns(v: MatView, g: Seq<Vec<usize>>, ls: Seq<usize>, o: int)
    requires
        board_layout(v, g, ls),
        v.wf_links(),
        0 < g.len() <= MAX_SIDE,
        0 <= o < g.len() * g.len(),
    ensures
        ({
            let n = g.len() as int;
            let f = first_node(n);
            &&& v.rows[o] == seq![(f + 3 * o) as usize, (f + 3 * o + 1) as usize, (f + 3 * o + 2) as usize]
            &&& forall|t: int| 0 <= t < 3 ==> covers(g, ls, o, #[trigger] v.col(v.rows[o][t] as int))
            &&& forall|t: int| 0 <= t < 3 ==> 1 <= #[trigger] v.col(v.rows[o][t] as int) < v.nh()
            &&& forall|h: int| covers(g, ls, o, h) ==> exists|t: int| 0 <= t < 3 && #[trigger] v.col(v.rows[o][t] as int) == h
        }),
{
    let n = g.len() as int;
    let f = first_node(n);
    lemma_cell_of_id(n, o);
    let r = o / n;
    let c = o % n;
    assert(cell_id(n, r, c) == o);
    crate::cover::lemma_pos_of(ls, label(g, r, c));
    reveal(MatView::wf_shape);
    assert(0 <= f + 3 * o + 2 < v.nn());
    let rows = v.rows[o];
    assert(rows[0] as int == f + 3 * o);
    assert(rows[1] as int == f + 3 * o + 1);
    assert(rows[2] as int == f + 3 * o + 2);
    assert(v.col(rows[0] as int) == 1 + r);
    assert(v.col(rows[1] as int) == 1 + n + c);
    assert(v.col(rows[2] as int) == 1 + 2 * n + region_of(ls, label(g, r, c)));
    assert forall|h: int| covers(g, ls, o, h) implies exists|t: int| 0 <= t < 3 && #[trigger] v.col(v.rows[o][t] as int) == h by {
        if h == 1 + r {
            assert(v.col(v.rows[o][0] as int) == h);
        } else if h == 1 + n + c {
            assert(v.col(v.rows[o][1] as int) == h);
        } else {
            assert(v.col(v.rows[o][2] as int) == h);
        }
    }
}

/// The search path: `chosen` rows are placed, pairwise disjoint and not
/// touching, and the active columns are exactly those no chosen row provides.
pub open spec fn path_ok(
    v: MatView,
    placed: Seq<bool>,
    g: Seq<Vec<usize>>,
    ls: Seq<usize>,
    chosen: Seq<usize>,
) -> bool {
    let n = g.len() as int;
    &&& forall|k: int| 0 <= k < chosen.len() ==> #[trigger] chosen[k] < n * n
    &&& chosen.no_duplicates()
    &&& forall|o: int| 0 <= o < n * n ==> (#[trigger] placed[o] <==> chosen.contains(o as usize))
    &&& forall|k1: int, k2: int|
        0 <= k1 < chosen.len() && 0 <= k2 < chosen.len() && k1 != k2 ==> !touching(
            cell_of(n, #[trigger] chosen[k1] as int),
            cell_of(n, #[trigger] chosen[k2] as int),
        )
    &&& forall|k1: int, k2: int, h: int|
        0 <= k1 < chosen.len() && 0 <= k2 < chosen.len() && k1 != k2 && #[trigger] covers(g, ls, chosen[k1] as int, h)
            ==> !#[trigger] covers(g, ls, chosen[k2] as int, h)
    &&& forall|h: int| 1 <= h < v.nh() ==> (#[trigger] v.hdr.contains(h as usize) <==> !provided(g, ls, chosen, h))
}

/// Some chosen row provides column `h`.
pub open spec fn provided(g: Seq<Vec<usize>>, ls: Seq<usize>, chosen: Seq<usize>, h: int) -> bool {
    exists|k: int| 0 <= k < chosen.len() && #[trigger] covers(g, ls, chosen[k] as int, h)
}

/// A complete search path: rows in range, no repeats, pairwise not
/// touching, pairwise sharing no column, and every column provided.
pub open spec fn is_leaf(g: Seq<Vec<usize>>, ls: Seq<usize>, e: Seq<usize>) -> bool {
    let n = g.len() as int;
    &&& forall|k: int| 0 <= k < e.len() ==> #[trigger] e[k] < n * n
    &&& e.no_duplicates()
    &&& forall|k1: int, k2: int|
        0 <= k1 < e.len() && 0 <= k2 < e.len() && k1 != k2 ==> !touching(
            cell_of(n, #[trigger] e[k1] as int),
            cell_of(n, #[trigger] e[k2] as int),
        )
    &&& forall|k1: int, k2: int, h: int|
        0 <= k1 < e.len() && 0 <= k2 < e.len() && k1 != k2 && #[trigger] covers(g, ls, e[k1] as int, h)
            ==> !#[trigger] covers(g, ls, e[k2] as int, h)
    &&& forall|h: int| 1 <= h <= 3 * n ==> #[trigger] provided(g, ls, e, h)
}

/// With every column covered, the search path is complete.
pub proof fn lemma_path_leaf(v: MatView, placed: Seq<bool>, g: Seq<Vec<usize>>, ls: Seq<usize>, chosen: Seq<usize>)
    requires
        path_ok(v, placed, g, ls, chosen),
        v.wf(),
        board_layout(v, g, ls),
        v.hdr.len() == 1,
    ensures
        is_leaf(g, ls, chosen),
{
    reveal(MatView::wf_hdr);
    reveal(MatView::wf_shape);
    assert forall|h: int| 1 <= h <= 3 * (g.len() as int) implies #[trigger] provided(g, ls, chosen, h) by {
        assert(h < v.nh());
        if v.hdr.contains(h as usize) {
            let i = choose|i: int| 0 <= i < v.hdr.len() && v.hdr[i] == h as usize;
            assert(v.hdr[0] == 0);
        }
        assert(!v.hdr.contains(h as usize));
    }
}

/// A complete search path, read as cells, is a solution.
pub proof fn lemma_leaf_solution(v: MatView, g: Seq<Vec<usize>>, ls: Seq<usize>, chosen: Seq<usize>)
    requires
        is_leaf(g, ls, chosen),
        board_layout(v, g, ls),
        is_board(g),
        g.len() <= MAX_SIDE,
    ensures
        is_solution_k(g, sol_of(g.len() as int, chosen), 1),
{
    let n = g.len() as int;
    let sol = sol_of(n, chosen);
    if n == 0 {
        assert(chosen.len() == 0) by {
            if chosen.len() > 0 {
                assert(chosen[0] < 0);
            }
        }
        assert(label_set(g) =~= Set::empty()) by {
            assert forall|l: usize| !label_set(g).contains(l) by {}
        }
        return;
    }
    assert forall|k: int| 0 <= k < chosen.len() implies {
        &&& 0 <= (chosen[k] as int) / n < n
        &&& 0 <= (chosen[k] as int) % n < n
        &&& #[trigger] sol[k] == cell_of(n, chosen[k] as int)
    } by {
        lemma_cell_of_id(n, chosen[k] as int);
    }
    // rows
    assert forall|r: int| 0 <= r < n implies #[trigger] crate::board::count_row(sol, r) == 1 by {
        assert(provided(g, ls, chosen, 1 + r));
        let k = choose|k: int| 0 <= k < chosen.len() && #[trigger] covers(g, ls, chosen[k] as int, 1 + r);
        lemma_col_value_ranges(v, g, ls, chosen[k] as int);
        assert(sol[k].0 == r);
        assert forall|i: int| 0 <= i < sol.len() && i != k implies !(crate::board::in_row(r)(#[trigger] sol[i])) by {
            if sol[i].0 == r {
                assert(covers(g, ls, chosen[i] as int, 1 + r));
            }
        }
        lemma_count_where_one(sol, crate::board::in_row(r), k);
    }
    // columns
    assert forall|c: int| 0 <= c < n implies #[trigger] crate::board::count_col_of(sol, c) == 1 by {
        assert(provided(g, ls, chosen, 1 + n + c));
        let k = choose|k: int| 0 <= k < chosen.len() && #[trigger] covers(g, ls, chosen[k] as int, 1 + n + c);
        lemma_col_value_ranges(v, g, ls, chosen[k] as int);
        assert(sol[k].1 == c);
        assert forall|i: int| 0 <= i < sol.len() && i != k implies !(crate::board::in_col(c)(#[trigger] sol[i])) by {
            if sol[i].1 == c {
                lemma_col_value_ranges(v, g, ls, chosen[i] as int);
                assert(covers(g, ls, chosen[i] as int, 1 + n + c));
            }
        }
        lemma_count_where_one(sol, crate::board::in_col(c), k);
    }
    // regions
    assert forall|l: usize| label_set(g).contains(l) implies #[trigger] crate::board::count_label(g, sol, l) == 1 by {
        let (r0, c0) = choose|r0: int, c0: int| 0 <= r0 < g.len() && 0 <= c0 < g[r0]@.len() && #[trigger] label(g, r0, c0) == l;
        assert(g[r0]@.len() == n);
        assert(ls.contains(l)) by {
            lemma_cell_of(n, r0, c0);
            assert(cell_id(n, r0, c0) == r0 * n + c0);
        }
        crate::cover::lemma_pos_of(ls, l);
        let p = pos_of(ls, l);
        let h = 1 + 2 * n + p;
        assert(provided(g, ls, chosen, h));
        let k = choose|k: int| 0 <= k < chosen.len() && #[trigger] covers(g, ls, chosen[k] as int, h);
        lemma_col_value_ranges(v, g, ls, chosen[k] as int);
        let f = |q: Pos| label(g, q.0 as int, q.1 as int) == l;
        assert(f(sol[k])) by {
            let o = chosen[k] as int;
            crate::cover::lemma_pos_of(ls, label(g, o / n, o % n));
        }
        assert forall|i: int| 0 <= i < sol.len() && i != k implies !f(#[trigger] sol[i]) by {
            let o = chosen[i] as int;
            if f(sol[i]) {
                lemma_col_value_ranges(v, g, ls, o);
                assert(label(g, o / n, o % n) == l);
                assert(covers(g, ls, o, h));
            }
        }
        lemma_count_where_one(sol, f, k);
    }
    assert forall|i: int, j: int| 0 <= i < sol.len() && 0 <= j < sol.len() && i != j implies !touching(#[trigger] sol[i], #[trigger] sol[j]) by {
        assert(!touching(cell_of(n, chosen[i] as int), cell_of(n, chosen[j] as int)));
    }
}

/// The three columns a row provides lie in the three column bands.
pub proof fn lemma_col_value_ranges(v: MatView, g: Seq<Vec<usize>>, ls: Seq<usize>, o: int)
    requires
        0 < g.len() <= MAX_SIDE,
        0 <= o < g.len() * g.len(),
        is_square(g),
        board_layout(v, g, ls),
    ensures
        ({
            let n = g.len() as int;
            let r = o / n;
            let c = o % n;
            let p = region_of(ls, label(g, r, c));
            &&& 0 <= r < n
            &&& 0 <= c < n
            &&& 0 <= p < n
            &&& ls[p] == label(g, r, c)
            &&& forall|h: int| 1 <= h <= n ==> (covers(g, ls, o, h) <==> h == 1 + r)
            &&& forall|h: int| n + 1 <= h <= 2 * n ==> (covers(g, ls, o, h) <==> h == 1 + n + c)
            &&& forall|h: int| 2 * n + 1 <= h ==> (covers(g, ls, o, h) <==> h == 1 + 2 * n + p)
        }),
{
    let n = g.len() as int;
    lemma_cell_of_id(n, o);
    assert(cell_id(n, o / n, o % n) == o);
    crate::cover::lemma_pos_of(ls, label(g, o / n, o % n));
}

/// The columns that the row of node `i` provides are the column of `i` and
/// those of the rest of its row.
pub proof fn lemma_node_row(v: MatView, g: Seq<Vec<usize>>, ls: Seq<usize>, i: int)
    requires
        board_layout(v, g, ls),
        v.wf_links(),
        0 < g.len() <= MAX_SIDE,
        v.nh() <= i < v.nn(),
    ensures
        ({
            let n = g.len() as int;
            let o = v.row_id[i] as int;
            let rest = v.row_rest(i);
            &&& 0 <= o < n * n
            &&& v.rows[o].contains(i as usize)
            &&& forall|h: int| #[trigger] covers(g, ls, o, h) <==> (h == v.col(i) || in_cols(v, rest, rest.len() as int, h))
        }),
{
    let n = g.len() as int;
    crate::cover::lemma_in_own_row(v, i);
    let o = v.row_id[i] as int;
    lemma_row_columns(v, g, ls, o);
    lemma_row_rest(v, i);
    let rest = v.row_rest(i);
    let rr = v.rows[o];
    let p = pos_of(rr, i as usize);
    assert forall|h: int| #[trigger] covers(g, ls, o, h) <==> (h == v.col(i) || in_cols(v, rest, rest.len() as int, h)) by {
        if covers(g, ls, o, h) {
            let t = choose|t: int| 0 <= t < 3 && #[trigger] v.col(v.rows[o][t] as int) == h;
            if t != p {
                assert(rest.contains(rr[t]));
                let q = choose|q: int| 0 <= q < rest.len() && rest[q] == rr[t];
                assert(v.col(rest[q] as int) == h);
            }
        }
        if h == v.col(i) {
            assert(v.col(rr[p] as int) == h);
        }
        if in_cols(v, rest, rest.len() as int, h) {
            let q = choose|q: int| 0 <= q < rest.len() && #[trigger] v.col(rest[q] as int) == h;
            let t = crate::llist::rot(p, q + 1, rr.len() as int);
            assert(rest[q] == rr[t]);
            assert(covers(g, ls, o, v.col(rr[t] as int)));
        }
    }
}

/// Placing the row of an active node that touches no placed bull extends
/// the search path.
#[verifier::rlimit(40)]
pub proof fn lemma_path_extend(
    v: MatView,
    wl: MatView,
    placed: Seq<bool>,
    g: Seq<Vec<usize>>,
    ls: Seq<usize>,
    chosen: Seq<usize>,
    i: int,
)
    requires
        v.wf(),
        board_layout(v, g, ls),
        0 < g.len() <= MAX_SIDE,
        path_ok(v, placed, g, ls, chosen),
        placed.len() == g.len() * g.len(),
        v.nh() <= i < v.nn(),
        v.hdr.contains(v.col(i) as usize),
        v.cols[v.col(i)].contains(i as usize),
        forall|o2: int|
            0 <= o2 < g.len() * g.len() && o2 != v.row_id[i] && placed[o2] ==> !#[trigger] touching(
                cell_of(g.len() as int, v.row_id[i] as int),
                cell_of(g.len() as int, o2),
            ),
        wl.nh() == v.nh(),
        forall|h: usize| #[trigger] wl.hdr.contains(h) <==> (v.hdr.contains(h) && !covers(g, ls, v.row_id[i] as int, h as int)),
    ensures
        path_ok(wl, placed.update(v.row_id[i] as int, true), g, ls, chosen.push(v.row_id[i])),
        !chosen.contains(v.row_id[i]),
        !placed[v.row_id[i] as int],
        v.row_id[i] < g.len() * g.len(),
        forall|h: int| #[trigger] covers(g, ls, v.row_id[i] as int, h) ==> 1 <= h < v.nh() && v.hdr.contains(h as usize),
{
    let n = g.len() as int;
    let o = v.row_id[i];
    let c = v.col(i);
    lemma_node_row(v, g, ls, i);
    lemma_row_columns(v, g, ls, o as int);
    reveal(MatView::wf_shape);
    assert(0 <= c < v.nh());
    crate::cover::lemma_col_members(v, c);
    // the row is live: every column it provides is active
    let x = choose|x: int| 0 <= x < v.cols[c].len() && v.cols[c][x] == i as usize;
    assert(x >= 1);
    assert(v.row_live(v.row_id[v.cols[c][x] as int] as int));
    assert forall|h: int| #[trigger] covers(g, ls, o as int, h) implies 1 <= h < v.nh() && v.hdr.contains(h as usize) by {
        let t = choose|t: int| 0 <= t < 3 && #[trigger] v.col(v.rows[o as int][t] as int) == h;
        let j = v.rows[o as int][t];
        assert(v.hdr.contains(v.c[j as int].0));
    }
    // hence no chosen row provides them
    assert forall|h: int| #[trigger] covers(g, ls, o as int, h) implies !provided(g, ls, chosen, h) by {
        assert(v.hdr.contains(h as usize));
    }
    assert(!chosen.contains(o)) by {
        if chosen.contains(o) {
            let k = choose|k: int| 0 <= k < chosen.len() && chosen[k] == o;
            assert(covers(g, ls, o as int, c));
            assert(covers(g, ls, chosen[k] as int, c));
            assert(provided(g, ls, chosen, c));
        }
    }
    let ch2 = chosen.push(o);
    let pl2 = placed.update(o as int, true);
    assert(ch2.no_duplicates()) by {
        assert forall|a: int, b: int| 0 <= a < ch2.len() && 0 <= b < ch2.len() && a != b implies ch2[a] != ch2[b] by {
            if a == chosen.len() {
                assert(chosen.contains(ch2[b]));
            } else if b == chosen.len() {
                assert(chosen.contains(ch2[a]));
            }
        }
    }
    assert forall|oo: int| 0 <= oo < n * n implies (#[trigger] pl2[oo] <==> ch2.contains(oo as usize)) by {
        if oo != o {
            if chosen.contains(oo as usize) {
                let k = choose|k: int| 0 <= k < chosen.len() && chosen[k] == oo as usize;
                assert(ch2[k] == oo as usize);
            }
            if ch2.contains(oo as usize) {
                let k = choose|k: int| 0 <= k < ch2.len() && ch2[k] == oo as usize;
                assert(k < chosen.len());
                assert(chosen[k] == oo as usize);
            }
        } else {
            assert(ch2[chosen.len() as int] == o);
        }
    }
    assert forall|k1: int, k2: int|
        0 <= k1 < ch2.len() && 0 <= k2 < ch2.len() && k1 != k2 implies !touching(
            cell_of(n, #[trigger] ch2[k1] as int),
            cell_of(n, #[trigger] ch2[k2] as int),
        ) by {
        if k1 == chosen.len() {
            assert(placed[ch2[k2] as int]);
            assert(ch2[k2] != o);
        } else if k2 == chosen.len() {
            assert(placed[ch2[k1] as int]);
            assert(ch2[k1] != o);
            assert(!touching(cell_of(n, o as int), cell_of(n, ch2[k1] as int)));
        } else {
            assert(ch2[k1] == chosen[k1]);
            assert(ch2[k2] == chosen[k2]);
        }
    }
    assert forall|k1: int, k2: int, h: int|
        0 <= k1 < ch2.len() && 0 <= k2 < ch2.len() && k1 != k2 && #[trigger] covers(g, ls, ch2[k1] as int, h)
            implies !#[trigger] covers(g, ls, ch2[k2] as int, h) by {
        if k1 == chosen.len() {
            assert(!provided(g, ls, chosen, h));
            assert(ch2[k2] == chosen[k2]);
        } else if k2 == chosen.len() {
            if covers(g, ls, o as int, h) {
                assert(!provided(g, ls, chosen, h));
                assert(ch2[k1] == chosen[k1]);
            }
        } else {
            assert(ch2[k1] == chosen[k1]);
            assert(ch2[k2] == chosen[k2]);
        }
    }
    assert forall|h: int| 1 <= h < wl.nh() implies (#[trigger] wl.hdr.contains(h as usize) <==> !provided(g, ls, ch2, h)) by {
        if provided(g, ls, ch2, h) {
            let k = choose|k: int| 0 <= k < ch2.len() && #[trigger] covers(g, ls, ch2[k] as int, h);
            if k < chosen.len() {
                assert(ch2[k] == chosen[k]);
                assert(provided(g, ls, chosen, h));
            }
        }
        if provided(g, ls, chosen, h) {
            let k = choose|k: int| 0 <= k < chosen.len() && #[trigger] covers(g, ls, chosen[k] as int, h);
            assert(ch2[k] == chosen[k]);
            assert(covers(g, ls, ch2[k] as int, h));
        }
        if covers(g, ls, o as int, h) {
            assert(covers(g, ls, ch2[chosen.len() as int] as int, h));
        }
    }
    assert forall|k: int| 0 <= k < ch2.len() implies #[trigger] ch2[k] < n * n by {
        if k < chosen.len() {
            assert(ch2[k] == chosen[k]);
        }
    }
}

/// The matrix facts that `board_layout` reads survive any change that
/// keeps rows, columns and table sizes.
pub proof fn lemma_layout_frame(v: MatView, w: MatView, g: Seq<Vec<usize>>, ls: Seq<usize>)
    requires
        board_layout(v, g, ls),
        w.rows == v.rows,
        w.c == v.c,
        w.nh() == v.nh(),
        w.nn() == v.nn(),
    ensures
        board_layout(w, g, ls),
{
}

/// A complete path holds at most one row providing any column.
pub proof fn lemma_leaf_excludes(g: Seq<Vec<usize>>, ls: Seq<usize>, f: Seq<usize>, o1: usize, o2: usize, h: int)
    requires
        is_leaf(g, ls, f),
        o1 != o2,
        covers(g, ls, o1 as int, h),
        covers(g, ls, o2 as int, h),
    ensures
        !(f.contains(o1) && f.contains(o2)),
{
    if f.contains(o1) && f.contains(o2) {
    let k1 = choose|k: int| 0 <= k < f.len() && f[k] == o1;
    let k2 = choose|k: int| 0 <= k < f.len() && f[k] == o2;
    assert(covers(g, ls, f[k1] as int, h));
    assert(!covers(g, ls, f[k2] as int, h));
    }
}

/// Every complete path through `chosen` is, as a set of rows, one of
/// `res` past `found`.
pub open spec fn complete_from(
    g: Seq<Vec<usize>>,
    ls: Seq<usize>,
    chosen: Seq<usize>,
    found: Seq<Seq<usize>>,
    res: Seq<Seq<usize>>,
) -> bool {
    forall|e: Seq<usize>|
        #[trigger] is_leaf(g, ls, e) && chosen.to_set().subset_of(e.to_set()) ==> exists|i: int|
            found.len() <= i < res.len() && (#[trigger] res[i]).to_set() == e.to_set()
}

/// Every complete path through `chosen` that holds the row of one of the
/// first `t` nodes of column `ci` is, as a set of rows, one of `acc` past
/// `found`.
pub open spec fn complete_upto(
    g: Seq<Vec<usize>>,
    ls: Seq<usize>,
    v: MatView,
    ci: int,
    chosen: Seq<usize>,
    found: Seq<Seq<usize>>,
    acc: Seq<Seq<usize>>,
    t: int,
) -> bool {
    forall|e: Seq<usize>|
        #[trigger] is_leaf(g, ls, e) && chosen.to_set().subset_of(e.to_set()) && (exists|t2: int|
            1 <= t2 <= t && e.contains(#[trigger] v.row_id[v.cols[ci][t2] as int])) ==> exists|i: int|
            found.len() <= i < acc.len() && (#[trigger] acc[i]).to_set() == e.to_set()
}

/// A complete path holds no other complete path.
pub proof fn lemma_leaf_maximal(g: Seq<Vec<usize>>, ls: Seq<usize>, a: Seq<usize>, e: Seq<usize>)
    requires
        is_leaf(g, ls, a),
        is_leaf(g, ls, e),
        a.to_set().subset_of(e.to_set()),
        g.len() <= MAX_SIDE,
    ensures
        e.to_set() == a.to_set(),
{
    let n = g.len() as int;
    assert forall|x: usize| e.to_set().contains(x) implies a.to_set().contains(x) by {
        let kx = choose|kx: int| 0 <= kx < e.len() && e[kx] == x;
        assert(e[kx] < n * n);
        assert(n > 0) by {
            if n <= 0 {
                assert(n * n == 0) by (nonlinear_arith)
                    requires
                        n == 0,
                ;
            }
        }
        lemma_cell_of_id(n, x as int);
        let h = 1 + (x as int) / n;
        assert(covers(g, ls, x as int, h));
        assert(provided(g, ls, a, h));
        let k = choose|k: int| 0 <= k < a.len() && #[trigger] covers(g, ls, a[k] as int, h);
        assert(a.to_set().contains(a[k]));
        if a[k] != x {
            lemma_leaf_excludes(g, ls, e, x, a[k], h);
            assert(e.contains(x));
            assert(e.contains(a[k]));
        }
    }
    assert(e.to_set() =~= a.to_set());
}

/// Below a search node, a complete path through `chosen` holds a row that
/// is still listed in every active column.
#[verifier::rlimit(40)]
pub proof fn lemma_leaf_in_column(
    v: MatView,
    placed: Seq<bool>,
    g: Seq<Vec<usize>>,
    ls: Seq<usize>,
    chosen: Seq<usize>,
    e: Seq<usize>,
    h: int,
)
    requires
        v.wf(),
        board_layout(v, g, ls),
        0 < g.len() <= MAX_SIDE,
        path_ok(v, placed, g, ls, chosen),
        rows_listed(v),
        is_leaf(g, ls, e),
        chosen.to_set().subset_of(e.to_set()),
        v.hdr.contains(h as usize),
        0 < h < v.nh(),
    ensures
        exists|t: int| 1 <= t < v.cols[h].len() && e.contains(#[trigger] v.row_id[v.cols[h][t] as int]),
{
    let n = g.len() as int;
    assert(provided(g, ls, e, h));
    let k = choose|k: int| 0 <= k < e.len() && #[trigger] covers(g, ls, e[k] as int, h);
    let o = e[k];
    lemma_row_columns(v, g, ls, o as int);
    reveal(MatView::wf_rows);
    reveal(MatView::wf_shape);
    assert(v.row_ok(o as int));
    // every column of `o` is still active
    assert forall|t: int| 0 <= t < v.rows[o as int].len() implies v.hdr.contains(
        v.c[#[trigger] v.rows[o as int][t] as int].0,
    ) by {
        let h2 = v.col(v.rows[o as int][t] as int);
        assert(covers(g, ls, o as int, h2));
        if !v.hdr.contains(h2 as usize) {
            assert(provided(g, ls, chosen, h2));
            let k2 = choose|k2: int| 0 <= k2 < chosen.len() && #[trigger] covers(g, ls, chosen[k2] as int, h2);
            assert(chosen.to_set().contains(chosen[k2]));
            assert(e.contains(chosen[k2]));
            if chosen[k2] == o {
                assert(provided(g, ls, chosen, h));
            } else {
                lemma_leaf_excludes(g, ls, e, o, chosen[k2], h2);
                assert(e.contains(o));
            }
        }
    }
    assert(row_active(v, o as int));
    let t0 = choose|t0: int| 0 <= t0 < 3 && #[trigger] v.col(v.rows[o as int][t0] as int) == h;
    let j = v.rows[o as int][t0];
    assert(v.cols[v.col(j as int)].contains(j));
    let t = choose|t: int| 0 <= t < v.cols[h].len() && v.cols[h][t] == j;
    crate::cover::lemma_col_members(v, h);
    assert(t != 0);
    assert(v.row_id[j as int] == o);
    assert(e.contains(o));
}

/// Once every node of column `ci` is looked at, the search is complete.
pub proof fn lemma_complete_column(
    v: MatView,
    placed: Seq<bool>,
    g: Seq<Vec<usize>>,
    ls: Seq<usize>,
    chosen: Seq<usize>,
    found: Seq<Seq<usize>>,
    acc: Seq<Seq<usize>>,
    ci: int,
)
    requires
        v.wf(),
        board_layout(v, g, ls),
        0 < g.len() <= MAX_SIDE,
        path_ok(v, placed, g, ls, chosen),
        rows_listed(v),
        v.hdr.contains(ci as usize),
        0 < ci < v.nh(),
        complete_upto(g, ls, v, ci, chosen, found, acc, v.cols[ci].len() - 1),
    ensures
        complete_from(g, ls, chosen, found, acc),
{
    assert forall|e: Seq<usize>| #[trigger] is_leaf(g, ls, e) && chosen.to_set().subset_of(e.to_set()) implies exists|i: int|
        found.len() <= i < acc.len() && (#[trigger] acc[i]).to_set() == e.to_set() by {
        lemma_leaf_in_column(v, placed, g, ls, chosen, e, ci);
    }
}

/// The matrix's list of labels holds exactly the labels of the board.
pub proof fn lemma_labels_listed(v: MatView, g: Seq<Vec<usize>>, ls: Seq<usize>)
    requires
        board_layout(v, g, ls),
        is_board(g),
        g.len() <= MAX_SIDE,
    ensures
        ls.to_set() == label_set(g),
{
    let n = g.len() as int;
    assert forall|l: usize| label_set(g).contains(l) implies ls.to_set().contains(l) by {
        let (r, c) = choose|r: int, c: int| 0 <= r < g.len() && 0 <= c < g[r]@.len() && #[trigger] label(g, r, c) == l;
        assert(g[r]@.len() == n);
        lemma_cell_of(n, r, c);
        assert(cell_id(n, r, c) == r * n + c);
        assert(ls.contains(l));
    }
    ls.unique_seq_to_set();
    vstd::seq_lib::seq_to_set_is_finite(ls);
    vstd::set_lib::lemma_subset_equality(label_set(g), ls.to_set());
}

/// Equal sets of rows are equal sets of cells.
pub proof fn lemma_sol_of_sets(n: int, a: Seq<usize>, b: Seq<usize>)
    requires
        a.to_set() == b.to_set(),
    ensures
        sol_of(n, a).to_set() == sol_of(n, b).to_set(),
{
    assert forall|p: Pos| sol_of(n, a).to_set().contains(p) implies sol_of(n, b).to_set().contains(p) by {
        let k = choose|k: int| 0 <= k < sol_of(n, a).len() && sol_of(n, a)[k] == p;
        assert(a.to_set().contains(a[k]));
        let k2 = choose|k2: int| 0 <= k2 < b.len() && b[k2] == a[k];
        assert(sol_of(n, b)[k2] == p);
    }
    assert forall|p: Pos| sol_of(n, b).to_set().contains(p) implies sol_of(n, a).to_set().contains(p) by {
        let k = choose|k: int| 0 <= k < sol_of(n, b).len() && sol_of(n, b)[k] == p;
        assert(b.to_set().contains(b[k]));
        let k2 = choose|k2: int| 0 <= k2 < a.len() && a[k2] == b[k];
        assert(sol_of(n, a)[k2] == p);
    }
    assert(sol_of(n, a).to_set() =~= sol_of(n, b).to_set());
}

/// The matrix rows of a solution's cells.
pub open spec fn rows_of(n: int, s: Seq<Pos>) -> Seq<usize> {
    Seq::new(s.len(), |k: int| cell_id(n, s[k].0 as int, s[k].1 as int) as usize)
}

/// The rows of a solution's cells form a complete path.
#[verifier::rlimit(80)]
pub proof fn lemma_solution_leaf(v: MatView, g: Seq<Vec<usize>>, ls: Seq<usize>, s: Seq<Pos>)
    requires
        board_layout(v, g, ls),
        is_board(g),
        g.len() <= MAX_SIDE,
        is_solution_k(g, s, 1),
    ensures
        is_leaf(g, ls, rows_of(g.len() as int, s)),
        sol_of(g.len() as int, rows_of(g.len() as int, s)) == s,
{
    let n = g.len() as int;
    let e = rows_of(n, s);
    if n == 0 {
        assert(s.len() == 0) by {
            if s.len() > 0 {
                assert(s[0].0 < n);
            }
        }
        assert(sol_of(n, e) =~= s);
        return;
    }
    assert forall|k: int| 0 <= k < s.len() implies {
        &&& #[trigger] e[k] < n * n
        &&& e[k] as int == s[k].0 * n + s[k].1
        &&& cell_of(n, e[k] as int) == s[k]
        &&& (e[k] as int) / n == s[k].0
        &&& (e[k] as int) % n == s[k].1
    } by {
        lemma_cell_of(n, s[k].0 as int, s[k].1 as int);
        assert(n * n <= MAX_SIDE * MAX_SIDE) by (nonlinear_arith)
            requires
                0 <= n <= MAX_SIDE,
        ;
    }
    assert(sol_of(n, e) =~= s);
    crate::board::lemma_solution_distinct(g, s, 1);
    lemma_labels_listed(v, g, ls);
    assert(e.no_duplicates()) by {
        assert forall|a: int, b: int| 0 <= a < e.len() && 0 <= b < e.len() && a != b implies e[a] != e[b] by {
            assert(s[a] != s[b]);
        }
    }
    assert forall|k1: int, k2: int|
        0 <= k1 < e.len() && 0 <= k2 < e.len() && k1 != k2 implies !touching(
            cell_of(n, #[trigger] e[k1] as int),
            cell_of(n, #[trigger] e[k2] as int),
        ) by {
        assert(!touching(s[k1], s[k2]));
    }
    assert forall|k1: int, k2: int, h: int|
        0 <= k1 < e.len() && 0 <= k2 < e.len() && k1 != k2 && #[trigger] covers(g, ls, e[k1] as int, h)
            implies !#[trigger] covers(g, ls, e[k2] as int, h) by {
        lemma_col_value_ranges(v, g, ls, e[k1] as int);
        lemma_col_value_ranges(v, g, ls, e[k2] as int);
        if covers(g, ls, e[k2] as int, h) {
            if h <= n {
                let r = s[k1].0 as int;
                assert(crate::board::in_row(r)(s[k1]));
                assert(crate::board::in_row(r)(s[k2]));
                crate::board::lemma_count_two(s, crate::board::in_row(r), k1, k2);
                assert(crate::board::count_row(s, r) == 1);
            } else if h <= 2 * n {
                let c = s[k1].1 as int;
                assert(crate::board::in_col(c)(s[k1]));
                assert(crate::board::in_col(c)(s[k2]));
                crate::board::lemma_count_two(s, crate::board::in_col(c), k1, k2);
                assert(crate::board::count_col_of(s, c) == 1);
            } else {
                let l = label(g, s[k1].0 as int, s[k1].1 as int);
                assert(label(g, s[k2].0 as int, s[k2].1 as int) == l);
                assert(g[s[k1].0 as int]@.len() == n);
                assert(label_set(g).contains(l));
                let f = |q: Pos| label(g, q.0 as int, q.1 as int) == l;
                crate::board::lemma_count_two(s, f, k1, k2);
                assert(crate::board::count_label(g, s, l) == 1);
            }
        }
    }
    assert forall|h: int| 1 <= h <= 3 * n implies #[trigger] provided(g, ls, e, h) by {
        if h <= n {
            let r = h - 1;
            assert(crate::board::count_row(s, r) == 1);
            crate::board::lemma_count_witness(s, crate::board::in_row(r));
            let k = choose|k: int| 0 <= k < s.len() && crate::board::in_row(r)(#[trigger] s[k]);
            assert(covers(g, ls, e[k] as int, h));
        } else if h <= 2 * n {
            let c = h - 1 - n;
            assert(crate::board::count_col_of(s, c) == 1);
            crate::board::lemma_count_witness(s, crate::board::in_col(c));
            let k = choose|k: int| 0 <= k < s.len() && crate::board::in_col(c)(#[trigger] s[k]);
            assert(covers(g, ls, e[k] as int, h));
        } else {
            let p = h - 1 - 2 * n;
            let l = ls[p];
            assert(ls.to_set().contains(l));
            assert(label_set(g).contains(l));
            let f = |q: Pos| label(g, q.0 as int, q.1 as int) == l;
            assert(crate::board::count_label(g, s, l) == 1);
            crate::board::lemma_count_witness(s, f);
            let k = choose|k: int| 0 <= k < s.len() && f(#[trigger] s[k]);
            crate::cover::lemma_pos_of(ls, l);
            assert(region_of(ls, l) == p);
            assert(covers(g, ls, e[k] as int, h));
        }
    }
}

/// A row that touches a placed bull lies on no complete path through
/// `chosen`.
pub proof fn lemma_complete_skip(
    v: MatView,
    v0: MatView,
    placed: Seq<bool>,
    g: Seq<Vec<usize>>,
    ls: Seq<usize>,
    ci: int,
    chosen: Seq<usize>,
    found: Seq<Seq<usize>>,
    acc: Seq<Seq<usize>>,
    t: int,
    id: usize,
)
    requires
        complete_upto(g, ls, v, ci, chosen, found, acc, t - 1),
        path_ok(v0, placed, g, ls, chosen),
        g.len() <= MAX_SIDE,
        id == v.row_id[v.cols[ci][t] as int],
        exists|o2: int|
            0 <= o2 < g.len() * g.len() && o2 != id && placed[o2] && #[trigger] touching(
                cell_of(g.len() as int, id as int),
                cell_of(g.len() as int, o2),
            ),
    ensures
        complete_upto(g, ls, v, ci, chosen, found, acc, t),
{
    let n = g.len() as int;
    assert forall|e: Seq<usize>|
        #[trigger] is_leaf(g, ls, e) && chosen.to_set().subset_of(e.to_set()) && (exists|t2: int|
            1 <= t2 <= t && e.contains(#[trigger] v.row_id[v.cols[ci][t2] as int])) implies exists|i: int|
        found.len() <= i < acc.len() && (#[trigger] acc[i]).to_set() == e.to_set() by {
        let t2 = choose|t2: int| 1 <= t2 <= t && e.contains(#[trigger] v.row_id[v.cols[ci][t2] as int]);
        if t2 == t {
            let o2 = choose|o2: int|
                0 <= o2 < n * n && o2 != id && placed[o2] && #[trigger] touching(cell_of(n, id as int), cell_of(n, o2));
            assert(n * n <= MAX_SIDE * MAX_SIDE) by (nonlinear_arith)
                requires
                    0 <= n <= MAX_SIDE,
            ;
            assert(o2 as usize as int == o2);
            assert(chosen.contains(o2 as usize));
            assert(chosen.to_set().contains(o2 as usize));
            assert(e.contains(o2 as usize));
            let k1 = choose|k1: int| 0 <= k1 < e.len() && e[k1] == id;
            let k2 = choose|k2: int| 0 <= k2 < e.len() && e[k2] == o2 as usize;
            assert(k1 != k2);
            assert(!touching(cell_of(n, e[k1] as int), cell_of(n, e[k2] as int)));
            assert(touching(cell_of(n, id as int), cell_of(n, o2)));
        }
    }
}

/// After the subtree of the `t`-th node of column `ci` is searched, the
/// complete paths through its row are found too.
pub proof fn lemma_complete_step(
    v: MatView,
    g: Seq<Vec<usize>>,
    ls: Seq<usize>,
    ci: int,
    chosen: Seq<usize>,
    found: Seq<Seq<usize>>,
    acc: Seq<Seq<usize>>,
    sub: Seq<Seq<usize>>,
    t: int,
    id: usize,
)
    requires
        complete_upto(g, ls, v, ci, chosen, found, acc, t - 1),
        sub.len() < 2 ==> complete_from(g, ls, chosen.push(id), acc, sub),
        acc.len() <= sub.len(),
        sub.subrange(0, acc.len() as int) == acc,
        found.len() <= acc.len(),
        id == v.row_id[v.cols[ci][t] as int],
    ensures
        sub.len() < 2 ==> complete_upto(g, ls, v, ci, chosen, found, sub, t),
{
    let ch2 = chosen.push(id);
    if sub.len() < 2 {
        assert forall|e: Seq<usize>|
            #[trigger] is_leaf(g, ls, e) && chosen.to_set().subset_of(e.to_set()) && (exists|t2: int|
                1 <= t2 <= t && e.contains(#[trigger] v.row_id[v.cols[ci][t2] as int])) implies exists|i: int|
            found.len() <= i < sub.len() && (#[trigger] sub[i]).to_set() == e.to_set() by {
            let t2 = choose|t2: int| 1 <= t2 <= t && e.contains(#[trigger] v.row_id[v.cols[ci][t2] as int]);
            if t2 < t {
                let i = choose|i: int| found.len() <= i < acc.len() && (#[trigger] acc[i]).to_set() == e.to_set();
                assert(sub.subrange(0, acc.len() as int)[i] == sub[i]);
            } else {
                assert forall|x: usize| ch2.to_set().contains(x) implies e.to_set().contains(x) by {
                    let kx = choose|kx: int| 0 <= kx < ch2.len() && ch2[kx] == x;
                    if kx < chosen.len() {
                        assert(chosen[kx] == x);
                        assert(chosen.to_set().contains(x));
                    }
                }
                assert(ch2.to_set().subset_of(e.to_set()));
                let i = choose|i: int| acc.len() <= i < sub.len() && (#[trigger] sub[i]).to_set() == e.to_set();
            }
        }
    }
}

/// The solutions found below a search node: each a complete path
/// extending `chosen`, pairwise distinct as sets of rows.
pub open spec fn found_below(
    g: Seq<Vec<usize>>,
    ls: Seq<usize>,
    chosen: Seq<usize>,
    found: Seq<Seq<usize>>,
    res: Seq<Seq<usize>>,
) -> bool {
    &&& found.len() <= res.len()
    &&& res.subrange(0, found.len() as int) == found
    &&& forall|i: int|
        found.len() <= i < res.len() ==> is_leaf(g, ls, #[trigger] res[i]) && chosen.to_set().subset_of(
            res[i].to_set(),
        )
    &&& forall|i: int, j: int| found.len() <= i < j < res.len() ==> (#[trigger] res[i]).to_set() != (#[trigger] res[j]).to_set()
}

impl BullpenSolver {
    /// Count the solutions below the current search node, stopping once
    /// two are known; returns the complete paths it found.
    #[verifier::rlimit(100)]
    fn count_sol_rec(
        &mut self,
        n_answers: &mut usize,
        Ghost(chosen): Ghost<Seq<usize>>,
        Ghost(found): Ghost<Seq<Seq<usize>>>,
    ) -> (res: Ghost<Seq<Seq<usize>>>)
        requires
            old(self).wf(),
            path_ok(old(self).m@, old(self).placed@, old(self).grid@, old(self).lbl@, chosen),
            *old(n_answers) == found.len(),
            found.len() < 2,
            forall|i: int| 0 <= i < found.len() ==> !chosen.to_set().subset_of(#[trigger] found[i].to_set()),
            rows_listed(old(self).m@),
        ensures
            final(self).wf(),
            final(self).m@ == old(self).m@,
            final(self).placed@ == old(self).placed@,
            final(self).n == old(self).n,
            final(self).grid == old(self).grid,
            final(self).lbl == old(self).lbl,
            final(self).steps == old(self).steps,
            *final(n_answers) == res@.len(),
            res@.len() <= 2,
            found_below(old(self).grid@, old(self).lbl@, chosen, found, res@),
            res@.len() < 2 ==> complete_from(old(self).grid@, old(self).lbl@, chosen, found, res@),
        decreases old(self).m@.hdr.len(),
    {
        let ghost v = self.m@;
        let ghost g = self.grid@;
        let ghost ls = self.lbl@;
        let ghost n = self.n as int;
        let ghost placed0 = self.placed@;
        let cc = self.choose_column();
        let c = match cc {
            None => {
                proof {
                    lemma_path_leaf(v, placed0, g, ls, chosen);
                    let res = found.push(chosen);
                    assert(res.subrange(0, found.len() as int) =~= found);
                    assert(chosen.to_set().subset_of(res[found.len() as int].to_set()));
                    assert forall|e: Seq<usize>| #[trigger] is_leaf(g, ls, e) && chosen.to_set().subset_of(e.to_set()) implies exists|i: int|
                        found.len() <= i < res.len() && (#[trigger] res[i]).to_set() == e.to_set() by {
                        lemma_leaf_maximal(g, ls, chosen, e);
                        assert(res[found.len() as int] == chosen);
                    }
                }
                *n_answers = *n_answers + 1;
                return Ghost(found.push(chosen));
            },
            Some(c) => c,
        };
        proof {
            reveal(MatView::wf_shape);
            assert(found.subrange(0, found.len() as int) =~= found);
        }
        if self.m.size[c.0] == 0 {
            proof {
                assert(n > 0) by {
                    assert(v.nh() == 3 * n + 1);
                }
                assert(v.col_ok(c.0 as int)) by {
                    reveal(MatView::wf_cols);
                }
                assert forall|e: Seq<usize>| #[trigger] is_leaf(g, ls, e) && chosen.to_set().subset_of(e.to_set()) implies exists|i: int|
                    found.len() <= i < found.len() && (#[trigger] found[i]).to_set() == e.to_set() by {
                    lemma_leaf_in_column(v, placed0, g, ls, chosen, e, c.0 as int);
                }
            }
            return Ghost(found);
        }
        self.m.cover(c);
        let ghost w = self.m@;
        let ghost ci = c.0 as int;
        proof {
            crate::place::lemma_cover_rows_listed(v, w, ci);
            lemma_cover_hdr(v, w, ci);
            lemma_layout_frame(v, w, g, ls);
            crate::cover::lemma_col_members(w, ci);
            assert(w.cols[ci] == v.cols[ci]);
            assert(n > 0) by {
                assert(v.nh() == 3 * n + 1);
            }
        }
        let ghost mut acc = found;
        let ghost mut t: int = 0;
        let mut it = self.m.y.cursor(c);
        loop
            invariant_except_break
                it.curr() == w.cols[ci][t],
                acc.len() < 2,
            invariant
                self.m@ == w,
                self.placed@ == placed0,
                self.n == n,
                self.grid@ == g,
                self.lbl@ == ls,
                self.steps == old(self).steps,
                v == old(self).m@,
                placed0 == old(self).placed@,
                g == old(self).grid@,
                ls == old(self).lbl@,
                old(self).wf(),
                v.wf(),
                w.wf(),
                0 < n <= MAX_SIDE,
                board_layout(v, g, ls),
                board_layout(w, g, ls),
                is_board(g),
                g.len() == n,
                placed0.len() == n * n,
                path_ok(v, placed0, g, ls, chosen),
                cover_post(v, w, ci),
                v.hdr.contains(ci as usize),
                0 < ci < v.nh(),
                w.cols[ci] == v.cols[ci],
                w.hdr.len() == v.hdr.len() - 1,
                forall|h: usize| #[trigger] w.hdr.contains(h) <==> (v.hdr.contains(h) && h != ci),
                w.nh() == v.nh(),
                w.nn() == v.nn(),
                it.head() == ci,
                0 <= t < w.cols[ci].len(),
                *n_answers == acc.len(),
                acc.len() <= 2,
                found_below(g, ls, chosen, found, acc),
                forall|i: int| 0 <= i < found.len() ==> !chosen.to_set().subset_of(#[trigger] found[i].to_set()),
                forall|k: int|
                    found.len() <= k < acc.len() ==> exists|t2: int|
                        1 <= t2 <= t && (#[trigger] acc[k]).contains(v.row_id[v.cols[ci][t2] as int]),
                rows_listed(v),
                rows_listed(w),
                acc.len() < 2 ==> complete_upto(g, ls, v, ci, chosen, found, acc, t),
            ensures
                self.m@ == w,
                self.placed@ == placed0,
                self.n == n,
                self.grid@ == g,
                self.lbl@ == ls,
                self.steps == old(self).steps,
                *n_answers == acc.len(),
                acc.len() <= 2,
                found_below(g, ls, chosen, found, acc),
                acc.len() < 2 ==> complete_upto(g, ls, v, ci, chosen, found, acc, v.cols[ci].len() - 1),
            decreases w.cols[ci].len() - t,
        {
            proof {
                assert(w.col_ok(ci)) by {
                    reveal(MatView::wf_cols);
                }
                assert(self.m.y.data@[w.cols[ci][t] as int].next.0 == crate::llist::succ(w.cols[ci], t));
            }
            let nxt = it.next(&self.m.y);
            let i = match nxt {
                None => {
                    proof {
                        if t + 1 < w.cols[ci].len() {
                            assert(w.cols[ci][t + 1] != w.cols[ci][0]);
                        }
                    }
                    break;
                },
                Some(i) => i,
            };
            let ghost ii = i.0 as int;
            proof {
                if t + 1 == w.cols[ci].len() {
                    assert(crate::llist::succ(w.cols[ci], t) == w.cols[ci][0]);
                }
                t = t + 1;
                assert(ii == w.cols[ci][t]);
                crate::cover::lemma_col_members(w, ci);
                reveal(MatView::wf_shape);
                assert(w.nh() <= ii < w.nn());
                crate::cover::lemma_in_own_row(w, ii);
            }
            let id = self.m.row_id[i.0];
            proof {
                lemma_node_row(v, g, ls, ii);
            }
            if self.conflicts(id) {
                proof {
                    lemma_complete_skip(v, v, placed0, g, ls, ci, chosen, found, acc, t, id);
                }
                continue;
            }
            // cover every other column of the row
            proof {
                lemma_row_rest(w, ii);
                let rest = w.row_rest(ii);
                assert(v.row_rest(ii) == rest);
                assert(v.cols[ci].contains(ii as usize));
                assert(v.col(ii) == ci);
                let x = choose|x: int| 0 <= x < v.cols[ci].len() && v.cols[ci][x] == ii as usize;
                assert(v.row_live(v.row_id[v.cols[ci][x] as int] as int));
                assert forall|q: int| 0 <= q < rest.len() implies w.hdr.contains(w.c[#[trigger] rest[q] as int].0) by {
                    let o = v.row_id[ii] as int;
                    let rr = v.rows[o];
                    let pp = crate::llist::rot(pos_of(rr, ii as usize), q + 1, rr.len() as int);
                    assert(rest[q] == rr[pp]);
                    assert(v.hdr.contains(v.c[rr[pp] as int].0));
                }
            }
            let sts = self.m.cover_row(i);
            proof {
                let rest = w.row_rest(ii);
                let wl = self.m@;
                assert(wl.nh() == v.nh()) by {
                    assert(sts@[rest.len() as int].nh() == sts@[0].nh());
                }
                assert(wl.rows == v.rows && wl.c == v.c && wl.nn() == v.nn()) by {
                    assert(sts@[rest.len() as int].rows == sts@[0].rows);
                    assert(sts@[rest.len() as int].c == sts@[0].c);
                    assert(sts@[rest.len() as int].nn() == sts@[0].nn());
                }
                assert forall|h: usize| #[trigger] wl.hdr.contains(h) <==> (v.hdr.contains(h) && !covers(g, ls, v.row_id[ii] as int, h as int)) by {
                    assert(wl.hdr.contains(h) <==> (w.hdr.contains(h) && !in_cols(w, rest, rest.len() as int, h as int)));
                    assert(w.hdr.contains(h) <==> (v.hdr.contains(h) && h != ci));
                    if in_cols(w, rest, rest.len() as int, h as int) {
                        let q = choose|q: int| 0 <= q < rest.len() && #[trigger] w.col(rest[q] as int) == h as int;
                        assert(v.col(rest[q] as int) == h as int);
                        assert(in_cols(v, rest, rest.len() as int, h as int));
                    }
                    if in_cols(v, rest, rest.len() as int, h as int) {
                        let q = choose|q: int| 0 <= q < rest.len() && #[trigger] v.col(rest[q] as int) == h as int;
                        assert(w.col(rest[q] as int) == h as int);
                    }
                }
                lemma_path_extend(v, wl, placed0, g, ls, chosen, ii);
                lemma_layout_frame(v, wl, g, ls);
                crate::place::lemma_chain_rows_listed(sts@, rest, rest.len() as int);
            }
            self.placed.set(id, true);
            let ghost ch2 = chosen.push(id);
            proof {
                // no solution found so far extends the longer path
                assert forall|k: int| 0 <= k < acc.len() implies !ch2.to_set().subset_of(#[trigger] acc[k].to_set()) by {
                    assert(chosen.to_set().subset_of(ch2.to_set())) by {
                        assert forall|x: usize| chosen.to_set().contains(x) implies ch2.to_set().contains(x) by {
                            let kk = choose|kk: int| 0 <= kk < chosen.len() && chosen[kk] == x;
                            assert(ch2[kk] == x);
                        }
                    }
                    if k < found.len() {
                        assert(acc[k] == found[k]) by {
                            assert(acc.subrange(0, found.len() as int)[k] == acc[k]);
                        }
                    } else if ch2.to_set().subset_of(acc[k].to_set()) {
                        let t2 = choose|t2: int| 1 <= t2 <= t - 1 && (#[trigger] acc[k]).contains(v.row_id[v.cols[ci][t2] as int]);
                        let o2 = v.row_id[v.cols[ci][t2] as int];
                        assert(ch2[chosen.len() as int] == id);
                        assert(ch2.to_set().contains(id));
                        assert(acc[k].contains(id));
                        crate::cover::lemma_col_members(v, ci);
                        lemma_node_row(v, g, ls, v.cols[ci][t2] as int);
                        assert(covers(g, ls, o2 as int, ci));
                        assert(covers(g, ls, id as int, ci));
                        if o2 == id {
                            crate::cover::lemma_col_rows_distinct(v, ci, t2, t);
                        }
                        lemma_leaf_excludes(g, ls, acc[k], o2, id, ci);
                    }
                }
            }
            let Ghost(sub) = self.count_sol_rec(n_answers, Ghost(ch2), Ghost(acc));
            self.placed.set(id, false);
            proof {
                assert(self.placed@ =~= placed0);
            }
            self.m.uncover_row(i, sts);
            proof {
                let acc0 = acc;
                lemma_complete_step(v, g, ls, ci, chosen, found, acc0, sub, t, id);
                // the new solutions all hold `id`, a row of column c
                assert forall|k: int| found.len() <= k < sub.len() implies exists|t2: int|
                    1 <= t2 <= t && (#[trigger] sub[k]).contains(v.row_id[v.cols[ci][t2] as int]) by {
                    if k < acc0.len() {
                        assert(sub[k] == acc0[k]) by {
                            assert(sub.subrange(0, acc0.len() as int)[k] == sub[k]);
                        }
                        let t2 = choose|t2: int| 1 <= t2 <= t - 1 && (#[trigger] acc0[k]).contains(v.row_id[v.cols[ci][t2] as int]);
                        assert(sub[k].contains(v.row_id[v.cols[ci][t2] as int]));
                    } else {
                        assert(ch2.to_set().subset_of(sub[k].to_set()));
                        assert(ch2[chosen.len() as int] == id);
                        assert(ch2.to_set().contains(id));
                        assert(sub[k].contains(v.row_id[v.cols[ci][t] as int]));
                    }
                }
                assert(found_below(g, ls, chosen, found, sub)) by {
                    assert(sub.subrange(0, found.len() as int) =~= found) by {
                        assert forall|k: int| 0 <= k < found.len() implies sub[k] == found[k] by {
                            assert(sub.subrange(0, acc0.len() as int)[k] == sub[k]);
                            assert(acc0.subrange(0, found.len() as int)[k] == acc0[k]);
                        }
                    }
                    assert forall|k: int| found.len() <= k < sub.len() implies is_leaf(g, ls, #[trigger] sub[k]) && chosen.to_set().subset_of(
                        sub[k].to_set()) by {
                        if k < acc0.len() {
                            assert(sub.subrange(0, acc0.len() as int)[k] == sub[k]);
                        } else {
                            assert(ch2.to_set().subset_of(sub[k].to_set()));
                            assert forall|x: usize| chosen.to_set().contains(x) implies sub[k].to_set().contains(x) by {
                                let kk = choose|kk: int| 0 <= kk < chosen.len() && chosen[kk] == x;
                                assert(ch2[kk] == x);
                                assert(ch2.to_set().contains(x));
                            }
                        }
                    }
                    assert forall|a: int, b: int| found.len() <= a < b < sub.len() implies (#[trigger] sub[a]).to_set() != (
                    #[trigger] sub[b]).to_set() by {
                        if b < acc0.len() {
                            assert(sub.subrange(0, acc0.len() as int)[a] == sub[a]);
                            assert(sub.subrange(0, acc0.len() as int)[b] == sub[b]);
                        } else if a < acc0.len() {
                            assert(sub.subrange(0, acc0.len() as int)[a] == sub[a]);
                            if sub[a].to_set() == sub[b].to_set() {
                                assert(!ch2.to_set().subset_of(acc0[a].to_set()));
                                assert(ch2.to_set().subset_of(sub[b].to_set()));
                            }
                        }
                    }
                }
                acc = sub;
            }
            // a second solution exists; no point searching further
            // (break only after restoring, so the matrix unwinds cleanly)
            if *n_answers >= 2 {
                break;
            }
        }
        proof {
            assert(cover_post(v, self.m@, ci));
            if acc.len() < 2 {
                lemma_complete_column(v, placed0, g, ls, chosen, found, acc, ci);
            }
        }
        self.m.uncover(c);
        Ghost(acc)
    }
}

impl BullpenSolver {
    /// Collect the solutions below the current search node into `sols`,
    /// stopping once two are known or the work budget is spent; returns the
    /// complete paths it found.
    #[verifier::rlimit(100)]
    fn solve_rec(
        &mut self,
        csol: &mut Vec<Pos>,
        sols: &mut Vec<Vec<Pos>>,
        Ghost(chosen): Ghost<Seq<usize>>,
        Ghost(found): Ghost<Seq<Seq<usize>>>,
    ) -> (res: Ghost<Seq<Seq<usize>>>)
        requires
            old(self).wf(),
            path_ok(old(self).m@, old(self).placed@, old(self).grid@, old(self).lbl@, chosen),
            old(sols)@.len() == found.len(),
            forall|i: int| 0 <= i < found.len() ==> (#[trigger] old(sols)@[i])@ == sol_of(old(self).n as int, found[i]),
            old(csol)@ == sol_of(old(self).n as int, chosen),
            found.len() < 2,
            forall|i: int| 0 <= i < found.len() ==> !chosen.to_set().subset_of(#[trigger] found[i].to_set()),
            rows_listed(old(self).m@),
        ensures
            final(self).wf(),
            final(self).m@ == old(self).m@,
            final(self).placed@ == old(self).placed@,
            final(self).n == old(self).n,
            final(self).grid == old(self).grid,
            final(self).lbl == old(self).lbl,
            final(self).steps <= old(self).steps,
            final(self).bounded == old(self).bounded,
            !old(self).bounded ==> final(self).steps == old(self).steps,
            old(self).steps - final(self).steps <= search_bound(
                old(self).n as nat,
                depth_left(old(self).n as int, chosen.len() as int),
            ),
            final(csol)@ == old(csol)@,
            final(sols)@.len() == res@.len(),
            forall|i: int| 0 <= i < res@.len() ==> (#[trigger] final(sols)@[i])@ == sol_of(old(self).n as int, res@[i]),
            res@.len() <= 2,
            found_below(old(self).grid@, old(self).lbl@, chosen, found, res@),
            res@.len() < 2 && final(self).steps > 0 ==> complete_from(old(self).grid@, old(self).lbl@, chosen, found, res@),
        decreases old(self).m@.hdr.len(),
    {
        let ghost v = self.m@;
        let ghost g = self.grid@;
        let ghost ls = self.lbl@;
        let ghost n = self.n as int;
        let ghost placed0 = self.placed@;
        // out of budget: abandon this subtree. Parents still restore
        // their covers on the way out, so the matrix unwinds cleanly.
        if self.steps == 0 {
            proof {
                assert(found.subrange(0, found.len() as int) =~= found);
            }
            return Ghost(found);
        }
        if self.bounded {
            self.steps = self.steps - 1;
        }
        let cc = self.choose_column();
        let c = match cc {
            None => {
                proof {
                    lemma_path_leaf(v, placed0, g, ls, chosen);
                    let res = found.push(chosen);
                    assert(res.subrange(0, found.len() as int) =~= found);
                    assert(chosen.to_set().subset_of(res[found.len() as int].to_set()));
                    assert forall|e: Seq<usize>| #[trigger] is_leaf(g, ls, e) && chosen.to_set().subset_of(e.to_set()) implies exists|i: int|
                        found.len() <= i < res.len() && (#[trigger] res[i]).to_set() == e.to_set() by {
                        lemma_leaf_maximal(g, ls, chosen, e);
                        assert(res[found.len() as int] == chosen);
                    }
                }
                proof {
                    lemma_search_bound_pos(n as nat, depth_left(n, chosen.len() as int));
                }
                let copy = copy_positions(csol);
                sols.push(copy);
                return Ghost(found.push(chosen));
            },
            Some(c) => c,
        };
        proof {
            reveal(MatView::wf_shape);
            assert(found.subrange(0, found.len() as int) =~= found);
        }
        if self.m.size[c.0] == 0 {
            proof {
                assert(n > 0) by {
                    assert(v.nh() == 3 * n + 1);
                }
                assert(v.col_ok(c.0 as int)) by {
                    reveal(MatView::wf_cols);
                }
                assert forall|e: Seq<usize>| #[trigger] is_leaf(g, ls, e) && chosen.to_set().subset_of(e.to_set()) implies exists|i: int|
                    found.len() <= i < found.len() && (#[trigger] found[i]).to_set() == e.to_set() by {
                    lemma_leaf_in_column(v, placed0, g, ls, chosen, e, c.0 as int);
                }
                lemma_search_bound_pos(n as nat, depth_left(n, chosen.len() as int));
            }
            return Ghost(found);
        }
        proof {
            lemma_branch_bound(v, placed0, g, ls, chosen, c.0 as int);
        }
        let ghost bb = search_bound(n as nat, (depth_left(n, chosen.len() as int) - 1) as nat);
        self.m.cover(c);
        let ghost w = self.m@;
        let ghost ci = c.0 as int;
        proof {
            crate::place::lemma_cover_rows_listed(v, w, ci);
            lemma_cover_hdr(v, w, ci);
            lemma_layout_frame(v, w, g, ls);
            crate::cover::lemma_col_members(w, ci);
            assert(w.cols[ci] == v.cols[ci]);
            assert(n > 0) by {
                assert(v.nh() == 3 * n + 1);
            }
        }
        let ghost mut acc = found;
        let ghost mut t: int = 0;
        let mut it = self.m.y.cursor(c);
        loop
            invariant_except_break
                it.curr() == w.cols[ci][t],
                acc.len() < 2,
            invariant
                self.m@ == w,
                self.placed@ == placed0,
                self.n == n,
                self.grid@ == g,
                self.lbl@ == ls,
                self.steps <= old(self).steps,
                self.bounded == old(self).bounded,
                !self.bounded ==> self.steps == old(self).steps,
                csol@ == sol_of(n, chosen),
                v == old(self).m@,
                placed0 == old(self).placed@,
                g == old(self).grid@,
                ls == old(self).lbl@,
                old(self).wf(),
                v.wf(),
                w.wf(),
                0 < n <= MAX_SIDE,
                board_layout(v, g, ls),
                board_layout(w, g, ls),
                is_board(g),
                g.len() == n,
                placed0.len() == n * n,
                path_ok(v, placed0, g, ls, chosen),
                cover_post(v, w, ci),
                v.hdr.contains(ci as usize),
                0 < ci < v.nh(),
                w.cols[ci] == v.cols[ci],
                w.hdr.len() == v.hdr.len() - 1,
                forall|h: usize| #[trigger] w.hdr.contains(h) <==> (v.hdr.contains(h) && h != ci),
                w.nh() == v.nh(),
                w.nn() == v.nn(),
                it.head() == ci,
                0 <= t < w.cols[ci].len(),
                sols@.len() == acc.len(),
                forall|i: int| 0 <= i < acc.len() ==> (#[trigger] sols@[i])@ == sol_of(n, acc[i]),
                acc.len() <= 2,
                found_below(g, ls, chosen, found, acc),
                forall|i: int| 0 <= i < found.len() ==> !chosen.to_set().subset_of(#[trigger] found[i].to_set()),
                forall|k: int|
                    found.len() <= k < acc.len() ==> exists|t2: int|
                        1 <= t2 <= t && (#[trigger] acc[k]).contains(v.row_id[v.cols[ci][t2] as int]),
                rows_listed(v),
                rows_listed(w),
                acc.len() < 2 && self.steps > 0 ==> complete_upto(g, ls, v, ci, chosen, found, acc, t),
                chosen.len() < n,
                bb == search_bound(n as nat, (depth_left(n, chosen.len() as int) - 1) as nat),
                old(self).steps - self.steps <= 1 + t * bb,
            ensures
                self.m@ == w,
                self.placed@ == placed0,
                self.n == n,
                self.grid@ == g,
                self.lbl@ == ls,
                self.steps <= old(self).steps,
                self.bounded == old(self).bounded,
                !self.bounded ==> self.steps == old(self).steps,
                old(self).steps - self.steps <= 1 + t * bb,
                0 <= t < w.cols[ci].len(),
                csol@ == sol_of(n, chosen),
                sols@.len() == acc.len(),
                forall|i: int| 0 <= i < acc.len() ==> (#[trigger] sols@[i])@ == sol_of(n, acc[i]),
                acc.len() <= 2,
                found_below(g, ls, chosen, found, acc),
                acc.len() < 2 && self.steps > 0 ==> complete_upto(g, ls, v, ci, chosen, found, acc, v.cols[ci].len() - 1),
            decreases w.cols[ci].len() - t,
        {
            proof {
                assert(w.col_ok(ci)) by {
                    reveal(MatView::wf_cols);
                }
                assert(self.m.y.data@[w.cols[ci][t] as int].next.0 == crate::llist::succ(w.cols[ci], t));
            }
            let nxt = it.next(&self.m.y);
            let i = match nxt {
                None => {
                    proof {
                        if t + 1 < w.cols[ci].len() {
                            assert(w.cols[ci][t + 1] != w.cols[ci][0]);
                        }
                    }
                    break;
                },
                Some(i) => i,
            };
            let ghost ii = i.0 as int;
            proof {
                if t + 1 == w.cols[ci].len() {
                    assert(crate::llist::succ(w.cols[ci], t) == w.cols[ci][0]);
                }
                assert(t * bb <= (t + 1) * bb) by (nonlinear_arith)
                    requires
                        t >= 0,
                        bb >= 0,
                ;
                t = t + 1;
                assert(ii == w.cols[ci][t]);
                crate::cover::lemma_col_members(w, ci);
                reveal(MatView::wf_shape);
                assert(w.nh() <= ii < w.nn());
                crate::cover::lemma_in_own_row(w, ii);
            }
            let id = self.m.row_id[i.0];
            proof {
                lemma_node_row(v, g, ls, ii);
            }
            if self.conflicts(id) {
                proof {
                    if self.steps > 0 {
                        lemma_complete_skip(v, v, placed0, g, ls, ci, chosen, found, acc, t, id);
                    }
                }
                continue;
            }
            // cover every other column of the row
            proof {
                lemma_row_rest(w, ii);
                let rest = w.row_rest(ii);
                assert(v.row_rest(ii) == rest);
                assert(v.cols[ci].contains(ii as usize));
                assert(v.col(ii) == ci);
                let x = choose|x: int| 0 <= x < v.cols[ci].len() && v.cols[ci][x] == ii as usize;
                assert(v.row_live(v.row_id[v.cols[ci][x] as int] as int));
                assert forall|q: int| 0 <= q < rest.len() implies w.hdr.contains(w.c[#[trigger] rest[q] as int].0) by {
                    let o = v.row_id[ii] as int;
                    let rr = v.rows[o];
                    let pp = crate::llist::rot(pos_of(rr, ii as usize), q + 1, rr.len() as int);
                    assert(rest[q] == rr[pp]);
                    assert(v.hdr.contains(v.c[rr[pp] as int].0));
                }
            }
            let sts = self.m.cover_row(i);
            proof {
                let rest = w.row_rest(ii);
                let wl = self.m@;
                assert(wl.nh() == v.nh()) by {
                    assert(sts@[rest.len() as int].nh() == sts@[0].nh());
                }
                assert(wl.rows == v.rows && wl.c == v.c && wl.nn() == v.nn()) by {
                    assert(sts@[rest.len() as int].rows == sts@[0].rows);
                    assert(sts@[rest.len() as int].c == sts@[0].c);
                    assert(sts@[rest.len() as int].nn() == sts@[0].nn());
                }
                assert forall|h: usize| #[trigger] wl.hdr.contains(h) <==> (v.hdr.contains(h) && !covers(g, ls, v.row_id[ii] as int, h as int)) by {
                    assert(wl.hdr.contains(h) <==> (w.hdr.contains(h) && !in_cols(w, rest, rest.len() as int, h as int)));
                    assert(w.hdr.contains(h) <==> (v.hdr.contains(h) && h != ci));
                    if in_cols(w, rest, rest.len() as int, h as int) {
                        let q = choose|q: int| 0 <= q < rest.len() && #[trigger] w.col(rest[q] as int) == h as int;
                        assert(v.col(rest[q] as int) == h as int);
                        assert(in_cols(v, rest, rest.len() as int, h as int));
                    }
                    if in_cols(v, rest, rest.len() as int, h as int) {
                        let q = choose|q: int| 0 <= q < rest.len() && #[trigger] v.col(rest[q] as int) == h as int;
                        assert(w.col(rest[q] as int) == h as int);
                    }
                }
                lemma_path_extend(v, wl, placed0, g, ls, chosen, ii);
                lemma_layout_frame(v, wl, g, ls);
                crate::place::lemma_chain_rows_listed(sts@, rest, rest.len() as int);
            }
            self.placed.set(id, true);
            let ghost ch2 = chosen.push(id);
            proof {
                lemma_cell_of_id(n, id as int);
            }
            csol.push((id / self.n, id % self.n));
            proof {
                assert(csol@ =~= sol_of(n, ch2));
            }
            proof {
                // no solution found so far extends the longer path
                assert forall|k: int| 0 <= k < acc.len() implies !ch2.to_set().subset_of(#[trigger] acc[k].to_set()) by {
                    assert(chosen.to_set().subset_of(ch2.to_set())) by {
                        assert forall|x: usize| chosen.to_set().contains(x) implies ch2.to_set().contains(x) by {
                            let kk = choose|kk: int| 0 <= kk < chosen.len() && chosen[kk] == x;
                            assert(ch2[kk] == x);
                        }
                    }
                    if k < found.len() {
                        assert(acc[k] == found[k]) by {
                            assert(acc.subrange(0, found.len() as int)[k] == acc[k]);
                        }
                    } else if ch2.to_set().subset_of(acc[k].to_set()) {
                        let t2 = choose|t2: int| 1 <= t2 <= t - 1 && (#[trigger] acc[k]).contains(v.row_id[v.cols[ci][t2] as int]);
                        let o2 = v.row_id[v.cols[ci][t2] as int];
                        assert(ch2[chosen.len() as int] == id);
                        assert(ch2.to_set().contains(id));
                        assert(acc[k].contains(id));
                        crate::cover::lemma_col_members(v, ci);
                        lemma_node_row(v, g, ls, v.cols[ci][t2] as int);
                        assert(covers(g, ls, o2 as int, ci));
                        assert(covers(g, ls, id as int, ci));
                        if o2 == id {
                            crate::cover::lemma_col_rows_distinct(v, ci, t2, t);
                        }
                        lemma_leaf_excludes(g, ls, acc[k], o2, id, ci);
                    }
                }
            }
            let ghost st0 = self.steps;
            let Ghost(sub) = self.solve_rec(csol, sols, Ghost(ch2), Ghost(acc));
            proof {
                assert(depth_left(n, ch2.len() as int) == depth_left(n, chosen.len() as int) - 1);
                assert((t - 1) * bb + bb == t * bb) by (nonlinear_arith);
            }
            csol.pop();
            proof {
                assert(csol@ =~= sol_of(n, chosen));
            }
            self.placed.set(id, false);
            proof {
                assert(self.placed@ =~= placed0);
            }
            self.m.uncover_row(i, sts);
            proof {
                let acc0 = acc;
                if sub.len() < 2 && self.steps > 0 {
                    assert(st0 > 0);
                    lemma_complete_step(v, g, ls, ci, chosen, found, acc0, sub, t, id);
                }
                // the new solutions all hold `id`, a row of column c
                assert forall|k: int| found.len() <= k < sub.len() implies exists|t2: int|
                    1 <= t2 <= t && (#[trigger] sub[k]).contains(v.row_id[v.cols[ci][t2] as int]) by {
                    if k < acc0.len() {
                        assert(sub[k] == acc0[k]) by {
                            assert(sub.subrange(0, acc0.len() as int)[k] == sub[k]);
                        }
                        let t2 = choose|t2: int| 1 <= t2 <= t - 1 && (#[trigger] acc0[k]).contains(v.row_id[v.cols[ci][t2] as int]);
                        assert(sub[k].contains(v.row_id[v.cols[ci][t2] as int]));
                    } else {
                        assert(ch2.to_set().subset_of(sub[k].to_set()));
                        assert(ch2[chosen.len() as int] == id);
                        assert(ch2.to_set().contains(id));
                        assert(sub[k].contains(v.row_id[v.cols[ci][t] as int]));
                    }
                }
                assert(found_below(g, ls, chosen, found, sub)) by {
                    assert(sub.subrange(0, found.len() as int) =~= found) by {
                        assert forall|k: int| 0 <= k < found.len() implies sub[k] == found[k] by {
                            assert(sub.subrange(0, acc0.len() as int)[k] == sub[k]);
                            assert(acc0.subrange(0, found.len() as int)[k] == acc0[k]);
                        }
                    }
                    assert forall|k: int| found.len() <= k < sub.len() implies is_leaf(g, ls, #[trigger] sub[k]) && chosen.to_set().subset_of(
                        sub[k].to_set()) by {
                        if k < acc0.len() {
                            assert(sub.subrange(0, acc0.len() as int)[k] == sub[k]);
                        } else {
                            assert(ch2.to_set().subset_of(sub[k].to_set()));
                            assert forall|x: usize| chosen.to_set().contains(x) implies sub[k].to_set().contains(x) by {
                                let kk = choose|kk: int| 0 <= kk < chosen.len() && chosen[kk] == x;
                                assert(ch2[kk] == x);
                                assert(ch2.to_set().contains(x));
                            }
                        }
                    }
                    assert forall|a: int, b: int| found.len() <= a < b < sub.len() implies (#[trigger] sub[a]).to_set() != (
                    #[trigger] sub[b]).to_set() by {
                        if b < acc0.len() {
                            assert(sub.subrange(0, acc0.len() as int)[a] == sub[a]);
                            assert(sub.subrange(0, acc0.len() as int)[b] == sub[b]);
                        } else if a < acc0.len() {
                            assert(sub.subrange(0, acc0.len() as int)[a] == sub[a]);
                            if sub[a].to_set() == sub[b].to_set() {
                                assert(!ch2.to_set().subset_of(acc0[a].to_set()));
                                assert(ch2.to_set().subset_of(sub[b].to_set()));
                            }
                        }
                    }
                }
                acc = sub;
            }
            // a second solution exists; no point searching further
            // (break only after restoring, so the matrix unwinds cleanly)
            if sols.len() >= 2 || self.steps == 0 {
                break;
            }
        }
        proof {
            reveal(MatView::wf_cols);
            assert(v.col_ok(ci));
            assert(t * bb <= n * bb) by (nonlinear_arith)
                requires
                    0 <= t <= n,
                    bb >= 0,
            ;
            assert(search_bound(n as nat, depth_left(n, chosen.len() as int)) == 1 + n * bb);
            assert(cover_post(v, self.m@, ci));
            if acc.len() < 2 && self.steps > 0 {
                lemma_complete_column(v, placed0, g, ls, chosen, found, acc, ci);
            }
        }
        self.m.uncover(c);
        Ghost(acc)
    }
}

/// At rest, with no bull placed, the empty path describes the search.
pub proof fn lemma_idle_path(v: MatView, placed: Seq<bool>, g: Seq<Vec<usize>>, ls: Seq<usize>)
    requires
        v.full(),
        placed.len() == g.len() * g.len(),
        forall|o: int| 0 <= o < placed.len() ==> !placed[o],
    ensures
        path_ok(v, placed, g, ls, Seq::empty()),
{
    let e = Seq::<usize>::empty();
    assert forall|h: int| 1 <= h < v.nh() implies (#[trigger] v.hdr.contains(h as usize) <==> !provided(g, ls, e, h)) by {
        assert(v.hdr[h] == h);
    }
    assert forall|o: int| 0 <= o < g.len() * g.len() implies (#[trigger] placed[o] <==> e.contains(o as usize)) by {}
}

/// Distinct sets of rows are distinct sets of cells.
pub proof fn lemma_sol_sets_differ(n: int, e1: Seq<usize>, e2: Seq<usize>)
    requires
        0 < n <= MAX_SIDE,
        forall|k: int| 0 <= k < e1.len() ==> #[trigger] e1[k] < n * n,
        forall|k: int| 0 <= k < e2.len() ==> #[trigger] e2[k] < n * n,
        e1.to_set() != e2.to_set(),
    ensures
        sol_of(n, e1).to_set() != sol_of(n, e2).to_set(),
{
    let s1 = sol_of(n, e1);
    let s2 = sol_of(n, e2);
    // a row in one set and not the other
    let x: usize = if exists|x: usize| e1.to_set().contains(x) && !e2.to_set().contains(x) {
        choose|x: usize| e1.to_set().contains(x) && !e2.to_set().contains(x)
    } else {
        assert(!(e1.to_set() =~= e2.to_set()));
        choose|x: usize| e2.to_set().contains(x) && !e1.to_set().contains(x)
    };
    let in1 = e1.to_set().contains(x);
    let (a, b) = if in1 { (e1, e2) } else { (e2, e1) };
    assert(a.to_set().contains(x) && !b.to_set().contains(x));
    let ka = choose|k: int| 0 <= k < a.len() && a[k] == x;
    lemma_cell_of_id(n, x as int);
    let p = cell_of(n, x as int);
    assert(sol_of(n, a)[ka] == p);
    assert(sol_of(n, a).to_set().contains(p));
    if sol_of(n, b).to_set().contains(p) {
        let kb = choose|k: int| 0 <= k < sol_of(n, b).len() && sol_of(n, b)[k] == p;
        let y = b[kb];
        lemma_cell_of_id(n, y as int);
        assert(cell_of(n, y as int) == p);
        assert(y == x);
        assert(b.to_set().contains(y));
    }
    if in1 {
        assert(s1.to_set().contains(p) && !s2.to_set().contains(p));
    } else {
        assert(s2.to_set().contains(p) && !s1.to_set().contains(p));
    }
}

/// A copy of a list of positions.
pub fn copy_positions(csol: &Vec<Pos>) -> (r: Vec<Pos>)
    ensures
        r@ == csol@,
{
    let mut r: Vec<Pos> = Vec::with_capacity(csol.len());
    let mut k: usize = 0;
    while k < csol.len()
        invariant
            0 <= k <= csol@.len(),
            r@ == csol@.subrange(0, k as int),
        decreases csol@.len() - k,
    {
        r.push(csol[k]);
        k = k + 1;
        proof {
            assert(r@ =~= csol@.subrange(0, k as int));
        }
    }
    proof {
        assert(r@ =~= csol@);
    }
    r
}

impl BullpenSolver {
    /// Count solutions, short-circuiting when multiple exist.
    /// Returns 0, 1, or 2
    pub fn count_sol(&mut self) -> (r: usize)
        requires
            old(self).wf(),
            old(self).idle(),
        ensures
            final(self).wf(),
            final(self).idle(),
            final(self).board() == old(self).board(),
            r <= 2,
            r >= 1 ==> exists|sol: Seq<Pos>| is_solution_k(old(self).board(), sol, 1),
            r == 2 ==> exists|s1: Seq<Pos>, s2: Seq<Pos>|
                is_solution_k(old(self).board(), s1, 1) && is_solution_k(old(self).board(), s2, 1)
                    && s1.to_set() != s2.to_set(),
            r == 0 ==> !exists|sol: Seq<Pos>| is_solution_k(old(self).board(), sol, 1),
            r == 1 ==> unique_solution(old(self).board(), 1),
    {
        let mut out: usize = 0;
        proof {
            lemma_idle_path(self.m@, self.placed@, self.grid@, self.lbl@);
            crate::place::lemma_full_rows_listed(self.m@);
        }
        let Ghost(res) = self.count_sol_rec(&mut out, Ghost(Seq::empty()), Ghost(Seq::empty()));
        proof {
            let g = self.grid@;
            let ls = self.lbl@;
            let n = g.len() as int;
            if out >= 1 {
                lemma_leaf_solution(self.m@, g, ls, res[0]);
                assert(is_solution_k(g, sol_of(n, res[0]), 1));
            }
            if out < 2 {
                // every solution is, as a set of cells, one that was found
                assert forall|t: Seq<Pos>| #[trigger] is_solution_k(g, t, 1) implies out == 1 && sol_of(n, res[0]).to_set()
                    == t.to_set() by {
                    lemma_solution_leaf(self.m@, g, ls, t);
                    let e = rows_of(n, t);
                    assert(Seq::<usize>::empty().to_set().subset_of(e.to_set()));
                    assert(complete_from(g, ls, Seq::empty(), Seq::empty(), res));
                    let i = choose|i: int| 0 <= i < res.len() && (#[trigger] res[i]).to_set() == e.to_set();
                    lemma_sol_of_sets(n, res[i], e);
                }
                if out == 1 {
                    let s0 = sol_of(n, res[0]);
                    assert(is_solution_k(g, s0, 1));
                    assert forall|t: Seq<Pos>| #[trigger] is_solution_k(g, t, 1) implies t.to_set() == s0.to_set() by {}
                    assert(unique_solution(g, 1));
                }
            }
            if out == 2 {
                assert(is_leaf(g, ls, res[0]));
                assert(is_leaf(g, ls, res[1]));
                lemma_leaf_solution(self.m@, g, ls, res[1]);
                assert(res[0].to_set() != res[1].to_set());
                assert(n > 0) by {
                    if n == 0 {
                        let e0 = res[0];
                        let e1 = res[1];
                        assert(n * n == 0) by (nonlinear_arith)
                            requires
                                n == 0,
                        ;
                        assert(forall|k: int| 0 <= k < e0.len() ==> #[trigger] e0[k] < n * n);
                        assert(forall|k: int| 0 <= k < e1.len() ==> #[trigger] e1[k] < n * n);
                        assert(e0.len() == 0) by {
                            if e0.len() > 0 {
                                assert(e0[0] < n * n);
                            }
                        }
                        assert(e1.len() == 0) by {
                            if e1.len() > 0 {
                                assert(e1[0] < n * n);
                            }
                        }
                        assert(res[0].to_set() =~= res[1].to_set());
                    }
                }
                lemma_sol_sets_differ(n, res[0], res[1]);
            }
        }
        out
    }

    /// Whether the puzzle has exactly one solution
    pub fn is_unique(&mut self) -> (r: bool)
        requires
            old(self).wf(),
            old(self).idle(),
        ensures
            final(self).wf(),
            final(self).idle(),
            final(self).board() == old(self).board(),
            r <==> unique_solution(old(self).board(), 1),
    {
        let cnt = self.count_sol();
        proof {
            let g = self.grid@;
            if cnt == 2 && unique_solution(g, 1) {
                let (s1, s2) = choose|s1: Seq<Pos>, s2: Seq<Pos>|
                    is_solution_k(g, s1, 1) && is_solution_k(g, s2, 1) && s1.to_set() != s2.to_set();
                let s = choose|s: Seq<Pos>|
                    #[trigger] is_solution_k(g, s, 1) && forall|t: Seq<Pos>| #[trigger] is_solution_k(g, t, 1) ==> t.to_set() == s.to_set();
                assert(s1.to_set() == s.to_set());
                assert(s2.to_set() == s.to_set());
            }
        }
        cnt == 1
    }
}

/// Every list of `sols` is a solution of `g`, and no two are the same set
/// of cells.
pub open spec fn solutions_ok(g: Seq<Vec<usize>>, sols: Seq<Vec<Pos>>) -> bool {
    &&& forall|i: int| 0 <= i < sols.len() ==> is_solution_k(g, (#[trigger] sols[i])@, 1)
    &&& forall|i: int, j: int| 0 <= i < j < sols.len() ==> (#[trigger] sols[i])@.to_set() != (#[trigger] sols[j])@.to_set()
}

/// How many search steps a subtree `d` levels above the leaves takes at
/// most when each node has at most `n` children: 1 + n + n^2 + ... + n^d.
pub open spec fn search_bound(n: nat, d: nat) -> nat
    decreases d,
{
    if d == 0 {
        1
    } else {
        1 + n * search_bound(n, (d - 1) as nat)
    }
}

/// On boards of side at most 7 the whole search takes fewer than
/// 2^32 - 1 steps, so `solve_within(usize::MAX)` never gives up there.
pub proof fn lemma_small_boards_bounded(n: nat)
    requires
        n <= 7,
    ensures
        search_bound(n, n) < 0xffff_ffff,
{
    reveal_with_fuel(search_bound, 8);
    if n == 0 {
    } else if n == 1 {
    } else if n == 2 {
    } else if n == 3 {
    } else if n == 4 {
    } else if n == 5 {
    } else if n == 6 {
    } else {
        assert(search_bound(7, 7) == 960800);
    }
}

/// Levels left below a search node with `len` rows chosen on a side-`n` board.
pub open spec fn depth_left(n: int, len: int) -> nat {
    if len <= n {
        (n - len) as nat
    } else {
        0
    }
}

/// Every subtree bound is at least one step.
pub proof fn lemma_search_bound_pos(n: nat, d: nat)
    ensures
        search_bound(n, d) >= 1,
{
    if d > 0 {
        assert(n * search_bound(n, (d - 1) as nat) >= 0) by (nonlinear_arith);
    }
}

/// A matrix row provides a board-row column only for its own board row.
proof fn lemma_row_column_of(v: MatView, g: Seq<Vec<usize>>, ls: Seq<usize>, o: int, h: int)
    requires
        board_layout(v, g, ls),
        0 < g.len() <= MAX_SIDE,
        0 <= o < g.len() * g.len(),
        1 <= h <= g.len(),
        covers(g, ls, o, h),
    ensures
        h == 1 + o / (g.len() as int),
{
    let n = g.len() as int;
    lemma_cell_of_id(n, o);
    let r = o / n;
    let c = o % n;
    assert(cell_id(n, r, c) == o);
    assert(ls.contains(label(g, r, c)));
    crate::cover::lemma_pos_of(ls, label(g, r, c));
}

/// The chosen rows lie in different board rows; when board row `r` is not
/// provided yet, fewer than n rows are chosen.
proof fn lemma_path_rows(v: MatView, placed: Seq<bool>, g: Seq<Vec<usize>>, ls: Seq<usize>, chosen: Seq<usize>, r: int)
    requires
        path_ok(v, placed, g, ls, chosen),
        0 < g.len() <= MAX_SIDE,
        0 <= r < g.len(),
        !provided(g, ls, chosen, 1 + r),
    ensures
        chosen.len() < g.len(),
{
    let n = g.len() as int;
    let rs = Seq::new(chosen.len(), |k: int| chosen[k] as int / n);
    assert forall|k: int| 0 <= k < chosen.len() implies covers(g, ls, chosen[k] as int, #[trigger] rs[k] + 1) by {}
    assert(rs.no_duplicates()) by {
        assert forall|i: int, j: int| 0 <= i < rs.len() && 0 <= j < rs.len() && i != j implies rs[i] != rs[j] by {
            if rs[i] == rs[j] {
                assert(covers(g, ls, chosen[i] as int, rs[i] + 1));
                assert(covers(g, ls, chosen[j] as int, rs[i] + 1));
            }
        }
    }
    let dom = vstd::set_lib::set_int_range(0, n).remove(r);
    assert forall|x: int| rs.to_set().contains(x) implies dom.contains(x) by {
        let k = choose|k: int| 0 <= k < rs.len() && rs[k] == x;
        lemma_cell_of_id(n, chosen[k] as int);
        if x == r {
            assert(covers(g, ls, chosen[k] as int, 1 + r));
            assert(provided(g, ls, chosen, 1 + r));
        }
    }
    rs.unique_seq_to_set();
    vstd::set_lib::lemma_int_range(0, n);
    vstd::set_lib::lemma_len_subset(rs.to_set(), dom);
}

/// A board-row column lists at most n rows: one per cell of that row.
pub proof fn lemma_row_col_size(v: MatView, g: Seq<Vec<usize>>, ls: Seq<usize>, h: int)
    requires
        v.wf_links(),
        board_layout(v, g, ls),
        0 < g.len() <= MAX_SIDE,
        1 <= h <= g.len(),
    ensures
        v.size[h] <= g.len(),
{
    let n = g.len() as int;
    reveal(MatView::wf_cols);
    reveal(MatView::wf_shape);
    assert(v.col_ok(h));
    let col = v.cols[h];
    let cs = Seq::new((col.len() - 1) as nat, |t: int| v.row_id[col[t + 1] as int] as int % n);
    assert forall|t: int| 0 <= t < cs.len() implies {
        let o = v.row_id[col[t + 1] as int] as int;
        &&& 0 <= o < n * n
        &&& o / n == h - 1
        &&& 0 <= #[trigger] cs[t] < n
        &&& o == (h - 1) * n + cs[t]
    } by {
        let i = col[t + 1] as int;
        crate::cover::lemma_col_members(v, h);
        lemma_node_row(v, g, ls, i);
        let o = v.row_id[i] as int;
        assert(covers(g, ls, o, h));
        lemma_row_column_of(v, g, ls, o, h);
        lemma_cell_of_id(n, o);
    }
    assert(cs.no_duplicates()) by {
        assert forall|i: int, j: int| 0 <= i < cs.len() && 0 <= j < cs.len() && i != j implies cs[i] != cs[j] by {
            if cs[i] == cs[j] {
                crate::cover::lemma_col_rows_distinct(v, h, i + 1, j + 1);
            }
        }
    }
    let dom = vstd::set_lib::set_int_range(0, n);
    assert forall|x: int| cs.to_set().contains(x) implies dom.contains(x) by {
        let k = choose|k: int| 0 <= k < cs.len() && cs[k] == x;
    }
    cs.unique_seq_to_set();
    vstd::set_lib::lemma_int_range(0, n);
    vstd::set_lib::lemma_len_subset(cs.to_set(), dom);
}

/// At a search node whose chosen column (fewest rows among the active ones)
/// is not empty, the column lists at most n rows and fewer than n rows
/// are chosen: the search tree has at most n children per node and depth n.
proof fn lemma_branch_bound(v: MatView, placed: Seq<bool>, g: Seq<Vec<usize>>, ls: Seq<usize>, chosen: Seq<usize>, c: int)
    requires
        v.wf(),
        board_layout(v, g, ls),
        0 < g.len() <= MAX_SIDE,
        path_ok(v, placed, g, ls, chosen),
        v.hdr.contains(c as usize),
        0 < c < v.nh(),
        v.size[c] > 0,
        forall|i: int| 1 <= i < v.hdr.len() ==> v.size[c] <= v.size[#[trigger] v.hdr[i] as int],
    ensures
        v.size[c] <= g.len(),
        chosen.len() < g.len(),
{
    let n = g.len() as int;
    reveal(MatView::wf_cols);
    reveal(MatView::wf_shape);
    reveal(MatView::wf_hdr);
    assert(v.col_ok(c));
    let j = v.cols[c][1] as int;
    crate::cover::lemma_col_members(v, c);
    lemma_node_row(v, g, ls, j);
    let o = v.row_id[j] as int;
    assert(v.row_live(o));
    lemma_row_columns(v, g, ls, o);
    lemma_cell_of_id(n, o);
    let h = 1 + o / n;
    assert(covers(g, ls, o, h));
    let t = choose|t: int| 0 <= t < 3 && #[trigger] v.col(v.rows[o][t] as int) == h;
    assert(v.hdr.contains(v.c[v.rows[o][t] as int].0));
    assert(v.hdr.contains(h as usize));
    assert(v.nh() == 3 * n + 1);
    assert(!provided(g, ls, chosen, h));
    lemma_path_rows(v, placed, g, ls, chosen, o / n);
    let i = choose|i: int| 0 <= i < v.hdr.len() && v.hdr[i] == h as usize;
    assert(i != 0);
    lemma_row_col_size(v, g, ls, h);
}

/// Two answers of `solve` for one board agree: equally many solutions,
/// and the same cell sets when there are fewer than two.
pub proof fn lemma_solve_answers_agree(g: Seq<Vec<usize>>, r1: Seq<Vec<Pos>>, r2: Seq<Vec<Pos>>)
    requires
        r1.len() <= 2,
        r2.len() <= 2,
        solutions_ok(g, r1),
        solutions_ok(g, r2),
        r1.len() < 2 ==> all_found(g, 1, None, r1),
        r2.len() < 2 ==> all_found(g, 1, None, r2),
    ensures
        r1.len() == r2.len(),
        r1.len() < 2 ==> forall|i: int| 0 <= i < r1.len() ==> (#[trigger] r1[i])@.to_set() == r2[i]@.to_set(),
{
    crate::double::lemma_answers_agree(g, 1, r1, r2);
}

impl BullpenSolver {
    /// Run the search with the given work budget; the solutions found.
    fn run(&mut self, budget: usize, bounded: bool) -> (out: Vec<Vec<Pos>>)
        requires
            old(self).wf(),
            old(self).idle(),
        ensures
            final(self).wf(),
            final(self).idle(),
            final(self).board() == old(self).board(),
            final(self).steps <= budget,
            budget == 0 ==> final(self).steps == 0,
            !bounded ==> final(self).steps == budget,
            budget > search_bound(old(self).grid@.len() as nat, old(self).grid@.len() as nat) ==> final(self).steps > 0,
            out.len() <= 2,
            solutions_ok(old(self).board(), out@),
            out.len() < 2 && !final(self).gave_up() ==> all_found(old(self).board(), 1, None, out@),
    {
        self.steps = budget;
        self.bounded = bounded;
        let mut out: Vec<Vec<Pos>> = Vec::new();
        let mut csol: Vec<Pos> = Vec::new();
        proof {
            lemma_idle_path(self.m@, self.placed@, self.grid@, self.lbl@);
            crate::place::lemma_full_rows_listed(self.m@);
            assert(csol@ =~= sol_of(self.n as int, Seq::empty()));
        }
        let Ghost(res) = self.solve_rec(&mut csol, &mut out, Ghost(Seq::empty()), Ghost(Seq::empty()));
        proof {
            let g = self.grid@;
            let ls = self.lbl@;
            let n = g.len() as int;
            assert forall|i: int| 0 <= i < out@.len() implies is_solution_k(g, (#[trigger] out@[i])@, 1) by {
                assert(is_leaf(g, ls, res[i]));
                lemma_leaf_solution(self.m@, g, ls, res[i]);
            }
            assert forall|i: int, j: int| 0 <= i < j < out@.len() implies (#[trigger] out@[i])@.to_set() != (
            #[trigger] out@[j])@.to_set() by {
                let e0 = res[i];
                let e1 = res[j];
                assert(is_leaf(g, ls, e0));
                assert(is_leaf(g, ls, e1));
                assert(e0.to_set() != e1.to_set());
                assert(forall|k: int| 0 <= k < e0.len() ==> #[trigger] e0[k] < n * n);
                assert(forall|k: int| 0 <= k < e1.len() ==> #[trigger] e1[k] < n * n);
                if n == 0 {
                    assert(n * n == 0) by (nonlinear_arith)
                        requires
                            n == 0,
                    ;
                    assert(e0.len() == 0) by {
                        if e0.len() > 0 {
                            assert(e0[0] < n * n);
                        }
                    }
                    assert(e1.len() == 0) by {
                        if e1.len() > 0 {
                            assert(e1[0] < n * n);
                        }
                    }
                    assert(e0.to_set() =~= e1.to_set());
                }
                lemma_sol_sets_differ(n, e0, e1);
            }
            if out@.len() < 2 && self.steps > 0 {
                assert forall|t: Seq<Pos>| #[trigger] is_solution_k(g, t, 1) && !skipped(None, t) implies found_set(out@, 0, t) by {
                    lemma_solution_leaf(self.m@, g, ls, t);
                    let e = rows_of(n, t);
                    assert(Seq::<usize>::empty().to_set().subset_of(e.to_set()));
                    assert(complete_from(g, ls, Seq::empty(), Seq::empty(), res));
                    let i = choose|i: int| 0 <= i < res.len() && (#[trigger] res[i]).to_set() == e.to_set();
                    lemma_sol_of_sets(n, res[i], e);
                    assert(out@[i]@.to_set() == t.to_set());
                }
            }
        }
        out
    }

    /// Returns at most 2 solutions: two different ones when the board has
    /// two or more, else all of them. The search is not cut short.
    pub fn solve(&mut self) -> (r: Vec<Vec<Pos>>)
        requires
            old(self).wf(),
            old(self).idle(),
        ensures
            final(self).wf(),
            final(self).idle(),
            final(self).board() == old(self).board(),
            !final(self).gave_up(),
            r.len() <= 2,
            solutions_ok(old(self).board(), r@),
            r.len() < 2 ==> all_found(old(self).board(), 1, None, r@),
    {
        self.run(usize::MAX, false)
    }

    /// Like `solve`, but gives up once the search has taken `budget`
    /// recursion steps, returning None. Exhaustively proving "0 solutions"
    /// or "exactly 1 solution" can take seconds on a pathological board;
    /// a caller that only wants *cheap* boards can discard one rather
    /// than pay to learn its exact answer. Aborting unwinds cleanly, so
    /// the solver stays reusable.
    pub fn solve_within(&mut self, budget: usize) -> (r: Option<Vec<Vec<Pos>>>)
        requires
            old(self).wf(),
            old(self).idle(),
        ensures
            final(self).wf(),
            final(self).idle(),
            final(self).board() == old(self).board(),
            budget == 0 ==> r is None,
            r is None <==> final(self).gave_up(),
            r matches Some(sols) ==> sols.len() <= 2 && solutions_ok(old(self).board(), sols@),
            r matches Some(sols) ==> (sols.len() < 2 ==> all_found(old(self).board(), 1, None, sols@)),
            budget > search_bound(old(self).board().len() as nat, old(self).board().len() as nat) ==> r is Some,
    {
        let out = self.run(budget, true);
        if self.steps == 0 {
            None
        } else {
            Some(out)
        }
    }
}

} // verus!
