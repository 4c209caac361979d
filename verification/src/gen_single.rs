//! Single bullpen generator driven by a `fastrand` generator: random
//! regions, a matching prefilter, then targeted repair until the K = 1
//! solver finds exactly one solution.

use std::collections::VecDeque;

use vstd::prelude::*;

use crate::board::{is_solution_k, label, Pos};
use crate::connect::{frontier_adj, regions_connected};
use crate::double::{found_set, skipped, unique_solution};
use crate::grid::{kill_solution, orth_spec, rows_of, set_cell, set_label};
use crate::regions::{
    drop_seeds, fresh_grid, grow_free, growing, labels_exact, lemma_boundary, lemma_labels_exact_board, lemma_rows_len,
    lemma_sum_zero, lemma_un_count_bounds, lemma_un_count_set, pick_caps, present, sum_of, un_count, UNASSIGNED,
};
use crate::rng::Dice;
use crate::solver::{BullpenSolver, MAX_SIDE};

verus! {

/// The `fastrand` generator, carried through unopened.
#[verifier::external_type_specification]
#[verifier::external_body]
pub struct ExFastRng(fastrand::Rng);

/// `fastrand::Rng::usize` over `lo..=hi`: some number in that range. The
/// range is never empty here, so the call does not panic. Which number
/// comes out depends on the generator's state, and is not stated.
#[verifier::external_body]
fn rand_usize(rng: &mut fastrand::Rng, lo: usize, hi: usize) -> (r: usize)
    requires
        lo <= hi,
    ensures
        lo <= r <= hi,
{
    rng.usize(lo..=hi)
}

/// `fastrand::Rng::shuffle`: the same items in some order (it swaps each
/// position with an earlier or equal one). Which order comes out depends
/// on the generator's state, and is not stated.
#[verifier::external_body]
fn rand_shuffle<T>(rng: &mut fastrand::Rng, items: &mut Vec<T>)
    ensures
        final(items)@.len() == old(items)@.len(),
        final(items)@.to_multiset() == old(items)@.to_multiset(),
{
    rng.shuffle(items.as_mut_slice())
}

impl Dice for fastrand::Rng {
    fn pick(&mut self, lo: usize, hi: usize) -> (r: usize) {
        rand_usize(self, lo, hi)
    }

    fn mix_up<T: Copy>(&mut self, items: &mut Vec<T>) {
        rand_shuffle(self, items)
    }
}

/// Give up repairing one board after this many edits and reroll.
const MAX_REPAIRS: usize = 50;

/// Per-solve work budget of the K = 1 solver.
const SOLVE_BUDGET: usize = 50_000;

/// Smallest size cap for capped regions.
const CAP_MIN: usize = 1;

/// Largest size cap for capped regions.
const CAP_MAX: usize = 3;

/// A bullpen generator over its own random generator.
pub struct GenPen {
    rng: fastrand::Rng,
    grid: Vec<Vec<usize>>,
    n: usize,
}

impl GenPen {
    /// The side of the last board asked for.
    pub closed spec fn side(&self) -> usize {
        self.n
    }

    /// The random generator the boards are drawn from.
    pub closed spec fn generator(&self) -> fastrand::Rng {
        self.rng
    }

    /// The grid being worked on.
    pub closed spec fn board(&self) -> Seq<Vec<usize>> {
        self.grid@
    }

    pub fn new(rng: fastrand::Rng) -> (r: Self)
        ensures
            r.side() == 0,
            r.generator() == rng,
            r.board().len() == 0,
    {
        GenPen { n: 0, grid: Vec::new(), rng }
    }

    /// Generate an n x n bullpen (one bull per row, column and region):
    /// reroll until a roll repairs down to exactly one solution. After
    /// `u64::MAX - 1` failed rolls it gives up and returns an empty grid.
    pub fn gen(&mut self, n: usize) -> (g: Vec<Vec<usize>>)
        requires
            n <= MAX_SIDE,
        ensures
            g@.len() == n || g@.len() == 0,
            g@.len() == n ==> labels_exact(g@, n as int) && regions_connected(g@) && unique_solution(g@, 1),
            final(self).side() == n,
            final(self).board().len() == 0,
    {
        proof {
            assert(n * n <= MAX_SIDE * MAX_SIDE) by (nonlinear_arith)
                requires
                    n <= MAX_SIDE,
            ;
        }
        self.n = n;
        self.init_grid();
        let mut tries: u64 = 0;
        loop
            invariant
                n == self.n,
                n <= MAX_SIDE,
                n * n <= MAX_SIDE * MAX_SIDE,
                growing(self.grid@, n as int),
                tries < u64::MAX,
            decreases u64::MAX - tries,
        {
            if tries == u64::MAX - 1 {
                // practically unreachable: stop rerolling, with no board
                proof {
                    crate::double::lemma_empty_unique(1);
                }
                self.grid = Vec::new();
                return Vec::new();
            }
            tries = tries + 1;
            if self.attempt() {
                let mut out: Vec<Vec<usize>> = Vec::new();
                std::mem::swap(&mut out, &mut self.grid);
                return out;
            }
            proof {
                assert(growing(self.grid@, n as int));
            }
        }
    }

    /// How many regions get a size cap (inclusive range).
    fn num_caps(&self) -> (r: (usize, usize))
        requires
            self.n <= MAX_SIDE,
        ensures
            r.0 == self.n / 3,
            r.1 == (if self.n / 3 + 2 <= self.n { self.n / 3 + 2 } else { self.n as int }),
    {
        let hi = self.n / 3 + 2;
        (self.n / 3, if hi <= self.n { hi } else { self.n })
    }

    /// A fresh n x n grid of unassigned cells.
    fn init_grid(&mut self)
        requires
            old(self).n * old(self).n < usize::MAX,
        ensures
            final(self).n == old(self).n,
            growing(final(self).grid@, final(self).n as int),
    {
        self.grid = fresh_grid(self.n);
    }

    /// Mark every cell unassigned again.
    fn clear(&mut self)
        requires
            growing(old(self).grid@, old(self).n as int),
        ensures
            final(self).n == old(self).n,
            growing(final(self).grid@, final(self).n as int),
            forall|r: int, c: int|
                0 <= r < final(self).n && 0 <= c < final(self).n ==> #[trigger] label(final(self).grid@, r, c) == UNASSIGNED,
    {
        let n = self.n;
        let mut r: usize = 0;
        while r < n
            invariant
                n == self.n,
                0 <= r <= n,
                growing(self.grid@, n as int),
                forall|rr: int, c: int| 0 <= rr < r && 0 <= c < n ==> #[trigger] label(self.grid@, rr, c) == UNASSIGNED,
            decreases n - r,
        {
            let mut c: usize = 0;
            while c < n
                invariant
                    n == self.n,
                    0 <= r < n,
                    0 <= c <= n,
                    growing(self.grid@, n as int),
                    forall|rr: int, cc: int| 0 <= rr < r && 0 <= cc < n ==> #[trigger] label(self.grid@, rr, cc) == UNASSIGNED,
                    forall|cc: int| 0 <= cc < c ==> #[trigger] label(self.grid@, r as int, cc) == UNASSIGNED,
                decreases n - c,
            {
                let ghost g0 = self.grid@;
                proof {
                    assert(g0[r as int]@.len() == n);
                }
                set_cell(&mut self.grid, r, c, UNASSIGNED);
                proof {
                    let g1 = self.grid@;
                    assert forall|rr: int| 0 <= rr < n implies (#[trigger] g1[rr])@.len() == n by {
                        assert(rows_of(g1)[rr] == g1[rr]@);
                    }
                    assert forall|rr: int, cc: int| 0 <= rr < n && 0 <= cc < n implies #[trigger] label(g1, rr, cc) == (if (rr,
                        cc) == (r as int, c as int) {
                        UNASSIGNED
                    } else {
                        label(g0, rr, cc)
                    }) by {
                        assert(rows_of(g1)[rr] == g1[rr]@);
                    }
                }
                c = c + 1;
            }
            r = r + 1;
        }
    }

    /// Grow random regions over the cleared grid.
    fn gen_regions(&mut self)
        requires
            old(self).n * old(self).n < usize::MAX,
            old(self).n <= MAX_SIDE,
            growing(old(self).grid@, old(self).n as int),
            forall|r: int, c: int|
                0 <= r < old(self).n && 0 <= c < old(self).n ==> #[trigger] label(old(self).grid@, r, c) == UNASSIGNED,
        ensures
            final(self).n == old(self).n,
            labels_exact(final(self).grid@, final(self).n as int),
            regions_connected(final(self).grid@),
    {
        let n = self.n;
        let mut frontier: Vec<(Pos, usize)> = Vec::new();
        let mut sizes: Vec<usize> = vec![0usize; n];
        proof {
            assert(frontier_adj(frontier@, self.grid@));
            lemma_sum_zero(sizes@);
            lemma_rows_len(self.grid@, n as int);
            assert forall|r: int, c: int| 0 <= r < n && 0 <= c < n implies #[trigger] rows_of(self.grid@)[r][c] == UNASSIGNED by {
                assert(label(self.grid@, r, c) == UNASSIGNED);
            }
            lemma_un_count_all(rows_of(self.grid@), n as int);
        }
        let caps = self.num_caps();
        // take a number of regions and cap them
        let max_size = pick_caps(n, &mut self.rng, caps, (CAP_MIN, CAP_MAX));
        // add seeds
        drop_seeds(&mut self.grid, &mut frontier, &mut sizes, &mut self.rng);
        let ghost g1 = self.grid@;
        grow_free(&mut self.grid, &mut frontier, &mut sizes, &max_size, &mut self.rng);
        proof {
            if n > 0 {
                assert(present(g1, 0));
            }
        }
        let ghost g2 = self.grid@;
        // capped regions may not fill the board (walled off cells)
        fill_stranded(&mut self.grid, &sizes);
        proof {
            assert forall|l: usize| l < n implies #[trigger] present(self.grid@, l) by {
                assert(present(g1, l));
                assert(present(g2, l));
            }
            assert forall|r: int, c: int| 0 <= r < n && 0 <= c < n implies #[trigger] label(self.grid@, r, c) < n by {
                assert(label(self.grid@, r, c) != UNASSIGNED);
            }
        }
    }

    /// Edit the grid so that `kill` stops being a solution while `keep`
    /// stays one; false if no legal edit exists.
    fn kill_sol(&mut self, keep: &[Pos], kill: &[Pos]) -> (r: bool)
        requires
            crate::board::is_square(old(self).grid@),
            old(self).grid@.len() * old(self).grid@.len() < usize::MAX,
            forall|i: int| 0 <= i < kill@.len() ==> (#[trigger] kill@[i]).0 < old(self).grid@.len() && kill@[i].1 < old(
                self,
            ).grid@.len(),
        ensures
            final(self).n == old(self).n,
            final(self).grid@.len() == old(self).grid@.len(),
            !r ==> final(self).grid@ == old(self).grid@,
            r ==> exists|p: Pos, q: Pos|
                {
                    &&& kill@.contains(p)
                    &&& !keep@.contains(p)
                    &&& crate::grid::contiguous_without(old(self).grid@, p.0, p.1)
                    &&& q.0 < old(self).grid@.len() && q.1 < old(self).grid@.len()
                    &&& crate::grid::orth_adj(p, q)
                    &&& label(old(self).grid@, q.0 as int, q.1 as int) != label(old(self).grid@, p.0 as int, p.1 as int)
                    &&& rows_of(final(self).grid@) == set_label(
                        old(self).grid@,
                        p,
                        label(old(self).grid@, q.0 as int, q.1 as int),
                    )
                },
            regions_connected(old(self).grid@) ==> regions_connected(final(self).grid@),
            r == exists|p: Pos| kill@.contains(p) && !keep@.contains(p) && #[trigger] crate::grid::movable(old(self).grid@, p),
    {
        kill_solution(&mut self.grid, keep, kill, &mut self.rng)
    }

    /// Cheap necessary condition: regions can be matched one-to-one with
    /// rows they meet, and likewise with columns.
    fn solvable(&self) -> (r: bool)
        requires
            labels_exact(self.grid@, self.grid@.len() as int),
            self.grid@.len() * self.grid@.len() < usize::MAX,
        ensures
            r == (crate::genpenai::lines_matchable(self.grid@, true) && crate::genpenai::lines_matchable(self.grid@, false)),
    {
        crate::genpenai::matchable(&self.grid)
    }

    /// Repair the current board until the solver finds exactly one
    /// solution; whether it got there (else the board is to be rerolled).
    fn repair(&mut self) -> (done: bool)
        requires
            old(self).n <= MAX_SIDE,
            old(self).n * old(self).n <= MAX_SIDE * MAX_SIDE,
            labels_exact(old(self).grid@, old(self).n as int),
            regions_connected(old(self).grid@),
        ensures
            final(self).n == old(self).n,
            labels_exact(final(self).grid@, final(self).n as int),
            done ==> unique_solution(final(self).grid@, 1),
            regions_connected(final(self).grid@),
            (forall|t: Seq<Pos>| !#[trigger] is_solution_k(old(self).grid@, t, 1)) ==> !done && final(self).grid@
                == old(self).grid@,
            unique_solution(old(self).grid@, 1) ==> final(self).grid@ == old(self).grid@,
    {
        let n = self.n;
        let mut rep: usize = 0;
        while rep < MAX_REPAIRS
            invariant
                n == self.n,
                n == old(self).n,
                labels_exact(self.grid@, n as int),
                regions_connected(self.grid@),
                n <= MAX_SIDE,
                n * n <= MAX_SIDE * MAX_SIDE,
                rep == 0 ==> self.grid@ == old(self).grid@,
                rep > 0 ==> (exists|t: Seq<Pos>| #[trigger] is_solution_k(old(self).grid@, t, 1)),
                rep > 0 ==> !unique_solution(old(self).grid@, 1),
                rep <= MAX_REPAIRS,
            decreases MAX_REPAIRS - rep,
        {
            proof {
                lemma_labels_exact_board(self.grid@, n as int);
            }
            let mut solver = BullpenSolver::new(&self.grid);
            let sols = match solver.solve_within(SOLVE_BUDGET) {
                Some(sols) => sols,
                None => {
                    return false;
                },  // too expensive
            };
            if sols.len() == 0 {
                return false;
            }
            if sols.len() == 1 {
                proof {
                    let g = self.grid@;
                    let a = sols@[0]@;
                    assert(is_solution_k(g, a, 1));
                    assert forall|t: Seq<Pos>| #[trigger] is_solution_k(g, t, 1) implies t.to_set() == a.to_set() by {
                        assert(!skipped(None, t));
                        assert(found_set(sols@, 0, t));
                    }
                    assert(unique_solution(g, 1));
                }
                return true;  // yay!
            }
            let ghost g0 = self.grid@;
            proof {
                assert(is_solution_k(g0, sols@[0]@, 1));
                assert(is_solution_k(g0, sols@[1]@, 1));
                assert(sols@[0]@.to_set() != sols@[1]@.to_set());
                assert(!unique_solution(g0, 1)) by {
                    if unique_solution(g0, 1) {
                        let u = choose|u: Seq<Pos>|
                            #[trigger] is_solution_k(g0, u, 1) && forall|t: Seq<Pos>|
                                #[trigger] is_solution_k(g0, t, 1) ==> t.to_set() == u.to_set();
                        assert(sols@[0]@.to_set() == u.to_set());
                        assert(sols@[1]@.to_set() == u.to_set());
                    }
                }
            }
            let ok1 = self.kill_sol(sols[0].as_slice(), sols[1].as_slice());
            let mut ok = ok1;
            if !ok1 {
                ok = self.kill_sol(sols[1].as_slice(), sols[0].as_slice());
            }
            if !ok {
                return false;
            }
            proof {
                let g1 = self.grid@;
                let (p, q) = choose|p: Pos, q: Pos|
                    {
                        &&& crate::grid::contiguous_without(g0, p.0, p.1)
                        &&& p.0 < g0.len() && p.1 < g0.len()
                        &&& q.0 < g0.len() && q.1 < g0.len()
                        &&& rows_of(g1) == set_label(g0, p, label(g0, q.0 as int, q.1 as int))
                    };
                crate::genpenai::lemma_anchor_cell(g0, p.0, p.1);
                let other = choose|o: Pos|
                    o.0 < g0.len() && o.1 < g0.len() && o != (p.0, p.1) && #[trigger] label(g0, o.0 as int, o.1 as int)
                        == label(g0, p.0 as int, p.1 as int);
                crate::regions::lemma_relabel_exact(g0, g1, n as int, p, other, q);
            }
            rep = rep + 1;
        }
        false
    }

    /// One attempt on the current side: fresh regions, the matching check,
    /// then repair; whether the board now has exactly one solution.
    fn attempt(&mut self) -> (done: bool)
        requires
            old(self).n <= MAX_SIDE,
            old(self).n * old(self).n <= MAX_SIDE * MAX_SIDE,
            growing(old(self).grid@, old(self).n as int),
        ensures
            final(self).n == old(self).n,
            labels_exact(final(self).grid@, final(self).n as int),
            regions_connected(final(self).grid@),
            done ==> unique_solution(final(self).grid@, 1),
    {
        self.clear();
        self.gen_regions();
        if !self.solvable() {
            return false;
        }
        self.repair()
    }

    /// One attempt at an n x n bullpen: the board when it ends up with
    /// exactly one solution, None when it is to be rerolled.
    pub fn roll(&mut self, n: usize) -> (r: Option<Vec<Vec<usize>>>)
        requires
            n <= MAX_SIDE,
        ensures
            final(self).side() == n,
            r matches Some(g) ==> labels_exact(g@, n as int) && unique_solution(g@, 1) && regions_connected(g@),
    {
        proof {
            assert(n * n <= MAX_SIDE * MAX_SIDE) by (nonlinear_arith)
                requires
                    n <= MAX_SIDE,
            ;
        }
        self.n = n;
        self.init_grid();
        if self.attempt() {
            let mut out: Vec<Vec<usize>> = Vec::new();
            std::mem::swap(&mut out, &mut self.grid);
            Some(out)
        } else {
            None
        }
    }
}

/// Rows of `n` unassigned cells hold `n` unassigned cells each.
proof fn lemma_un_count_all(rows: Seq<Seq<usize>>, n: int)
    requires
        forall|r: int| 0 <= r < rows.len() ==> (#[trigger] rows[r]).len() == n,
        forall|r: int, c: int| 0 <= r < rows.len() && 0 <= c < n ==> #[trigger] rows[r][c] == UNASSIGNED,
    ensures
        un_count(rows) == rows.len() * n,
    decreases rows.len(),
{
    if rows.len() > 0 {
        let r0 = rows.drop_last();
        assert forall|r: int| 0 <= r < r0.len() implies (#[trigger] r0[r]).len() == n by {
            assert(r0[r] == rows[r]);
        }
        assert forall|r: int, c: int| 0 <= r < r0.len() && 0 <= c < n implies #[trigger] r0[r][c] == UNASSIGNED by {
            assert(r0[r] == rows[r]);
        }
        lemma_un_count_all(r0, n);
        let last = rows[rows.len() - 1];
        assert forall|c: int| 0 <= c < last.len() implies last[c] == UNASSIGNED by {
            assert(rows[rows.len() - 1][c] == UNASSIGNED);
        }
        crate::regions::lemma_un_row_all(last);
        assert((r0.len() + 1) * n == r0.len() * n + n) by (nonlinear_arith);
    }
}

/// Cells walled off by full capped regions take the label of an assigned
/// side neighbour, in queue order: a cell with none yet goes to the back
/// of the queue and is retried later.
fn fill_stranded(grid: &mut Vec<Vec<usize>>, sizes: &Vec<usize>)
    requires
        growing(old(grid)@, old(grid)@.len() as int),
        old(grid)@.len() * old(grid)@.len() < usize::MAX,
        sizes@.len() == old(grid)@.len(),
        sum_of(sizes@) + un_count(rows_of(old(grid)@)) == old(grid)@.len() * old(grid)@.len(),
        old(grid)@.len() > 0 ==> present(old(grid)@, 0),
        regions_connected(old(grid)@),
    ensures
        final(grid)@.len() == old(grid)@.len(),
        growing(final(grid)@, old(grid)@.len() as int),
        forall|r: int, c: int|
            0 <= r < old(grid)@.len() && 0 <= c < old(grid)@.len() ==> #[trigger] label(final(grid)@, r, c) != UNASSIGNED,
        forall|l: usize| l < old(grid)@.len() && present(old(grid)@, l) ==> #[trigger] present(final(grid)@, l),
        regions_connected(final(grid)@),
{
    let n = grid.len();
    let ghost nn = n as int;
    let ghost g0 = grid@;
    proof {
        lemma_rows_len(grid@, nn);
        lemma_un_count_bounds(rows_of(grid@), nn);
    }
    if crate::regions::sum_sizes(sizes) < n * n {
        let cells = crate::regions::unassigned_cells(grid);
        let mut queue: VecDeque<Pos> = VecDeque::new();
        let mut k: usize = 0;
        while k < cells.len()
            invariant
                0 <= k <= cells@.len(),
                queue@ == cells@.take(k as int),
            decreases cells@.len() - k,
        {
            queue.push_back(cells[k]);
            proof {
                assert(queue@ =~= cells@.take(k + 1));
            }
            k = k + 1;
        }
        proof {
            assert(queue@ =~= cells@);
        }
        let ghost mut f: int = 0;
        while queue.len() > 0
            invariant
                n == grid@.len(),
                nn == n,
                nn * nn < usize::MAX,
                growing(grid@, nn),
                n > 0,
                present(grid@, 0),
                queue@.no_duplicates(),
                forall|p: Pos| queue@.contains(p) <==> (p.0 < n && p.1 < n && label(grid@, p.0 as int, p.1 as int) == UNASSIGNED),
                forall|l: usize| l < n && present(g0, l) ==> #[trigger] present(grid@, l),
                regions_connected(grid@),
                0 <= f <= queue@.len(),
                forall|j: int|
                    queue@.len() - f <= j < queue@.len() ==> forall|i: int|
                        0 <= i < orth_spec((#[trigger] queue@[j]).0, queue@[j].1, n).len() ==> label(
                            grid@,
                            orth_spec(queue@[j].0, queue@[j].1, n)[i].0 as int,
                            orth_spec(queue@[j].0, queue@[j].1, n)[i].1 as int,
                        ) == UNASSIGNED,
            decreases un_count(rows_of(grid@)), queue@.len() - f,
        {
            let ghost q0 = queue@;
            proof {
                if q0.len() > 0 && f == q0.len() {
                    // nobody in the queue touches an assigned cell: impossible
                    let gg = grid@;
                    let (ru, cu) = choose|ru: int, cu: int| 0 <= ru < gg.len() && 0 <= cu < gg.len() && #[trigger] label(gg, ru, cu) == 0;
                    let u = q0[0];
                    assert(q0.contains(u));
                    lemma_boundary(gg, nn, (ru as usize, cu as usize), u);
                    let (p, q) = choose|p: Pos, q: Pos|
                        p.0 < nn && p.1 < nn && q.0 < nn && q.1 < nn && label(gg, p.0 as int, p.1 as int) == UNASSIGNED && label(
                            gg, q.0 as int, q.1 as int) != UNASSIGNED && #[trigger] crate::grid::orth_adj(p, q);
                    assert(q0.contains(p));
                    let j = choose|j: int| 0 <= j < q0.len() && q0[j] == p;
                    crate::grid::lemma_orth_spec(p.0, p.1, n);
                    assert(orth_spec(p.0, p.1, n).contains(q));
                    let i = choose|i: int| 0 <= i < orth_spec(p.0, p.1, n).len() && orth_spec(p.0, p.1, n)[i] == q;
                    assert(q0[j] == p);
                }
            }
            let (y, x) = queue.pop_front().unwrap();
            proof {
                assert(q0.contains((y, x)));
            }
            match crate::regions::first_assigned_neighbor(grid, y, x) {
                Some(q) => {
                    let (ny, nx) = q;
                    proof {
                        assert(grid@[ny as int]@.len() == n);
                        assert(grid@[y as int]@.len() == n);
                    }
                    let l = grid[ny][nx];
                    let ghost g1 = grid@;
                    set_cell(grid, y, x, l);
                    proof {
                        lemma_rows_len(g1, nn);
                        lemma_un_count_set(rows_of(g1), y as int, x as int, l);
                        assert(rows_of(grid@) =~= rows_of(g1).update(y as int, rows_of(g1)[y as int].update(x as int, l)));
                        assert forall|rr: int| 0 <= rr < nn implies (#[trigger] grid@[rr])@.len() == nn by {
                            assert(rows_of(grid@)[rr] == grid@[rr]@);
                        }
                        assert forall|rr: int, cc: int| 0 <= rr < nn && 0 <= cc < nn implies #[trigger] label(grid@, rr, cc) == (if (rr,
                            cc) == (y as int, x as int) {
                            l
                        } else {
                            label(g1, rr, cc)
                        }) by {
                            assert(rows_of(grid@)[rr] == grid@[rr]@);
                        }
                        assert(growing(grid@, nn));
                        assert forall|x2: Pos| x2.0 < n && x2.1 < n implies #[trigger] label(grid@, x2.0 as int, x2.1 as int) == (if x2
                            == (y, x) {
                            l
                        } else {
                            label(g1, x2.0 as int, x2.1 as int)
                        }) by {
                            assert(label(grid@, x2.0 as int, x2.1 as int) == (if (x2.0 as int, x2.1 as int) == (y as int, x as int) {
                                l
                            } else {
                                label(g1, x2.0 as int, x2.1 as int)
                            }));
                        }
                        assert(crate::grid::orth_adj((y, x), q));
                        assert(crate::connect::touches_region(g1, (y, x), l));
                        assert(n < usize::MAX) by (nonlinear_arith)
                            requires
                                nn * nn < usize::MAX,
                                nn == n,
                        ;
                        crate::connect::lemma_assign_connected(g1, grid@, (y, x), l);
                        assert forall|ll: usize| ll < n && present(g0, ll) implies #[trigger] present(grid@, ll) by {
                            assert(present(g1, ll));
                            let (rr, cc) = choose|rr: int, cc: int| 0 <= rr < g1.len() && 0 <= cc < g1.len() && #[trigger] label(g1, rr, cc) == ll;
                            assert(label(grid@, rr, cc) == ll);
                        }
                        assert(present(grid@, 0)) by {
                            let (rr, cc) = choose|rr: int, cc: int| 0 <= rr < g1.len() && 0 <= cc < g1.len() && #[trigger] label(g1, rr, cc) == 0;
                            assert(label(grid@, rr, cc) == 0);
                        }
                        assert forall|p: Pos| queue@.contains(p) <==> (p.0 < n && p.1 < n && label(grid@, p.0 as int, p.1 as int)
                            == UNASSIGNED) by {
                            if queue@.contains(p) {
                                let j = choose|j: int| 0 <= j < queue@.len() && queue@[j] == p;
                                assert(q0[j + 1] == p);
                                assert(q0.contains(p));
                                assert(p != (y, x));
                            }
                            if p.0 < n && p.1 < n && label(grid@, p.0 as int, p.1 as int) == UNASSIGNED {
                                assert(p != (y, x));
                                assert(q0.contains(p));
                                let j = choose|j: int| 0 <= j < q0.len() && q0[j] == p;
                                assert(j != 0);
                                assert(queue@[j - 1] == p);
                            }
                        }
                        assert(queue@.no_duplicates()) by {
                            assert forall|a: int, b: int| 0 <= a < queue@.len() && 0 <= b < queue@.len() && a != b implies queue@[a]
                                != queue@[b] by {
                                assert(queue@[a] == q0[a + 1] && queue@[b] == q0[b + 1]);
                            }
                        }
                        f = 0;
                    }
                },
                None => {
                    queue.push_back((y, x));
                    proof {
                        let q1 = queue@;
                        assert(q1 =~= q0.subrange(1, q0.len() as int).push((y, x)));
                        assert forall|p: Pos| q1.contains(p) <==> q0.contains(p) by {
                            if q1.contains(p) {
                                let j = choose|j: int| 0 <= j < q1.len() && q1[j] == p;
                                if j < q1.len() - 1 {
                                    assert(q0[j + 1] == p);
                                } else {
                                    assert(q0[0] == p);
                                }
                            }
                            if q0.contains(p) {
                                let j = choose|j: int| 0 <= j < q0.len() && q0[j] == p;
                                if j == 0 {
                                    assert(q1[q1.len() - 1] == p);
                                } else {
                                    assert(q1[j - 1] == p);
                                }
                            }
                        }
                        assert(q1.no_duplicates()) by {
                            assert forall|a: int, b: int| 0 <= a < q1.len() && 0 <= b < q1.len() && a != b implies q1[a] != q1[b] by {
                                let a0 = if a == q1.len() - 1 { 0 } else { a + 1 };
                                let b0 = if b == q1.len() - 1 { 0 } else { b + 1 };
                                assert(q1[a] == q0[a0]);
                                assert(q1[b] == q0[b0]);
                            }
                        }
                        assert(f < q0.len());
                        assert forall|j: int|
                            q1.len() - (f + 1) <= j < q1.len() implies forall|i: int|
                            0 <= i < orth_spec((#[trigger] q1[j]).0, q1[j].1, n).len() ==> label(
                                grid@,
                                orth_spec(q1[j].0, q1[j].1, n)[i].0 as int,
                                orth_spec(q1[j].0, q1[j].1, n)[i].1 as int,
                            ) == UNASSIGNED by {
                            if j < q1.len() - 1 {
                                assert(q1[j] == q0[j + 1]);
                                assert(q0.len() - f <= j + 1 < q0.len());
                                let e = q0[j + 1];
                                assert(forall|i: int|
                                    0 <= i < orth_spec(e.0, e.1, n).len() ==> label(
                                        grid@,
                                        (#[trigger] orth_spec(e.0, e.1, n)[i]).0 as int,
                                        orth_spec(e.0, e.1, n)[i].1 as int,
                                    ) == UNASSIGNED);
                            } else {
                                assert(q1[j] == (y, x));
                                assert(grid@.len() as usize == n);
                            }
                        }
                        f = f + 1;
                    }
                },
            }
        }
        proof {
            assert forall|r: int, c: int| 0 <= r < nn && 0 <= c < nn implies #[trigger] label(grid@, r, c) != UNASSIGNED by {
                if label(grid@, r, c) == UNASSIGNED {
                    assert(queue@.contains((r as usize, c as usize)));
                }
            }
        }
    } else {
        proof {
            assert(un_count(rows_of(grid@)) == 0);
            assert forall|r: int, c: int| 0 <= r < nn && 0 <= c < nn implies #[trigger] label(grid@, r, c) != UNASSIGNED by {
                assert(rows_of(grid@)[r][c] == label(grid@, r, c));
            }
        }
    }
}

} // verus!
