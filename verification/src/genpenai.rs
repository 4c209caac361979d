//! Bullpen puzzle generator: "random regions + targeted repair".
//!
//! 1. Grow n random contiguous regions over the n x n board.
//! 2. Solve it. Random boards usually land near 1 solution already.
//! 3. If there are 2+ solutions, make one tiny region edit that kills one
//!    solution while preserving another (see `kill_solution`). Re-solve
//!    and repeat.
//! 4. If the board has 0 solutions, or repair gets stuck, reroll.

use vstd::prelude::*;

use crate::board::{is_solution_k, label, Grid, Pos};
use crate::connect::{frontier_adj, regions_connected};
use crate::double::{found_set, skipped, unique_solution};
use crate::grid::{anchors_of, contiguous_without, kill_solution, lemma_orth_spec, lemma_same_label, orth_adj};
use crate::matching::{has_perfect_matching, is_perfect_matching, perfect_matching, wide_table};
use crate::regions::{
    absorb_stranded, drop_seeds, fresh_grid, grow_free, labels_exact, lemma_labels_exact_board, lemma_relabel_exact,
    lemma_sum_zero, pick_caps, present,
};
use crate::solver::{BullpenSolver, MAX_SIDE};

pub use crate::rng::SplitMix;

verus! {

/// Give up repairing one board after this many edits and reroll.
const MAX_REPAIRS: usize = 50;

/// Per-solve work budget (recursion steps). Generously above what a
/// typical board needs, so only the pathological tail gets cut off and
/// discarded.
const SOLVE_BUDGET: usize = 50_000;

/// Smallest size cap for capped regions.
const CAP_MIN: usize = 1;

/// Largest size cap for capped regions. Tiny regions are strong
/// constraints: they cut the solver's branching factor and push boards
/// toward fewer solutions.
const CAP_MAX: usize = 3;

/// How many regions get a size cap (inclusive range).
pub fn num_capped(n: usize) -> (r: (usize, usize))
    ensures
        r == (n / 3, (n / 3 + 2) as usize),
{
    (n / 3, n / 3 + 2)
}

/// Generate an n x n bullpen (one bull per row, column and region).
/// It rerolls until a roll repairs down to exactly one solution; after
/// `u64::MAX - 1` failed rolls it gives up and returns an empty grid.
pub fn generate(n: usize, seed: u64) -> (g: Grid)
    requires
        n <= MAX_SIDE,
    ensures
        g@.len() == n || g@.len() == 0,
        g@.len() == n ==> labels_exact(g@, n as int) && regions_connected(g@) && unique_solution(g@, 1),
{
    let caps = num_capped(n);
    generate_capped(n, seed, caps)
}

/// A region of (r, c) that stays connected without it keeps another cell.
pub proof fn lemma_anchor_cell(g: Seq<Vec<usize>>, r: usize, c: usize)
    requires
        contiguous_without(g, r, c),
        r < g.len(),
        c < g.len(),
        g.len() <= usize::MAX,
    ensures
        exists|p: Pos|
            p.0 < g.len() && p.1 < g.len() && p != (r, c) && #[trigger] label(g, p.0 as int, p.1 as int) == label(
                g,
                r as int,
                c as int,
            ),
{
    let an = anchors_of(g, r, c);
    let n = g.len() as usize;
    lemma_same_label(g, label(g, r as int, c as int), crate::grid::orth_spec(r, c, n));
    lemma_orth_spec(r, c, n);
    let p = an[0];
    assert(crate::grid::orth_spec(r, c, n).contains(p));
    assert(orth_adj((r, c), p));
    assert(label(g, p.0 as int, p.1 as int) == label(g, r as int, c as int));
}

/// One roll: grow a fresh board, check it, and repair it; the board when it
/// ends up with exactly one solution.
pub fn roll(n: usize, rng: &mut SplitMix, caps: (usize, usize)) -> (r: Option<Grid>)
    requires
        n <= MAX_SIDE,
        caps.0 <= caps.1 < usize::MAX,
    ensures
        r matches Some(g) ==> labels_exact(g@, n as int) && unique_solution(g@, 1) && regions_connected(g@),
{
    proof {
        assert(n * n <= MAX_SIDE * MAX_SIDE) by (nonlinear_arith)
            requires
                n <= MAX_SIDE,
        ;
    }
    let mut grid = random_regions(n, rng, caps);
    // Cheap necessary condition before paying for a real solve.
    if !matchable(&grid) {
        return None;
    }
    let mut rep: usize = 0;
    while rep < MAX_REPAIRS
        invariant
            labels_exact(grid@, n as int),
            regions_connected(grid@),
            n <= MAX_SIDE,
            n * n <= MAX_SIDE * MAX_SIDE,
        decreases MAX_REPAIRS - rep,
    {
        proof {
            lemma_labels_exact_board(grid@, n as int);
        }
        let mut solver = BullpenSolver::new(&grid);
        let sols = match solver.solve_within(SOLVE_BUDGET) {
            Some(sols) => sols,
            None => {
                return None;
            },  // proof too expensive — discard the board
        };
        if sols.len() == 0 {
            return None;  // dead board (only possible on a fresh roll)
        }
        if sols.len() == 1 {
            proof {
                let g = grid@;
                let a = sols@[0]@;
                assert(is_solution_k(g, a, 1));
                assert forall|t: Seq<Pos>| #[trigger] is_solution_k(g, t, 1) implies t.to_set() == a.to_set() by {
                    assert(!skipped(None, t));
                    assert(found_set(sols@, 0, t));
                }
                assert(unique_solution(g, 1));
            }
            return Some(grid);
        }
        // 2 solutions: edit the grid to kill one and keep the other.
        // If neither of sols[1]'s differing bulls is movable, try the
        // symmetric edit (kill sols[0], keep sols[1]).
        let ghost g0 = grid@;
        proof {
            assert(is_solution_k(grid@, sols@[0]@, 1));
            assert(is_solution_k(grid@, sols@[1]@, 1));
            assert forall|r: int| 0 <= r < grid@.len() implies (#[trigger] grid@[r])@.len() == grid@.len() by {}
        }
        let ok1 = kill_solution(&mut grid, sols[0].as_slice(), sols[1].as_slice(), rng);
        let mut ok = ok1;
        if !ok1 {
            ok = kill_solution(&mut grid, sols[1].as_slice(), sols[0].as_slice(), rng);
        }
        if !ok {
            return None;  // no legal edit in either direction, reroll
        }
        proof {
            let g1 = grid@;
            let (p, q) = choose|p: Pos, q: Pos|
                {
                    &&& contiguous_without(g0, p.0, p.1)
                    &&& p.0 < g0.len() && p.1 < g0.len()
                    &&& q.0 < g0.len() && q.1 < g0.len()
                    &&& crate::grid::rows_of(g1) == crate::grid::set_label(g0, p, label(g0, q.0 as int, q.1 as int))
                };
            lemma_anchor_cell(g0, p.0, p.1);
            let other = choose|o: Pos|
                o.0 < g0.len() && o.1 < g0.len() && o != (p.0, p.1) && #[trigger] label(g0, o.0 as int, o.1 as int) == label(
                    g0,
                    p.0 as int,
                    p.1 as int,
                );
            lemma_relabel_exact(g0, g1, n as int, p, other, q);
        }
        rep = rep + 1;
    }
    None
}

/// Generate with a given range of capped regions; rerolls a fresh board
/// whenever repair gets stuck.
fn generate_capped(n: usize, seed: u64, caps: (usize, usize)) -> (g: Grid)
    requires
        n <= MAX_SIDE,
        caps.0 <= caps.1 < usize::MAX,
    ensures
        g@.len() == n || g@.len() == 0,
        g@.len() == n ==> labels_exact(g@, n as int) && regions_connected(g@) && unique_solution(g@, 1),
{
    let mut rng = SplitMix::new(seed);
    proof {
        assert(n * n <= MAX_SIDE * MAX_SIDE) by (nonlinear_arith)
            requires
                n <= MAX_SIDE,
        ;
    }
    let mut tries: u64 = 0;
    // Outer loop: reroll from scratch when a board is hopeless.
    loop
        invariant
            n <= MAX_SIDE,
            n * n <= MAX_SIDE * MAX_SIDE,
            caps.0 <= caps.1 < usize::MAX,
            tries < u64::MAX,
        decreases u64::MAX - tries,
    {
        if tries == u64::MAX - 1 {
            // practically unreachable: stop rerolling, with no board
            proof {
                crate::double::lemma_empty_unique(1);
            }
            return Vec::new();
        }
        tries = tries + 1;
        match roll(n, &mut rng, caps) {
            Some(grid) => {
                return grid;
            },
            None => {},
        }
    }
}

/// Grow n contiguous regions from n random seed cells until the board
/// is covered.
///
/// The frontier of growth moves is maintained incrementally: claiming a
/// cell pushes a move for each unassigned neighbor; moves whose cell got
/// claimed in the meantime are stale and skipped when drawn.
pub fn random_regions(n: usize, rng: &mut SplitMix, caps: (usize, usize)) -> (g: Grid)
    requires
        n * n < usize::MAX,
        caps.0 <= caps.1 < usize::MAX,
    ensures
        labels_exact(g@, n as int),
        regions_connected(g@),
{
    let mut grid = fresh_grid(n);
    let mut frontier: Vec<(Pos, usize)> = Vec::new();
    let mut sizes: Vec<usize> = vec![0usize; n];
    proof {
        lemma_sum_zero(sizes@);
        assert(frontier_adj(frontier@, grid@));
    }
    // Pick which regions are capped, and at what size.
    let max_size = pick_caps(n, rng, caps, (CAP_MIN, CAP_MAX));
    drop_seeds(&mut grid, &mut frontier, &mut sizes, rng);
    let ghost g1 = grid@;
    grow_free(&mut grid, &mut frontier, &mut sizes, &max_size, rng);
    proof {
        if n > 0 {
            assert(present(g1, 0));
        }
    }
    let ghost g2 = grid@;
    absorb_stranded(&mut grid, &sizes);
    proof {
        assert forall|l: usize| l < n implies #[trigger] present(grid@, l) by {
            assert(present(g1, l));
            assert(present(g2, l));
        }
        assert forall|r: int, c: int| 0 <= r < n && 0 <= c < n implies #[trigger] label(grid@, r, c) < n by {
            assert(label(grid@, r, c) != crate::regions::UNASSIGNED);
        }
    }
    grid
}

/// Region `a` has a cell in row `x` (by rows) or in column `x`.
pub open spec fn meets(g: Seq<Vec<usize>>, a: int, x: int, by_row: bool) -> bool {
    exists|y: int|
        0 <= y < g.len() && (if by_row {
            label(g, x, y)
        } else {
            label(g, y, x)
        }) == a
}

/// Regions can be matched one-to-one with rows (or columns) they meet.
pub open spec fn lines_matchable(g: Seq<Vec<usize>>, by_row: bool) -> bool {
    exists|f: Seq<usize>|
        {
            &&& f.len() == g.len()
            &&& forall|a: int| 0 <= a < f.len() ==> (#[trigger] f[a]) < g.len() && meets(g, a, f[a] as int, by_row)
            &&& forall|a: int, b: int| 0 <= a < f.len() && 0 <= b < f.len() && a != b ==> f[a] != f[b]
        }
}

/// The region-by-line table of `g`.
fn line_table(grid: &Grid, by_row: bool) -> (t: Vec<Vec<bool>>)
    requires
        crate::board::is_square(grid@),
        forall|r: int, c: int| 0 <= r < grid@.len() && 0 <= c < grid@.len() ==> #[trigger] label(grid@, r, c) < grid@.len(),
        grid@.len() * grid@.len() < usize::MAX,
    ensures
        t@.len() == grid@.len(),
        wide_table(t@),
        forall|a: int, x: int| 0 <= a < grid@.len() && 0 <= x < grid@.len() ==> (#[trigger] t@[a]@[x] <==> meets(grid@, a, x, by_row)),
{
    let n = grid.len();
    let mut t: Vec<Vec<bool>> = Vec::with_capacity(n);
    let mut i: usize = 0;
    while i < n
        invariant
            0 <= i <= n,
            t@.len() == i,
            forall|a: int| 0 <= a < i ==> (#[trigger] t@[a])@.len() == n && forall|x: int| 0 <= x < n ==> !t@[a]@[x],
        decreases n - i,
    {
        t.push(vec![false; n]);
        i = i + 1;
    }
    let mut r: usize = 0;
    while r < n
        invariant
            0 <= r <= n,
            n == grid@.len(),
            crate::board::is_square(grid@),
                forall|rr: int, cc: int| 0 <= rr < n && 0 <= cc < n ==> #[trigger] label(grid@, rr, cc) < n,
            t@.len() == n,
            forall|a: int| 0 <= a < n ==> (#[trigger] t@[a])@.len() == n,
            forall|a: int, x: int|
                0 <= a < n && 0 <= x < n ==> (#[trigger] t@[a]@[x] <==> exists|y: int|
                    0 <= y < n && (if by_row { 0 <= x < r } else { 0 <= y < r }) && (if by_row {
                        label(grid@, x, y)
                    } else {
                        label(grid@, y, x)
                    }) == a),
        decreases n - r,
    {
        let mut c: usize = 0;
        while c < n
            invariant
                0 <= c <= n,
                0 <= r < n,
                n == grid@.len(),
                crate::board::is_square(grid@),
                forall|rr: int, cc: int| 0 <= rr < n && 0 <= cc < n ==> #[trigger] label(grid@, rr, cc) < n,
                t@.len() == n,
                forall|a: int| 0 <= a < n ==> (#[trigger] t@[a])@.len() == n,
                forall|a: int, x: int|
                    0 <= a < n && 0 <= x < n ==> (#[trigger] t@[a]@[x] <==> exists|y: int|
                        0 <= y < n && ((if by_row { 0 <= x < r } else { 0 <= y < r }) || (if by_row {
                            x == r && y < c
                        } else {
                            y == r && x < c
                        })) && (if by_row {
                            label(grid@, x, y)
                        } else {
                            label(grid@, y, x)
                        }) == a),
            decreases n - c,
        {
            proof {
                assert(grid@[r as int]@.len() == n);
                assert(label(grid@, r as int, c as int) < n);
            }
            let a = grid[r][c];
            let x = if by_row { r } else { c };
            let ghost t0 = t@;
            let mut row = t[a].clone();
            proof {
                assert(row@ =~= t0[a as int]@);
            }
            row.set(x, true);
            t.set(a, row);
            proof {
                assert forall|aa: int, xx: int| 0 <= aa < n && 0 <= xx < n implies (#[trigger] t@[aa]@[xx] <==> exists|y: int|
                    0 <= y < n && ((if by_row { 0 <= xx < r } else { 0 <= y < r }) || (if by_row {
                        xx == r && y < c + 1
                    } else {
                        y == r && xx < c + 1
                    })) && (if by_row {
                        label(grid@, xx, y)
                    } else {
                        label(grid@, y, xx)
                    }) == aa) by {
                    if aa == a && xx == x {
                        let y = if by_row { c as int } else { r as int };
                        assert(t@[aa]@[xx]);
                        assert((if by_row { label(grid@, xx, y) } else { label(grid@, y, xx) }) == aa);
                    } else {
                        assert(t@[aa]@[xx] == t0[aa]@[xx]);
                        if exists|y: int|
                            0 <= y < n && ((if by_row { 0 <= xx < r } else { 0 <= y < r }) || (if by_row {
                                xx == r && y < c + 1
                            } else {
                                y == r && xx < c + 1
                            })) && (if by_row {
                                label(grid@, xx, y)
                            } else {
                                label(grid@, y, xx)
                            }) == aa {
                            let y = choose|y: int|
                                0 <= y < n && ((if by_row { 0 <= xx < r } else { 0 <= y < r }) || (if by_row {
                                    xx == r && y < c + 1
                                } else {
                                    y == r && xx < c + 1
                                })) && (if by_row {
                                    label(grid@, xx, y)
                                } else {
                                    label(grid@, y, xx)
                                }) == aa;
                            if by_row {
                                if xx == r && y == c {
                                    assert(label(grid@, r as int, c as int) == a);
                                }
                            } else {
                                if y == r && xx == c {
                                    assert(label(grid@, r as int, c as int) == a);
                                }
                            }
                        }
                    }
                }
            }
            c = c + 1;
        }
        r = r + 1;
    }
    proof {
        assert forall|a: int, x: int| 0 <= a < n && 0 <= x < n implies (#[trigger] t@[a]@[x] <==> meets(grid@, a, x, by_row)) by {
        }
    }
    t
}

/// Cheap necessary condition for solvability: in any solution the n
/// bulls occupy n distinct rows, and each region holds exactly one
/// bull — so regions must be matchable one-to-one with rows they
/// touch, and likewise with columns.
pub fn matchable(grid: &Grid) -> (r: bool)
    requires
        crate::board::is_square(grid@),
        forall|r: int, c: int| 0 <= r < grid@.len() && 0 <= c < grid@.len() ==> #[trigger] label(grid@, r, c) < grid@.len(),
        grid@.len() * grid@.len() < usize::MAX,
    ensures
        r == (lines_matchable(grid@, true) && lines_matchable(grid@, false)),
{
    proof {
        let n = grid@.len();
        assert(n < usize::MAX) by (nonlinear_arith)
            requires
                n * n < usize::MAX,
        ;
    }
    let rows = line_table(grid, true);
    let cols = line_table(grid, false);
    proof {
        lemma_table_matchable(grid@, rows@, true);
        lemma_table_matchable(grid@, cols@, false);
    }
    let a = perfect_matching(&rows);
    if !a {
        return false;
    }
    let b = perfect_matching(&cols);
    proof {
        if b {
            let f = choose|f: Seq<usize>| #[trigger] is_perfect_matching(rows@, f);
            assert(forall|x: int| 0 <= x < f.len() ==> #[trigger] f[x] < grid@.len() && meets(grid@, x, f[x] as int, true));
            let f2 = choose|f: Seq<usize>| #[trigger] is_perfect_matching(cols@, f);
            assert(forall|x: int| 0 <= x < f2.len() ==> #[trigger] f2[x] < grid@.len() && meets(grid@, x, f2[x] as int, false));
        }
    }
    b
}

/// A perfect matching of the region-by-line table is a matching of
/// regions with lines they meet, and back.
proof fn lemma_table_matchable(g: Seq<Vec<usize>>, t: Seq<Vec<bool>>, by_row: bool)
    requires
        t.len() == g.len(),
        wide_table(t),
        forall|a: int, x: int| 0 <= a < g.len() && 0 <= x < g.len() ==> (#[trigger] t[a]@[x] <==> meets(g, a, x, by_row)),
    ensures
        has_perfect_matching(t) == lines_matchable(g, by_row),
{
    if lines_matchable(g, by_row) {
        let f = choose|f: Seq<usize>|
            {
                &&& f.len() == g.len()
                &&& forall|a: int| 0 <= a < f.len() ==> (#[trigger] f[a]) < g.len() && meets(g, a, f[a] as int, by_row)
                &&& forall|a: int, b: int| 0 <= a < f.len() && 0 <= b < f.len() && a != b ==> f[a] != f[b]
            };
        assert(is_perfect_matching(t, f));
    }
    if has_perfect_matching(t) {
        let f = choose|f: Seq<usize>| #[trigger] is_perfect_matching(t, f);
        assert(forall|a: int| 0 <= a < f.len() ==> (#[trigger] f[a]) < g.len() && meets(g, a, f[a] as int, by_row));
    }
}

/// The bull of region `a` in solution `s`.
pub open spec fn bull_of(g: Seq<Vec<usize>>, s: Seq<Pos>, a: int) -> int {
    choose|k: int| 0 <= k < s.len() && label(g, s[k].0 as int, s[k].1 as int) == a
}

/// A solvable board passes the matching test: sending each region to the
/// row (column) of its bull matches regions with rows (columns) one to one.
pub proof fn lemma_solvable_matchable(g: Seq<Vec<usize>>, s: Seq<Pos>)
    requires
        labels_exact(g, g.len() as int),
        g.len() < usize::MAX,
        is_solution_k(g, s, 1),
    ensures
        lines_matchable(g, true),
        lines_matchable(g, false),
{
    let n = g.len() as int;
    assert forall|a: int| 0 <= a < n implies {
        let k = #[trigger] bull_of(g, s, a);
        0 <= k < s.len() && label(g, s[k].0 as int, s[k].1 as int) == a
    } by {
        assert(a as usize as int == a);
        assert(present(g, a as usize));
        let (r, c) = choose|r: int, c: int| 0 <= r < g.len() && 0 <= c < g.len() && #[trigger] label(g, r, c) == a as usize;
        assert(crate::board::label_set(g).contains(a as usize));
        let f = |q: Pos| label(g, q.0 as int, q.1 as int) == a as usize;
        assert(crate::board::count_label(g, s, a as usize) == 1);
        crate::board::lemma_count_witness(s, f);
    }
    let fr = Seq::new(n as nat, |a: int| s[bull_of(g, s, a)].0);
    let fc = Seq::new(n as nat, |a: int| s[bull_of(g, s, a)].1);
    assert forall|a: int| 0 <= a < fr.len() implies (#[trigger] fr[a]) < g.len() && meets(g, a, fr[a] as int, true) by {
        let k = bull_of(g, s, a);
        assert(label(g, fr[a] as int, s[k].1 as int) == a);
    }
    assert forall|a: int, b: int| 0 <= a < fr.len() && 0 <= b < fr.len() && a != b implies fr[a] != fr[b] by {
        let ka = bull_of(g, s, a);
        let kb = bull_of(g, s, b);
        if fr[a] == fr[b] {
            let r = fr[a] as int;
            assert(crate::board::in_row(r)(s[ka]));
            assert(crate::board::in_row(r)(s[kb]));
            crate::board::lemma_count_two(s, crate::board::in_row(r), ka, kb);
            assert(crate::board::count_row(s, r) == 1);
        }
    }
    assert forall|a: int| 0 <= a < fc.len() implies (#[trigger] fc[a]) < g.len() && meets(g, a, fc[a] as int, false) by {
        let k = bull_of(g, s, a);
        assert(label(g, s[k].0 as int, fc[a] as int) == a);
    }
    assert forall|a: int, b: int| 0 <= a < fc.len() && 0 <= b < fc.len() && a != b implies fc[a] != fc[b] by {
        let ka = bull_of(g, s, a);
        let kb = bull_of(g, s, b);
        if fc[a] == fc[b] {
            let c = fc[a] as int;
            assert(crate::board::in_col(c)(s[ka]));
            assert(crate::board::in_col(c)(s[kb]));
            crate::board::lemma_count_two(s, crate::board::in_col(c), ka, kb);
            assert(crate::board::count_col_of(s, c) == 1);
        }
    }
    assert(fr.len() == g.len());
    assert(fc.len() == g.len());
}

} // verus!
