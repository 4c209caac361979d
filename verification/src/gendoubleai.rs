//! Double bullpen (two bulls per row, column and region) generator:
//! random regions plus targeted repair, with the Algorithm M solver of
//! `double` as the uniqueness check.
//!
//! Before paying for a solve, two cheap necessary conditions reject
//! hopeless boards: every region must fit `K` mutually non-touching bulls
//! (`regions_feasible`), and the regions must be able to route `K` bulls
//! to every row and every column (`matchable`, a flow problem).

use vstd::prelude::*;

use crate::board::{
    at_cell, bulls_tab, label, lemma_bulls_by_line, lemma_bulls_by_region, line_is, line_of, pos_in_line, reg_line,
    region_is, touching, Grid, Pos,
};
use crate::regions::{
    absorb_stranded, drop_seeds, fresh_grid, grow_free, grow_min, labels_exact, lemma_sum_zero, pick_caps, present,
};
use crate::connect::{frontier_adj, regions_connected};
use crate::grid::kill_solution;
use crate::solver::{cell_of, lemma_cell_of, MAX_SIDE};

use crate::transport::{
    col_fn, lemma_sum_of_to, lemma_sum_to_add, lemma_sum_to_const, lemma_sum_to_ext, lemma_sum_to_le, lemma_sum_to_split,
    lemma_sum_to_single, lemma_sum_to_swap, row_fn, sum_to, is_transport, table_fn, transport_exists,
};

pub use crate::double::DoubleSolver;
pub use crate::rng::SplitMix;

verus! {

/// Bulls per row, column and region.
pub const K: usize = 2;

/// Give up repairing one board after this many edits and reroll.
const MAX_REPAIRS: usize = 50;

/// Per-solve work budget (committed bull placements). Boards whose
/// uniqueness or unsolvability proof is expensive get discarded.
const SOLVE_BUDGET: usize = 25_000;

/// Smallest size cap for capped regions: a region must hold 2 non-touching
/// bulls, impossible below 3 cells.
const CAP_MIN: usize = 3;

/// Largest size cap for capped regions.
const CAP_MAX: usize = 9;

/// Growth brings every region to this size before free growth starts.
const MIN_REGION: usize = 3;

/// How many regions get a size cap (inclusive range): about two thirds.
pub fn num_capped(n: usize) -> (r: (usize, usize))
    ensures
        r.0 == (if n >= 5 { n - 5 } else { 0 }),
        r.1 == (if n >= 3 { n - 3 } else { 0 }),
{
    (n.saturating_sub(5), n.saturating_sub(3))
}

// ------------------------------------------------------------ spreads

/// `sel` picks strictly increasing positions in `from..len`.
pub open spec fn picks(len: int, from: int, sel: Seq<int>) -> bool {
    &&& forall|a: int| 0 <= a < sel.len() ==> from <= #[trigger] sel[a] < len
    &&& forall|a: int, b: int| 0 <= a < b < sel.len() ==> #[trigger] sel[a] < #[trigger] sel[b]
}

/// No two of the cells touch.
pub open spec fn apart(ps: Seq<Pos>) -> bool {
    forall|a: int, b: int| 0 <= a < b < ps.len() ==> !touching(#[trigger] ps[a], #[trigger] ps[b])
}

/// The cells at positions `sel` of `cells`.
pub open spec fn picked(cells: Seq<Pos>, sel: Seq<int>) -> Seq<Pos> {
    sel.map_values(|i: int| cells[i])
}

/// `sel` picks `k` cells of `cells` from position `from` on that touch
/// neither each other nor any cell of `chosen`.
pub open spec fn spread_witness(cells: Seq<Pos>, from: int, k: int, chosen: Seq<Pos>, sel: Seq<int>) -> bool {
    &&& sel.len() == k
    &&& picks(cells.len() as int, from, sel)
    &&& apart(chosen + picked(cells, sel))
}

/// Whether two cells touch.
fn touches(a: Pos, b: Pos) -> (r: bool)
    ensures
        r == touching(a, b),
{
    let dr = if a.0 >= b.0 { a.0 - b.0 } else { b.0 - a.0 };
    let dc = if a.1 >= b.1 { a.1 - b.1 } else { b.1 - a.1 };
    dr <= 1 && dc <= 1
}

/// Whether `p` touches no cell of `chosen`.
fn clear_of(chosen: &Vec<Pos>, p: Pos) -> (r: bool)
    ensures
        r == forall|j: int| 0 <= j < chosen@.len() ==> !touching(#[trigger] chosen@[j], p),
{
    let mut j: usize = 0;
    while j < chosen.len()
        invariant
            0 <= j <= chosen@.len(),
            forall|jj: int| 0 <= jj < j ==> !touching(#[trigger] chosen@[jj], p),
        decreases chosen@.len() - j,
    {
        if touches(chosen[j], p) {
            return false;
        }
        j = j + 1;
    }
    true
}

/// Can `k` more cells from `cells[from..]` join `chosen` with no two
/// touching? Depth-first over the cells in order.
fn spread_exists(cells: &Vec<Pos>, from: usize, k: usize, chosen: &mut Vec<Pos>) -> (r: bool)
    requires
        from <= cells@.len(),
        apart(old(chosen)@),
    ensures
        final(chosen)@ == old(chosen)@,
        r == exists|sel: Seq<int>| spread_witness(cells@, from as int, k as int, old(chosen)@, sel),
    decreases k,
{
    let ghost c0 = chosen@;
    if k == 0 {
        proof {
            let sel = Seq::<int>::empty();
            assert(c0 + picked(cells@, sel) =~= c0);
            assert(spread_witness(cells@, from as int, 0, c0, sel));
        }
        return true;
    }
    let mut i = from;
    while i < cells.len()
        invariant
            from <= i <= cells@.len(),
            chosen@ == c0,
            c0 == old(chosen)@,
            apart(c0),
            k > 0,
            forall|sel: Seq<int>| #[trigger] spread_witness(cells@, from as int, k as int, c0, sel) ==> sel[0] >= i,
        decreases cells@.len() - i,
    {
        let p = cells[i];
        if clear_of(chosen, p) {
            chosen.push(p);
            proof {
                let c1 = chosen@;
                assert forall|a: int, b: int| 0 <= a < b < c1.len() implies !touching(#[trigger] c1[a], #[trigger] c1[b]) by {
                    if b == c0.len() {
                        assert(c1[a] == c0[a]);
                    } else {
                        assert(c1[a] == c0[a] && c1[b] == c0[b]);
                    }
                }
            }
            let found = spread_exists(cells, i + 1, k - 1, chosen);
            let ghost c1 = chosen@;
            chosen.pop();
            proof {
                assert(chosen@ =~= c0);
            }
            if found {
                proof {
                    let i1 = (i + 1) as int;
                    let k1 = (k - 1) as int;
                    let s1 = choose|s1: Seq<int>| #[trigger] spread_witness(cells@, i1, k1, c1, s1);
                    let sel = seq![i as int] + s1;
                    assert(picked(cells@, sel) =~= seq![p] + picked(cells@, s1));
                    assert(c0 + picked(cells@, sel) =~= c1 + picked(cells@, s1));
                    assert(spread_witness(cells@, from as int, k as int, c0, sel));
                }
                return true;
            }
            proof {
                assert forall|sel: Seq<int>| #[trigger] spread_witness(cells@, from as int, k as int, c0, sel) implies sel[0]
                    >= i + 1 by {
                    if sel[0] == i {
                        let s1 = sel.drop_first();
                        assert(picked(cells@, sel) =~= seq![p] + picked(cells@, s1));
                        assert(c0 + picked(cells@, sel) =~= c1 + picked(cells@, s1));
                        assert forall|a: int| 0 <= a < s1.len() implies i + 1 <= #[trigger] s1[a] < cells@.len() by {
                            assert(s1[a] == sel[a + 1]);
                            assert(sel[0] < sel[a + 1]);
                        }
                        assert forall|a: int, b: int| 0 <= a < b < s1.len() implies #[trigger] s1[a] < #[trigger] s1[b] by {
                            assert(s1[a] == sel[a + 1] && s1[b] == sel[b + 1]);
                        }
                        assert(spread_witness(cells@, i + 1, k - 1, c1, s1));
                    }
                }
            }
        } else {
            proof {
                assert forall|sel: Seq<int>| #[trigger] spread_witness(cells@, from as int, k as int, c0, sel) implies sel[0]
                    >= i + 1 by {
                    if sel[0] == i {
                        let jj = choose|jj: int| 0 <= jj < c0.len() && touching(#[trigger] c0[jj], p);
                        let all = c0 + picked(cells@, sel);
                        assert(all[jj] == c0[jj]);
                        assert(all[c0.len() as int] == p);
                    }
                }
            }
        }
        i = i + 1;
    }
    proof {
        assert forall|sel: Seq<int>| !#[trigger] spread_witness(cells@, from as int, k as int, c0, sel) by {
            if spread_witness(cells@, from as int, k as int, c0, sel) {
                assert(sel[0] < cells@.len());
            }
        }
    }
    false
}

/// The cells labelled `l` among the first `cnt` cells of the n x n board
/// `g`, in row-major order.
pub open spec fn cells_upto(g: Seq<Vec<usize>>, l: usize, cnt: int) -> Seq<Pos>
    decreases cnt,
{
    if cnt <= 0 {
        Seq::empty()
    } else {
        let p = cell_of(g.len() as int, cnt - 1);
        cells_upto(g, l, cnt - 1) + if label(g, p.0 as int, p.1 as int) == l {
            seq![p]
        } else {
            Seq::empty()
        }
    }
}

/// The cells of region `l`, in row-major order.
pub open spec fn region_cells(g: Seq<Vec<usize>>, l: usize) -> Seq<Pos> {
    cells_upto(g, l, (g.len() * g.len()) as int)
}

/// Region `l` can host `k` mutually non-touching bulls.
pub open spec fn region_spreads(g: Seq<Vec<usize>>, l: usize, k: int) -> bool {
    exists|sel: Seq<int>| spread_witness(region_cells(g, l), 0, k, Seq::empty(), sel)
}

/// Every region can host `k` mutually non-touching bulls.
pub open spec fn all_spread(g: Seq<Vec<usize>>, k: int) -> bool {
    forall|l: usize| l < g.len() ==> #[trigger] region_spreads(g, l, k)
}

/// Every region must be able to host `k` mutually non-touching bulls.
/// Size alone is not enough: an L-tromino has 3 cells but every pair
/// touches.
pub fn regions_feasible(grid: &Grid, k: usize) -> (r: bool)
    requires
        crate::board::is_square(grid@),
        grid@.len() <= MAX_SIDE,
        forall|rr: int, cc: int| 0 <= rr < grid@.len() && 0 <= cc < grid@.len() ==> #[trigger] label(grid@, rr, cc) < grid@.len(),
    ensures
        r == all_spread(grid@, k as int),
{
    let n = grid.len();
    let ghost g = grid@;
    let mut cells: Vec<Vec<Pos>> = Vec::with_capacity(n);
    let mut l: usize = 0;
    while l < n
        invariant
            0 <= l <= n,
            cells@.len() == l,
            forall|x: int| 0 <= x < l ==> (#[trigger] cells@[x])@ == cells_upto(g, x as usize, 0),
        decreases n - l,
    {
        cells.push(Vec::new());
        proof {
            assert(cells@[l as int]@ =~= cells_upto(g, l, 0));
        }
        l = l + 1;
    }
    let mut r: usize = 0;
    while r < n
        invariant
            n == g.len(),
            g == grid@,
            n <= MAX_SIDE,
            crate::board::is_square(g),
            forall|rr: int, cc: int| 0 <= rr < n && 0 <= cc < n ==> #[trigger] label(g, rr, cc) < n,
            0 <= r <= n,
            cells@.len() == n,
            forall|x: int| 0 <= x < n ==> (#[trigger] cells@[x])@ == cells_upto(g, x as usize, r * n),
        decreases n - r,
    {
        let mut c: usize = 0;
        while c < n
            invariant
                n == g.len(),
                g == grid@,
                n <= MAX_SIDE,
                crate::board::is_square(g),
                forall|rr: int, cc: int| 0 <= rr < n && 0 <= cc < n ==> #[trigger] label(g, rr, cc) < n,
                0 <= r < n,
                0 <= c <= n,
                cells@.len() == n,
                forall|x: int| 0 <= x < n ==> (#[trigger] cells@[x])@ == cells_upto(g, x as usize, r * n + c),
            decreases n - c,
        {
            proof {
                assert(g[r as int]@.len() == n);
            }
            let reg = grid[r][c];
            proof {
                assert(label(g, r as int, c as int) == reg);
                lemma_cell_of(n as int, r as int, c as int);
            }
            let ghost before = cells@;
            let mut list = crate::solver::copy_positions(&cells[reg]);
            list.push((r, c));
            cells.set(reg, list);
            proof {
                let cnt = r * n + c + 1;
                assert(cell_of(n as int, cnt - 1) == (r, c));
                assert forall|x: int| 0 <= x < n implies (#[trigger] cells@[x])@ == cells_upto(g, x as usize, cnt) by {
                    if x != reg {
                        assert(cells@[x] == before[x]);
                    }
                }
            }
            c = c + 1;
        }
        proof {
            assert(r * n + n == (r + 1) * n) by (nonlinear_arith);
        }
        r = r + 1;
    }
    let mut l: usize = 0;
    while l < n
        invariant
            n == g.len(),
            g == grid@,
            0 <= l <= n,
            r == n,
            cells@.len() == n,
            forall|x: int| 0 <= x < n ==> (#[trigger] cells@[x])@ == region_cells(g, x as usize),
            forall|x: usize| x < l ==> #[trigger] region_spreads(g, x, k as int),
        decreases n - l,
    {
        let mut chosen: Vec<Pos> = Vec::new();
        let ok = spread_exists(&cells[l], 0, k, &mut chosen);
        proof {
            assert(chosen@ =~= Seq::<Pos>::empty());
        }
        if !ok {
            proof {
                assert(cells@[l as int]@ == region_cells(g, l));
                assert(!region_spreads(g, l, k as int));
            }
            return false;
        }
        proof {
            assert(cells@[l as int]@ == region_cells(g, l));
        }
        l = l + 1;
    }
    true
}

} // verus!

verus! {

/// Write `x` at row `u`, column `w` of a table.
fn set2(m: &mut Vec<Vec<usize>>, u: usize, w: usize, x: usize)
    requires
        u < old(m)@.len(),
        w < old(m)@[u as int]@.len(),
    ensures
        final(m)@.len() == old(m)@.len(),
        forall|i: int| 0 <= i < old(m)@.len() && i != u ==> #[trigger] final(m)@[i] == old(m)@[i],
        final(m)@[u as int]@ == old(m)@[u as int]@.update(w as int, x),
{
    m[u].set(w, x);
}

/// The cells of region `l` among the first `m` cells are in range, labelled
/// `l`, in strictly increasing row-major order, and include every such cell.
pub proof fn lemma_cells_upto(g: Seq<Vec<usize>>, l: usize, m: int)
    requires
        0 < g.len() <= MAX_SIDE,
        crate::board::is_square(g),
        0 <= m <= g.len() * g.len(),
    ensures
        ({
            let n = g.len() as int;
            let cs = cells_upto(g, l, m);
            &&& cs.len() <= m
            &&& forall|i: int|
                0 <= i < cs.len() ==> {
                    &&& (#[trigger] cs[i]).0 < n
                    &&& cs[i].1 < n
                    &&& label(g, cs[i].0 as int, cs[i].1 as int) == l
                    &&& 0 <= crate::double_count::opt_of(n, cs[i]) < m
                }
            &&& forall|i: int, j: int|
                0 <= i < j < cs.len() ==> crate::double_count::opt_of(n, #[trigger] cs[i]) < crate::double_count::opt_of(
                    n,
                    #[trigger] cs[j],
                )
            &&& forall|q: int| 0 <= q < m && label(g, cell_of(n, q).0 as int, cell_of(n, q).1 as int) == l ==> cs.contains(#[trigger] cell_of(n, q))
        }),
    decreases m,
{
    let n = g.len() as int;
    if m > 0 {
        lemma_cells_upto(g, l, m - 1);
        let p = cell_of(n, m - 1);
        crate::double_count::lemma_of_opt(n, m - 1);
        let prev = cells_upto(g, l, m - 1);
        let cs = cells_upto(g, l, m);
        assert forall|i: int| 0 <= i < cs.len() implies {
            &&& (#[trigger] cs[i]).0 < n
            &&& cs[i].1 < n
            &&& label(g, cs[i].0 as int, cs[i].1 as int) == l
            &&& 0 <= crate::double_count::opt_of(n, cs[i]) < m
        } by {
            if i < prev.len() {
                assert(cs[i] == prev[i]);
            }
        }
        assert forall|i: int, j: int| 0 <= i < j < cs.len() implies crate::double_count::opt_of(n, #[trigger] cs[i])
            < crate::double_count::opt_of(n, #[trigger] cs[j]) by {
            assert(cs[i] == prev[i]);
            if j < prev.len() {
                assert(cs[j] == prev[j]);
            }
        }
        assert forall|q: int| 0 <= q < m && label(g, cell_of(n, q).0 as int, cell_of(n, q).1 as int) == l implies cs.contains(
            #[trigger] cell_of(n, q),
        ) by {
            if q < m - 1 {
                assert(prev.contains(cell_of(n, q)));
                let i = choose|i: int| 0 <= i < prev.len() && prev[i] == cell_of(n, q);
                assert(cs[i] == prev[i]);
            } else {
                assert(cs[prev.len() as int] == p);
            }
        }
    }
}

/// Positions `i < m` of `cells` whose cell is a bull of `s`, in order.
pub open spec fn bull_positions(cells: Seq<Pos>, s: Seq<Pos>, m: int) -> Seq<int>
    decreases m,
{
    if m <= 0 {
        Seq::empty()
    } else {
        bull_positions(cells, s, m - 1) + if s.contains(cells[m - 1]) {
            seq![m - 1]
        } else {
            Seq::empty()
        }
    }
}

/// The bull positions are increasing, below `m`, and exactly those whose
/// cell is a bull.
pub proof fn lemma_bull_positions(cells: Seq<Pos>, s: Seq<Pos>, m: int)
    requires
        0 <= m <= cells.len(),
    ensures
        forall|a: int| 0 <= a < bull_positions(cells, s, m).len() ==> 0 <= #[trigger] bull_positions(cells, s, m)[a] < m
            && s.contains(cells[bull_positions(cells, s, m)[a]]),
        forall|a: int, b: int|
            0 <= a < b < bull_positions(cells, s, m).len() ==> #[trigger] bull_positions(cells, s, m)[a]
                < #[trigger] bull_positions(cells, s, m)[b],
        forall|i: int| 0 <= i < m && s.contains(cells[i]) ==> #[trigger] bull_positions(cells, s, m).contains(i),
    decreases m,
{
    if m > 0 {
        lemma_bull_positions(cells, s, m - 1);
        let prev = bull_positions(cells, s, m - 1);
        let cur = bull_positions(cells, s, m);
        assert forall|a: int| 0 <= a < cur.len() implies 0 <= #[trigger] cur[a] < m && s.contains(cells[cur[a]]) by {
            if a < prev.len() {
                assert(cur[a] == prev[a]);
            }
        }
        assert forall|a: int, b: int| 0 <= a < b < cur.len() implies #[trigger] cur[a] < #[trigger] cur[b] by {
            assert(cur[a] == prev[a]);
            if b < prev.len() {
                assert(cur[b] == prev[b]);
            }
        }
        assert forall|i: int| 0 <= i < m && s.contains(cells[i]) implies #[trigger] cur.contains(i) by {
            if i < m - 1 {
                assert(prev.contains(i));
                let a = choose|a: int| 0 <= a < prev.len() && prev[a] == i;
                assert(cur[a] == prev[a]);
            } else {
                assert(cur[prev.len() as int] == i);
            }
        }
    }
}

/// A region holds at least as many bull positions as the solution has
/// bulls in it.
proof fn lemma_region_bull_count(g: Seq<Vec<usize>>, k: int, s: Seq<Pos>, l: usize)
    requires
        labels_exact(g, g.len() as int),
        g.len() <= MAX_SIDE,
        crate::board::is_solution_k(g, s, k),
        l < g.len(),
    ensures
        0 <= k <= bull_positions(region_cells(g, l), s, region_cells(g, l).len() as int).len(),
{
    let n = g.len() as int;
    assert(present(g, l));
    let (r0, c0) = choose|r0: int, c0: int| 0 <= r0 < g.len() && 0 <= c0 < g.len() && #[trigger] label(g, r0, c0) == l;
    assert(crate::board::label_set(g).contains(l));
    let cells = region_cells(g, l);
    lemma_cells_upto(g, l, n * n);
    lemma_bull_positions(cells, s, cells.len() as int);
    let sel = bull_positions(cells, s, cells.len() as int);
    crate::board::lemma_solution_distinct(g, s, k);
    let m = |p: Pos| (choose|i: int| 0 <= i < cells.len() && cells[i] == p) as usize;
    let su = sel.map_values(|i: int| i as usize);
    let t = su.to_set();
    let f = |p: Pos| label(g, p.0 as int, p.1 as int) == l;
    assert forall|i: int| 0 <= i < s.len() && f(s[i]) implies t.contains(m(#[trigger] s[i])) by {
        let p = s[i];
        crate::double_count::lemma_opt_of(n, p);
        let q = crate::double_count::opt_of(n, p);
        assert(cells.contains(cell_of(n, q)));
        let j = choose|j: int| 0 <= j < cells.len() && cells[j] == p;
        assert(s.contains(cells[j]));
        assert(sel.contains(j));
        let a = choose|a: int| 0 <= a < sel.len() && sel[a] == j;
        assert(su[a] == m(p));
    }
    assert forall|i: int, j: int| 0 <= i < s.len() && 0 <= j < s.len() && i != j && f(s[i]) && f(s[j]) implies m(
        #[trigger] s[i],
    ) != m(#[trigger] s[j]) by {
        crate::double_count::lemma_opt_of(n, s[i]);
        crate::double_count::lemma_opt_of(n, s[j]);
        assert(cells.contains(cell_of(n, crate::double_count::opt_of(n, s[i]))));
        assert(cells.contains(cell_of(n, crate::double_count::opt_of(n, s[j]))));
        let a = choose|a: int| 0 <= a < cells.len() && cells[a] == s[i];
        let b = choose|b: int| 0 <= b < cells.len() && cells[b] == s[j];
        assert(n * n <= MAX_SIDE * MAX_SIDE) by (nonlinear_arith)
            requires
                0 <= n <= MAX_SIDE,
        ;
        assert(cells.len() < usize::MAX);
        assert(s[i] != s[j]);
    }
    crate::board::lemma_count_inject(s, f, m, t);
    crate::board::lemma_count_label_ext(g, s, l, f);
    crate::board::lemma_count_nonneg(s, f);
    assert(su.no_duplicates()) by {
        assert forall|a: int, b: int| 0 <= a < su.len() && 0 <= b < su.len() && a != b implies su[a] != su[b] by {
            if a < b {
                assert(sel[a] < sel[b]);
            } else {
                assert(sel[b] < sel[a]);
            }
        }
    }
    su.unique_seq_to_set();
}

/// The region prefilter never rejects a solvable board: when the board has
/// a solution with `k` bulls per row, column and region, every region can
/// host `k` mutually non-touching bulls.
pub proof fn lemma_solvable_regions_spread(g: Seq<Vec<usize>>, k: int, s: Seq<Pos>)
    requires
        labels_exact(g, g.len() as int),
        g.len() <= MAX_SIDE,
        crate::board::is_solution_k(g, s, k),
    ensures
        all_spread(g, k),
{
    let n = g.len() as int;
    assert forall|l: usize| l < g.len() implies #[trigger] region_spreads(g, l, k) by {
        let cells = region_cells(g, l);
        lemma_cells_upto(g, l, n * n);
        lemma_bull_positions(cells, s, cells.len() as int);
        let sel = bull_positions(cells, s, cells.len() as int);
        lemma_region_bull_count(g, k, s, l);
        let sel2 = sel.take(k);
        assert forall|a: int| 0 <= a < sel2.len() implies 0 <= #[trigger] sel2[a] < cells.len() by {
            assert(sel2[a] == sel[a]);
        }
        assert forall|a: int, b: int| 0 <= a < b < sel2.len() implies #[trigger] sel2[a] < #[trigger] sel2[b] by {
            assert(sel2[a] == sel[a]);
            assert(sel2[b] == sel[b]);
        }
        let ps = picked(cells, sel2);
        assert(Seq::<Pos>::empty() + ps =~= ps);
        assert forall|a: int, b: int| 0 <= a < b < ps.len() implies !touching(#[trigger] ps[a], #[trigger] ps[b]) by {
            assert(sel2[a] == sel[a]);
            assert(sel2[b] == sel[b]);
            let ia = sel[a];
            let ib = sel[b];
            assert(ps[a] == cells[ia]);
            assert(ps[b] == cells[ib]);
            assert(s.contains(cells[ia]));
            assert(s.contains(cells[ib]));
            let x = choose|x: int| 0 <= x < s.len() && s[x] == cells[ia];
            let y = choose|y: int| 0 <= y < s.len() && s[y] == cells[ib];
            assert(ia < ib);
            assert(crate::double_count::opt_of(n, cells[ia]) < crate::double_count::opt_of(n, cells[ib]));
            assert(x != y);
        }
        assert(spread_witness(cells, 0, k, Seq::empty(), sel2));
    }
}

// ---------------------------------------------------------- line caps

/// The label at position `y` along line `x` (a row, or else a column).
pub open spec fn line_label(g: Seq<Vec<usize>>, by_row: bool, x: int, y: int) -> usize {
    if by_row {
        label(g, x, y)
    } else {
        label(g, y, x)
    }
}

/// Scanning line `x` up to position `y`: how many cells of region `a` a
/// greedy left-to-right pick of pairwise non-adjacent cells takes, and the
/// last position taken (-2 before any).
pub open spec fn greedy(g: Seq<Vec<usize>>, by_row: bool, a: int, x: int, y: int) -> (int, int)
    decreases y,
{
    if y <= 0 {
        (0, -2)
    } else {
        let prev = greedy(g, by_row, a, x, y - 1);
        if line_label(g, by_row, x, y - 1) == a && y - 1 > prev.1 + 1 {
            (prev.0 + 1, y - 1)
        } else {
            prev
        }
    }
}

/// Bounds of the greedy scan.
pub proof fn lemma_greedy_bounds(g: Seq<Vec<usize>>, by_row: bool, a: int, x: int, y: int)
    requires
        y >= 0,
    ensures
        0 <= greedy(g, by_row, a, x, y).0 <= y,
        -2 <= greedy(g, by_row, a, x, y).1 < y,
    decreases y,
{
    if y > 0 {
        lemma_greedy_bounds(g, by_row, a, x, y - 1);
    }
}

/// With nothing taken, the greedy scan's last pick is the start marker.
pub proof fn lemma_greedy_zero(g: Seq<Vec<usize>>, by_row: bool, a: int, x: int, y: int)
    requires
        y >= 0,
    ensures
        greedy(g, by_row, a, x, y).0 == 0 ==> greedy(g, by_row, a, x, y).1 == -2,
    decreases y,
{
    if y > 0 {
        lemma_greedy_zero(g, by_row, a, x, y - 1);
        lemma_greedy_bounds(g, by_row, a, x, y - 1);
    }
}

/// `w` lists positions `0 <= w[i] < y` along line `x`, all in region `a`,
/// increasing with gaps of at least two: cells of the region on the line
/// no two of which touch.
pub open spec fn spread(g: Seq<Vec<usize>>, by_row: bool, a: int, x: int, y: int, w: Seq<int>) -> bool {
    &&& forall|i: int| 0 <= i < w.len() ==> 0 <= #[trigger] w[i] < y && line_label(g, by_row, x, w[i]) == a
    &&& forall|i: int, j: int| 0 <= i < j < w.len() ==> #[trigger] w[i] + 2 <= #[trigger] w[j]
}

/// The greedy scan's count is realised by its picks: they are cells of
/// region `a` on line `x`, no two touching, and the last is its last pick.
proof fn lemma_greedy_picks(g: Seq<Vec<usize>>, by_row: bool, a: int, x: int, y: int) -> (w: Seq<int>)
    requires
        y >= 0,
    ensures
        spread(g, by_row, a, x, y, w),
        w.len() == greedy(g, by_row, a, x, y).0,
        w.len() > 0 ==> w.last() == greedy(g, by_row, a, x, y).1,
    decreases y,
{
    if y == 0 {
        Seq::empty()
    } else {
        let w0 = lemma_greedy_picks(g, by_row, a, x, y - 1);
        lemma_greedy_zero(g, by_row, a, x, y - 1);
        lemma_greedy_bounds(g, by_row, a, x, y - 1);
        let prev = greedy(g, by_row, a, x, y - 1);
        if line_label(g, by_row, x, y - 1) == a && y - 1 > prev.1 + 1 {
            let w = w0.push(y - 1);
            assert forall|i: int, j: int| 0 <= i < j < w.len() implies #[trigger] w[i] + 2 <= #[trigger] w[j] by {
                if j == w.len() - 1 {
                    if i < w0.len() - 1 {
                        assert(w0[i] + 2 <= w0[w0.len() - 1]);
                    }
                    assert(w[i] == w0[i]);
                } else {
                    assert(w[i] == w0[i] && w[j] == w0[j]);
                }
            }
            w
        } else {
            w0
        }
    }
}

/// The capacity the flow filter gives region `a` on line `x` is the size of
/// a set of cells of that region on that line no two of which touch: it
/// never credits a region with more bulls than the line can hold for it.
pub proof fn lemma_line_cap_spread(g: Seq<Vec<usize>>, by_row: bool, a: int, x: int)
    ensures
        exists|w: Seq<int>| spread(g, by_row, a, x, g.len() as int, w) && w.len() == #[trigger] greedy_fn(g, by_row)(a, x),
{
    let w = lemma_greedy_picks(g, by_row, a, x, g.len() as int);
    assert(spread(g, by_row, a, x, g.len() as int, w) && w.len() == greedy_fn(g, by_row)(a, x));
}

/// The greedy scan takes at least as many cells of region `a` on line `x`
/// as any solution puts bulls there; and when it takes as many, its last
/// pick is no later than the solution's last bull.
pub proof fn lemma_greedy_max(g: Seq<Vec<usize>>, by_row: bool, s: Seq<Pos>, k: int, a: int, x: int, y: int)
    requires
        crate::board::is_solution_k(g, s, k),
        0 <= y,
    ensures
        ({
            let c = crate::board::count_where(s, reg_line(g, by_row, a, x, y));
            let gr = greedy(g, by_row, a, x, y);
            &&& c <= gr.0
            &&& (c == gr.0 && c > 0) ==> exists|i: int|
                0 <= i < s.len() && reg_line(g, by_row, a, x, y)(#[trigger] s[i]) && pos_in_line(by_row, s[i]) >= gr.1
        }),
    decreases y,
{
    let f = reg_line(g, by_row, a, x, y);
    if y == 0 {
        crate::board::lemma_count_where_zero(s, f);
    } else {
        let q = y - 1;
        let f0 = reg_line(g, by_row, a, x, q);
        let fq = at_cell(g, by_row, a, x, q);
        lemma_greedy_max(g, by_row, s, k, a, x, q);
        lemma_greedy_bounds(g, by_row, a, x, q);
        lemma_greedy_bounds(g, by_row, a, x, y);
        lemma_greedy_zero(g, by_row, a, x, q);
        crate::board::lemma_count_split(s, f, f0, fq);
        crate::board::lemma_count_nonneg(s, fq);
        crate::board::lemma_count_nonneg(s, f0);
        // at most one bull sits at one cell
        assert(crate::board::count_where(s, fq) <= 1) by {
            if crate::board::count_where(s, fq) >= 2 {
                crate::board::lemma_count_witness(s, fq);
                let i = choose|i: int| 0 <= i < s.len() && fq(#[trigger] s[i]);
                crate::board::lemma_count_remove(s, i, fq);
                crate::board::lemma_count_witness(s.remove(i), fq);
                let j0 = choose|j: int| 0 <= j < s.remove(i).len() && fq(#[trigger] s.remove(i)[j]);
                let j = if j0 < i { j0 } else { j0 + 1 };
                assert(s[j] == s.remove(i)[j0]);
                assert(s[i] == s[j]);
                assert(!touching(s[i], s[j]));
            }
        }
        let c0 = crate::board::count_where(s, f0);
        let g0 = greedy(g, by_row, a, x, q);
        let gy = greedy(g, by_row, a, x, y);
        if crate::board::count_where(s, fq) == 1 {
            crate::board::lemma_count_witness(s, fq);
            let iq = choose|i: int| 0 <= i < s.len() && fq(#[trigger] s[i]);
            assert(line_label(g, by_row, x, q) == a) by {
                assert(s[iq].0 < g.len() && s[iq].1 < g.len());
            }
            if c0 == g0.0 {
                // the greedy scan is free to take position q
                if c0 > 0 {
                    let i = choose|i: int| 0 <= i < s.len() && f0(#[trigger] s[i]) && pos_in_line(by_row, s[i]) >= g0.1;
                    assert(i != iq);
                    assert(!touching(s[i], s[iq]));
                }
                assert(q > g0.1 + 1);
            }
            assert(f(s[iq]));
        } else {
            if crate::board::count_where(s, f) == gy.0 && gy.0 > 0 {
                assert(gy == g0) by {
                    if line_label(g, by_row, x, q) == a && q > g0.1 + 1 {
                        assert(gy.0 == g0.0 + 1);
                    }
                }
                let i = choose|i: int| 0 <= i < s.len() && f0(#[trigger] s[i]) && pos_in_line(by_row, s[i]) >= g0.1;
                assert(f(s[i]));
            }
        }
    }
}

/// caps[a][x] = how many non-touching bulls region `a` can place in line
/// `x`: within one line cells touch iff consecutive, so the greedy count
/// over the line's cells in order is the maximum.
fn line_caps(grid: &Grid, by_row: bool) -> (caps: Vec<Vec<usize>>)
    requires
        crate::board::is_square(grid@),
        grid@.len() <= MAX_SIDE,
        forall|rr: int, cc: int| 0 <= rr < grid@.len() && 0 <= cc < grid@.len() ==> #[trigger] label(grid@, rr, cc) < grid@.len(),
    ensures
        caps@.len() == grid@.len(),
        forall|a: int| 0 <= a < grid@.len() ==> (#[trigger] caps@[a])@.len() == grid@.len(),
        forall|a: int, x: int|
            0 <= a < grid@.len() && 0 <= x < grid@.len() ==> #[trigger] caps@[a]@[x] == greedy(
                grid@,
                by_row,
                a,
                x,
                grid@.len() as int,
            ).0,
{
    let n = grid.len();
    let ghost g = grid@;
    let mut caps: Vec<Vec<usize>> = Vec::with_capacity(n);
    let mut a: usize = 0;
    while a < n
        invariant
            0 <= a <= n,
            caps@.len() == a,
            forall|b: int| 0 <= b < a ==> (#[trigger] caps@[b])@ == Seq::new(n as nat, |x: int| 0usize),
        decreases n - a,
    {
        caps.push(vec![0usize; n]);
        proof {
            assert(caps@[a as int]@ =~= Seq::new(n as nat, |x: int| 0usize));
        }
        a = a + 1;
    }
    let mut last: Vec<i64> = vec![-2i64; n];
    let mut x: usize = 0;
    while x < n
        invariant
            n == g.len(),
            g == grid@,
            n <= MAX_SIDE,
            crate::board::is_square(g),
            forall|rr: int, cc: int| 0 <= rr < n && 0 <= cc < n ==> #[trigger] label(g, rr, cc) < n,
            0 <= x <= n,
            caps@.len() == n,
            last@.len() == n,
            forall|b: int| 0 <= b < n ==> (#[trigger] caps@[b])@.len() == n,
            forall|b: int, xx: int| 0 <= b < n && 0 <= xx < x ==> #[trigger] caps@[b]@[xx] == greedy(g, by_row, b, xx, n as int).0,
            forall|b: int, xx: int| 0 <= b < n && x <= xx < n ==> #[trigger] caps@[b]@[xx] == 0,
        decreases n - x,
    {
        let mut b: usize = 0;
        while b < n
            invariant
                0 <= b <= n,
                last@.len() == n,
                forall|bb: int| 0 <= bb < b ==> #[trigger] last@[bb] == -2,
            decreases n - b,
        {
            last.set(b, -2);
            b = b + 1;
        }
        let mut y: usize = 0;
        while y < n
            invariant
                n == g.len(),
                g == grid@,
                n <= MAX_SIDE,
                crate::board::is_square(g),
                forall|rr: int, cc: int| 0 <= rr < n && 0 <= cc < n ==> #[trigger] label(g, rr, cc) < n,
                0 <= x < n,
                0 <= y <= n,
                caps@.len() == n,
                last@.len() == n,
                forall|b: int| 0 <= b < n ==> (#[trigger] caps@[b])@.len() == n,
                forall|b: int, xx: int| 0 <= b < n && 0 <= xx < x ==> #[trigger] caps@[b]@[xx] == greedy(g, by_row, b, xx, n as int).0,
                forall|b: int, xx: int| 0 <= b < n && x < xx < n ==> #[trigger] caps@[b]@[xx] == 0,
                forall|b: int|
                    0 <= b < n ==> #[trigger] caps@[b]@[x as int] == greedy(g, by_row, b, x as int, y as int).0 && last@[b]
                        == greedy(g, by_row, b, x as int, y as int).1,
            decreases n - y,
        {
            let lab = if by_row {
                grid[x][y]
            } else {
                grid[y][x]
            };
            proof {
                assert(lab == line_label(g, by_row, x as int, y as int));
                assert(lab < n);
                lemma_greedy_bounds(g, by_row, lab as int, x as int, y as int);
                assert(caps@[lab as int]@[x as int] == greedy(g, by_row, lab as int, x as int, y as int).0);
            }
            let ghost before = caps@;
            let ghost lbefore = last@;
            if (y as i64) > last[lab] + 1 {
                let cnt = caps[lab][x];
                set2(&mut caps, lab, x, cnt + 1);
                last.set(lab, y as i64);
            }
            proof {
                assert forall|b: int| 0 <= b < n implies #[trigger] caps@[b]@[x as int] == greedy(g, by_row, b, x as int, (y
                    + 1) as int).0 && last@[b] == greedy(g, by_row, b, x as int, (y + 1) as int).1 by {
                    assert(before[b]@[x as int] == greedy(g, by_row, b, x as int, y as int).0);
                    assert(lbefore[b] == greedy(g, by_row, b, x as int, y as int).1);
                    if b != lab {
                        assert(caps@[b] == before[b]);
                    }
                }
                assert forall|b: int, xx: int| 0 <= b < n && 0 <= xx < x implies #[trigger] caps@[b]@[xx] == greedy(
                    g,
                    by_row,
                    b,
                    xx,
                    n as int,
                ).0 by {
                    assert(before[b]@[xx] == greedy(g, by_row, b, xx, n as int).0);
                }
                assert forall|b: int, xx: int| 0 <= b < n && x < xx < n implies #[trigger] caps@[b]@[xx] == 0 by {
                    assert(before[b]@[xx] == 0);
                }
            }
            y = y + 1;
        }
        x = x + 1;
    }
    caps
}

// ---------------------------------------------------------------- flow

/// `cap` is a v x v table.
pub open spec fn square_caps(cap: Seq<Vec<usize>>, v: int) -> bool {
    &&& cap.len() == v
    &&& forall|u: int| 0 <= u < v ==> (#[trigger] cap[u])@.len() == v
}

/// Entry (u, w) of a table.
pub open spec fn cv(cap: Seq<Vec<usize>>, u: int, w: int) -> int {
    cap[u]@[w] as int
}

/// Residual capacities only move between the two directions of an edge.
pub open spec fn skew_ok(cap: Seq<Vec<usize>>, cap0: Seq<Vec<usize>>, v: int) -> bool {
    forall|u: int, w: int|
        0 <= u < v && 0 <= w < v ==> #[trigger] cv(cap, u, w) + cv(cap, w, u) == cv(cap0, u, w) + cv(cap0, w, u)
}

/// No link has capacity both ways.
pub open spec fn one_way(cap: Seq<Vec<usize>>, v: int) -> bool {
    forall|u: int, w: int| 0 <= u < v && 0 <= w < v ==> #[trigger] cv(cap, u, w) == 0 || cv(cap, w, u) == 0
}

/// Every entry is at most `k`.
pub open spec fn caps_at_most(cap: Seq<Vec<usize>>, v: int, k: int) -> bool {
    forall|u: int, w: int| 0 <= u < v && 0 <= w < v ==> #[trigger] cv(cap, u, w) <= k
}

/// A breadth-first tree over the positive residual edges: every reached
/// node other than the root `s` was reached from an earlier node along a
/// positive edge (`qpos` is the order of discovery).
pub open spec fn tree_ok(cap: Seq<Vec<usize>>, prev: Seq<usize>, qpos: Seq<int>, v: int, s: int) -> bool {
    &&& prev.len() == v
    &&& qpos.len() == v
    &&& 0 <= s < v
    &&& prev[s] == s
    &&& qpos[s] == 0
    &&& forall|w: int| 0 <= w < v && #[trigger] prev[w] != usize::MAX ==> 0 <= qpos[w]
    &&& forall|w: int|
        0 <= w < v && w != s && #[trigger] prev[w] != usize::MAX ==> {
            &&& prev[w] < v
            &&& prev[prev[w] as int] != usize::MAX
            &&& qpos[prev[w] as int] < qpos[w]
            &&& cv(cap, prev[w] as int, w) > 0
        }
}

/// The node `j` steps back from `t` along the tree.
pub open spec fn chain(prev: Seq<usize>, t: int, j: nat) -> int
    decreases j,
{
    if j == 0 {
        t
    } else {
        prev[chain(prev, t, (j - 1) as nat)] as int
    }
}

/// Going back along the tree, discovery order strictly decreases.
pub proof fn lemma_chain_desc(cap: Seq<Vec<usize>>, prev: Seq<usize>, qpos: Seq<int>, v: int, s: int, t: int, i: nat, j: nat)
    requires
        tree_ok(cap, prev, qpos, v, s),
        0 <= t < v,
        prev[t] != usize::MAX,
        i < j,
        forall|x: nat| x < j ==> #[trigger] chain(prev, t, x) != s,
    ensures
        0 <= chain(prev, t, j) < v,
        prev[chain(prev, t, j)] != usize::MAX,
        qpos[chain(prev, t, j)] < qpos[chain(prev, t, i)],
    decreases j,
{
    lemma_chain_reach(cap, prev, qpos, v, s, t, (j - 1) as nat);
    assert(chain(prev, t, (j - 1) as nat) != s);
    if i < j - 1 {
        lemma_chain_desc(cap, prev, qpos, v, s, t, i, (j - 1) as nat);
    }
}

/// Every node of the chain (while it has not reached the root) is a
/// reached node.
pub proof fn lemma_chain_reach(cap: Seq<Vec<usize>>, prev: Seq<usize>, qpos: Seq<int>, v: int, s: int, t: int, j: nat)
    requires
        tree_ok(cap, prev, qpos, v, s),
        0 <= t < v,
        prev[t] != usize::MAX,
        forall|x: nat| x < j ==> #[trigger] chain(prev, t, x) != s,
    ensures
        0 <= chain(prev, t, j) < v,
        prev[chain(prev, t, j)] != usize::MAX,
    decreases j,
{
    if j > 0 {
        lemma_chain_reach(cap, prev, qpos, v, s, t, (j - 1) as nat);
        assert(chain(prev, t, (j - 1) as nat) != s);
    }
}

/// Sum of an updated list.
pub proof fn lemma_sum_update(xs: Seq<usize>, i: int, x: usize)
    requires
        0 <= i < xs.len(),
    ensures
        crate::regions::sum_of(xs.update(i, x)) + xs[i] == crate::regions::sum_of(xs) + x,
    decreases xs.len(),
{
    let ys = xs.update(i, x);
    if i < xs.len() - 1 {
        assert(ys.drop_last() =~= xs.drop_last().update(i, x));
        lemma_sum_update(xs.drop_last(), i, x);
    } else {
        assert(ys.drop_last() =~= xs.drop_last());
    }
}

/// Breadth-first search from `s` over the positive residual edges, until
/// `t` is reached or the queue runs dry.
fn bfs(cap: &Vec<Vec<usize>>, v: usize, s: usize, t: usize) -> (res: (Vec<usize>, Ghost<Seq<int>>))
    requires
        square_caps(cap@, v as int),
        s < v,
        t < v,
    ensures
        tree_ok(cap@, res.0@, res.1@, v as int, s as int),
        res.0@[t as int] == usize::MAX ==> forall|u: int, w: int|
            0 <= u < v && 0 <= w < v && #[trigger] res.0@[u] != usize::MAX && #[trigger] cv(cap@, u, w) > 0 ==> res.0@[w]
                != usize::MAX,
{
    let mut prev: Vec<usize> = vec![usize::MAX; v];
    prev.set(s, s);
    let ghost mut qpos: Seq<int> = Seq::new(v as nat, |w: int| if w == s { 0 } else { -1 });
    let mut queue: Vec<usize> = Vec::new();
    queue.push(s);
    let mut qi: usize = 0;
    proof {
        assert forall|w: int| 0 <= w < v && prev@[w] != usize::MAX implies #[trigger] queue@.contains(w as usize) by {
            assert(queue@[0] == s);
        }
    }
    while qi < queue.len() && prev[t] == usize::MAX
        invariant
            square_caps(cap@, v as int),
            s < v,
            t < v,
            tree_ok(cap@, prev@, qpos, v as int, s as int),
            queue@.len() <= v,
            qi <= queue@.len(),
            queue@.no_duplicates(),
            forall|x: int| 0 <= x < queue@.len() ==> #[trigger] queue@[x] < v && prev@[queue@[x] as int] != usize::MAX && qpos[queue@[x] as int] == x,
            forall|w: int| 0 <= w < v && prev@[w] != usize::MAX ==> #[trigger] queue@.contains(w as usize),
            forall|x: int, w: int|
                0 <= x < qi && 0 <= w < v && #[trigger] cv(cap@, queue@[x] as int, w) > 0 ==> prev@[w] != usize::MAX,
        decreases v - qi,
    {
        let u = queue[qi];
        qi = qi + 1;
        let mut w: usize = 0;
        while w < v
            invariant
                square_caps(cap@, v as int),
                s < v,
                u < v,
                tree_ok(cap@, prev@, qpos, v as int, s as int),
                prev@[u as int] != usize::MAX,
                queue@.len() <= v,
                0 < qi <= queue@.len(),
                qpos[u as int] == qi - 1,
                queue@.no_duplicates(),
                forall|x: int| 0 <= x < queue@.len() ==> #[trigger] queue@[x] < v && prev@[queue@[x] as int] != usize::MAX && qpos[queue@[x] as int] == x,
                forall|w: int| 0 <= w < v && prev@[w] != usize::MAX ==> #[trigger] queue@.contains(w as usize),
                queue@[qi - 1] == u,
                forall|x: int, w2: int|
                    0 <= x < qi - 1 && 0 <= w2 < v && #[trigger] cv(cap@, queue@[x] as int, w2) > 0 ==> prev@[w2] != usize::MAX,
                forall|w2: int| 0 <= w2 < w && #[trigger] cv(cap@, u as int, w2) > 0 ==> prev@[w2] != usize::MAX,
            decreases v - w,
        {
            if prev[w] == usize::MAX && cap[u][w] > 0 {
                let ghost q0 = queue@;
                proof {
                    assert(!q0.contains(w)) by {
                        if q0.contains(w) {
                            let x = choose|x: int| 0 <= x < q0.len() && q0[x] == w;
                        }
                    }
                    assert(w != s);
                }
                prev.set(w, u);
                queue.push(w);
                proof {
                    qpos = qpos.update(w as int, q0.len() as int);
                    assert(queue@.no_duplicates()) by {
                        assert forall|a: int, b: int| 0 <= a < b < queue@.len() implies queue@[a] != queue@[b] by {
                            if b == q0.len() {
                                assert(q0.contains(q0[a]));
                            } else {
                                assert(queue@[a] == q0[a] && queue@[b] == q0[b]);
                            }
                        }
                    }
                    crate::double::lemma_nodup_bound(queue@, v as nat);
                    assert forall|x: int| 0 <= x < queue@.len() implies #[trigger] queue@[x] < v && prev@[queue@[x] as int]
                        != usize::MAX && qpos[queue@[x] as int] == x by {
                        if x < q0.len() {
                            assert(queue@[x] == q0[x]);
                            assert(q0[x] != w);
                        }
                    }
                    assert forall|y: int| 0 <= y < v && prev@[y] != usize::MAX implies #[trigger] queue@.contains(y as usize) by {
                        if y != w {
                            assert(q0.contains(y as usize));
                            let x = choose|x: int| 0 <= x < q0.len() && q0[x] == y as usize;
                            assert(queue@[x] == y as usize);
                        } else {
                            assert(queue@[q0.len() as int] == w);
                        }
                    }
                }
            }
            proof {
                assert(cv(cap@, u as int, w as int) > 0 ==> prev@[w as int] != usize::MAX);
            }
            w = w + 1;
        }
        proof {
            assert forall|x: int, w2: int|
                0 <= x < qi && 0 <= w2 < v && #[trigger] cv(cap@, queue@[x] as int, w2) > 0 implies prev@[w2] != usize::MAX by {
                if x == qi - 1 {
                    assert(queue@[x] == u);
                }
            }
        }
    }
    proof {
        if prev@[t as int] == usize::MAX {
            assert forall|u: int, w: int|
                0 <= u < v && 0 <= w < v && #[trigger] prev@[u] != usize::MAX && #[trigger] cv(cap@, u, w) > 0 implies prev@[w]
                    != usize::MAX by {
                assert(queue@.contains(u as usize));
                let x = choose|x: int| 0 <= x < queue@.len() && queue@[x] == u as usize;
                assert(cv(cap@, queue@[x] as int, w) > 0);
            }
        }
    }
    (prev, Ghost(qpos))
}

/// Push the bottleneck of the tree path from `s` to `t` along it: each
/// edge loses it, each reverse edge gains it.
fn augment(
    cap: &mut Vec<Vec<usize>>,
    prev: &Vec<usize>,
    Ghost(qpos): Ghost<Seq<int>>,
    Ghost(cap0): Ghost<Seq<Vec<usize>>>,
    v: usize,
    s: usize,
    t: usize,
    k: usize,
) -> (b: usize)
    requires
        square_caps(old(cap)@, v as int),
        square_caps(cap0, v as int),
        tree_ok(old(cap)@, prev@, qpos, v as int, s as int),
        t < v,
        t != s,
        prev@[t as int] != usize::MAX,
        skew_ok(old(cap)@, cap0, v as int),
        caps_at_most(cap0, v as int, k as int),
        one_way(cap0, v as int),
    ensures
        b >= 1,
        square_caps(final(cap)@, v as int),
        skew_ok(final(cap)@, cap0, v as int),
        crate::regions::sum_of(final(cap)@[s as int]@) + b == crate::regions::sum_of(old(cap)@[s as int]@),
        forall|u: int|
            0 <= u < v && u != s && u != t ==> #[trigger] crate::regions::sum_of(final(cap)@[u]@) == crate::regions::sum_of(
                old(cap)@[u]@,
            ),
{
    let ghost c0 = cap@;
    let mut b: usize = usize::MAX;
    let mut w: usize = t;
    let ghost mut j: nat = 0;
    while w != s
        invariant
            square_caps(c0, v as int),
            tree_ok(c0, prev@, qpos, v as int, s as int),
            t < v,
            prev@[t as int] != usize::MAX,
            cap@ == c0,
            w < v,
            prev@[w as int] != usize::MAX,
            w == chain(prev@, t as int, j),
            1 <= b,
            forall|i: nat| i < j ==> #[trigger] chain(prev@, t as int, i) != s,
            forall|i: nat|
                i < j ==> b <= cv(c0, prev@[chain(prev@, t as int, i)] as int, #[trigger] chain(prev@, t as int, i)),
        decreases qpos[w as int],
    {
        let p = prev[w];
        let c = cap[p][w];
        if c < b {
            b = c;
        }
        proof {
            assert(chain(prev@, t as int, j + 1) == p);
        }
        w = p;
        proof {
            j = j + 1;
        }
    }
    let ghost len = j;
    proof {
        assert forall|i1: nat, i2: nat| i1 < i2 <= len implies chain(prev@, t as int, i1) != chain(prev@, t as int, i2) by {
            lemma_chain_desc(c0, prev@, qpos, v as int, s as int, t as int, i1, i2);
        }
        assert forall|i: nat| i <= len implies 0 <= #[trigger] chain(prev@, t as int, i) < v by {
            if i < len {
                lemma_chain_reach(c0, prev@, qpos, v as int, s as int, t as int, i);
            }
        }
    }
    let ghost row0 = c0[s as int]@;
    w = t;
    proof {
        j = 0;
    }
    while w != s
        invariant
            square_caps(cap@, v as int),
            square_caps(cap0, v as int),
            skew_ok(cap@, cap0, v as int),
            caps_at_most(cap0, v as int, k as int),
            one_way(cap0, v as int),
            t < v,
            t != s,
            s < v,
            j <= len,
            w == chain(prev@, t as int, j),
            prev@.len() == v,
            chain(prev@, t as int, len) == s,
            forall|i: nat| i < len ==> #[trigger] chain(prev@, t as int, i) != s,
            forall|i1: nat, i2: nat| i1 < i2 <= len ==> chain(prev@, t as int, i1) != chain(prev@, t as int, i2),
            forall|i: nat| i <= len ==> 0 <= #[trigger] chain(prev@, t as int, i) < v,
            1 <= b,
            forall|i: nat|
                j <= i < len ==> b <= cv(cap@, prev@[chain(prev@, t as int, i)] as int, #[trigger] chain(prev@, t as int, i)),
            w != s ==> crate::regions::sum_of(cap@[s as int]@) == crate::regions::sum_of(row0),
            w == s ==> crate::regions::sum_of(cap@[s as int]@) + b == crate::regions::sum_of(row0),
            c0.len() == v,
            forall|u: int|
                0 <= u < v ==> #[trigger] crate::regions::sum_of(cap@[u]@) + (if j > 0 && u == w {
                    b as int
                } else {
                    0int
                }) == crate::regions::sum_of(c0[u]@) + (if j > 0 && u == t {
                    b as int
                } else {
                    0int
                }),
        decreases len - j,
    {
        proof {
            assert(j < len);
            assert(chain(prev@, t as int, j + 1) == prev@[w as int]);
        }
        let p = prev[w];
        let ghost cb = cap@;
        let c = cap[p][w];
        set2(cap, p, w, c - b);
        let ghost cm = cap@;
        let d = cap[w][p];
        proof {
            assert(p != w);
            assert(cv(cb, p as int, w as int) + cv(cb, w as int, p as int) == cv(cap0, p as int, w as int) + cv(cap0, w as int, p as int));
        }
        set2(cap, w, p, d + b);
        proof {
            let c2 = cap@;
            assert forall|u: int, x: int| 0 <= u < v && 0 <= x < v implies #[trigger] cv(c2, u, x) + cv(c2, x, u) == cv(cap0, u, x)
                + cv(cap0, x, u) by {
                assert(cv(cb, u, x) + cv(cb, x, u) == cv(cap0, u, x) + cv(cap0, x, u));
            }
            assert forall|i: nat| j + 1 <= i < len implies b <= cv(c2, prev@[chain(prev@, t as int, i)] as int, #[trigger] chain(prev@, t as int, i)) by {
                let ci = chain(prev@, t as int, i);
                let pi = prev@[ci] as int;
                assert(ci != w);
                assert(b <= cv(cb, pi, ci));
                assert(0 <= pi < v) by {
                    if i + 1 < len {
                        assert(chain(prev@, t as int, i + 1) == pi);
                    } else {
                        assert(chain(prev@, t as int, i + 1) == pi);
                    }
                }
                if pi == w && ci == p {
                    assert(cv(c2, pi, ci) == d + b);
                } else if pi == p {
                    assert(cv(cm, pi, ci) == cv(cb, pi, ci));
                    assert(cv(c2, pi, ci) == cv(cm, pi, ci));
                } else {
                    assert(cv(cm, pi, ci) == cv(cb, pi, ci));
                    assert(cv(c2, pi, ci) == cv(cm, pi, ci));
                }
            }
            if p == s {
                lemma_sum_update(cb[s as int]@, w as int, (c - b) as usize);
                assert(c2[s as int] == cm[s as int]);
            } else {
                assert(c2[s as int] == cb[s as int]);
            }
            lemma_sum_update(cb[p as int]@, w as int, (c - b) as usize);
            lemma_sum_update(cm[w as int]@, p as int, (d + b) as usize);
            assert(c2[p as int] == cm[p as int]);
            assert(cm[w as int] == cb[w as int]);
            assert(p != t) by {
                assert(chain(prev@, t as int, j + 1) == p);
                assert(chain(prev@, t as int, 0) == t);
            }
            assert(j > 0 ==> w != t) by {
                assert(chain(prev@, t as int, 0) == t);
            }
            assert forall|u: int| 0 <= u < v implies #[trigger] crate::regions::sum_of(c2[u]@) + (if j + 1 > 0 && u == p {
                b as int
            } else {
                0int
            }) == crate::regions::sum_of(c0[u]@) + (if j + 1 > 0 && u == t {
                b as int
            } else {
                0int
            }) by {
                if u != p && u != w {
                    assert(c2[u] == cb[u]);
                }
            }
            j = j + 1;
        }
        w = p;
    }
    b
}

/// Writing an entry at most `k` keeps every entry at most `k`.
pub proof fn lemma_set_at_most(c0: Seq<Vec<usize>>, c1: Seq<Vec<usize>>, v: int, k: int, u: int, w: int, x: usize)
    requires
        square_caps(c0, v),
        caps_at_most(c0, v, k),
        0 <= u < v,
        0 <= w < v,
        x <= k,
        c1.len() == c0.len(),
        forall|i: int| 0 <= i < c0.len() && i != u ==> #[trigger] c1[i] == c0[i],
        c1[u]@ == c0[u]@.update(w, x),
    ensures
        square_caps(c1, v),
        caps_at_most(c1, v, k),
{
    assert forall|a: int, b: int| 0 <= a < v && 0 <= b < v implies #[trigger] cv(c1, a, b) <= k by {
        if a != u {
            assert(c1[a] == c0[a]);
        }
        assert(cv(c0, a, b) <= k);
    }
    assert forall|a: int| 0 <= a < v implies (#[trigger] c1[a])@.len() == v by {
        if a != u {
            assert(c1[a] == c0[a]);
        }
    }
}

/// The network for an n x n table `ec` of link capacities: source `2n` to
/// each region `a < n` (capacity `k`), region `a` to line node `n + x`
/// (capacity `ec[a][x]`, at most `k`), line node to sink `2n + 1`
/// (capacity `k`); nothing else.
pub open spec fn net_cap(ec: Seq<Vec<usize>>, k: int, u: int, w: int) -> int {
    let n = ec.len() as int;
    if u == 2 * n && 0 <= w < n {
        k
    } else if 0 <= u < n && n <= w < 2 * n {
        if (ec[u]@[w - n] as int) < k {
            ec[u]@[w - n] as int
        } else {
            k
        }
    } else if n <= u < 2 * n && w == 2 * n + 1 {
        k
    } else {
        0
    }
}

/// `cap0` is the network of `ec`.
pub open spec fn net_ok(cap0: Seq<Vec<usize>>, ec: Seq<Vec<usize>>, k: int) -> bool {
    let v = 2 * (ec.len() as int) + 2;
    &&& square_caps(cap0, v)
    &&& forall|u: int, w: int| 0 <= u < v && 0 <= w < v ==> #[trigger] cv(cap0, u, w) == net_cap(ec, k, u, w)
}

/// Entries `off`, `off + 1`, ... of a list.
pub open spec fn seg(row: Seq<usize>, off: int) -> spec_fn(int) -> int {
    |i: int| row[off + i] as int
}

/// A row of the network splits into its region part, its line part, and
/// the source and sink entries.
pub proof fn lemma_row_split(row: Seq<usize>, n: int)
    requires
        n >= 0,
        row.len() == 2 * n + 2,
    ensures
        crate::regions::sum_of(row) == sum_to(n, seg(row, 0)) + sum_to(n, seg(row, n)) + row[2 * n] + row[2 * n + 1],
{
    let all = |i: int| row[i] as int;
    lemma_sum_of_to(row);
    lemma_sum_to_split(n, n + 2, all, seg(row, n));
    lemma_sum_to_ext(n, all, seg(row, 0));
    let rest = |i: int| row[n + i] as int;
    assert(sum_to(n + 2, seg(row, n)) == sum_to(n, seg(row, n)) + row[2 * n] + row[2 * n + 1]) by {
        assert(sum_to(n + 2, seg(row, n)) == sum_to(n + 1, seg(row, n)) + seg(row, n)(n + 1));
        assert(sum_to(n + 1, seg(row, n)) == sum_to(n, seg(row, n)) + seg(row, n)(n));
    }
    assert(sum_to(2 * n + 2, all) == sum_to(n + (n + 2), all));
}

/// Flow from the source into region `a`.
pub open spec fn fs_fn(cap: Seq<Vec<usize>>, n: int, k: int) -> spec_fn(int) -> int {
    |a: int| k - cv(cap, 2 * n, a)
}

/// Flow from region `a` into line `x`.
pub open spec fn fe_tab(cap: Seq<Vec<usize>>, n: int) -> spec_fn(int, int) -> int {
    |a: int, x: int| cv(cap, n + x, a)
}

/// Flow from line `x` into the sink.
pub open spec fn ft_fn(cap: Seq<Vec<usize>>, n: int, k: int) -> spec_fn(int) -> int {
    |x: int| k - cv(cap, n + x, 2 * n + 1)
}

/// The residual table of a flow on the network: its entries only move
/// between the two directions of an edge, and every node but the source
/// and the sink passes on what it takes in.
pub open spec fn residual_ok(cap: Seq<Vec<usize>>, cap0: Seq<Vec<usize>>, ec: Seq<Vec<usize>>, k: int) -> bool {
    let n = ec.len() as int;
    let v = 2 * n + 2;
    &&& net_ok(cap0, ec, k)
    &&& square_caps(cap, v)
    &&& skew_ok(cap, cap0, v)
    &&& forall|u: int|
        0 <= u < 2 * n ==> #[trigger] crate::regions::sum_of(cap[u]@) == crate::regions::sum_of(cap0[u]@)
}

/// What a residual table says of its flow: the flow on each link is
/// within capacity, each region sends on what it gets, each line passes
/// on what it gets, and the flow is what left the source.
pub proof fn lemma_flow_rows(cap: Seq<Vec<usize>>, cap0: Seq<Vec<usize>>, ec: Seq<Vec<usize>>, k: int, flow: int)
    requires
        residual_ok(cap, cap0, ec, k),
        k >= 0,
        flow + crate::regions::sum_of(cap[2 * (ec.len() as int)]@) == crate::regions::sum_of(cap0[2 * (ec.len() as int)]@),
    ensures
        ({
            let n = ec.len() as int;
            let fe = fe_tab(cap, n);
            &&& flow == sum_to(n, fs_fn(cap, n, k))
            &&& forall|a: int| 0 <= a < n ==> 0 <= #[trigger] fs_fn(cap, n, k)(a) <= k
            &&& forall|x: int| 0 <= x < n ==> 0 <= #[trigger] ft_fn(cap, n, k)(x) <= k
            &&& forall|a: int, x: int| 0 <= a < n && 0 <= x < n ==> 0 <= #[trigger] fe(a, x) <= net_cap(ec, k, a, n + x)
            &&& forall|a: int| 0 <= a < n ==> #[trigger] fs_fn(cap, n, k)(a) == sum_to(n, row_fn(fe, a))
            &&& forall|x: int| 0 <= x < n ==> #[trigger] ft_fn(cap, n, k)(x) == sum_to(n, col_fn(fe, x))
        }),
{
    let n = ec.len() as int;
    let v = 2 * n + 2;
    let s = 2 * n;
    let t = 2 * n + 1;
    let fe = fe_tab(cap, n);
    // entries off the network's edges stay empty
    assert forall|u: int, w: int| 0 <= u < v && 0 <= w < v && net_cap(ec, k, u, w) == 0 && net_cap(ec, k, w, u) == 0 implies #[trigger] cv(cap, u, w) == 0 by {
        assert(cv(cap, u, w) + cv(cap, w, u) == cv(cap0, u, w) + cv(cap0, w, u));
    }
    // the source row
    lemma_row_split(cap[s]@, n);
    lemma_row_split(cap0[s]@, n);
    assert forall|i: int| 0 <= i < n implies #[trigger] seg(cap[s]@, n)(i) == 0 by {
        assert(cv(cap, s, n + i) == 0);
    }
    assert forall|i: int| 0 <= i < n implies #[trigger] seg(cap0[s]@, n)(i) == 0 by {
        assert(cv(cap0, s, n + i) == 0);
    }
    assert forall|i: int| 0 <= i < n implies #[trigger] seg(cap0[s]@, 0)(i) == k by {
        assert(cv(cap0, s, i) == k);
    }
    lemma_sum_to_const(n, 0, seg(cap[s]@, n));
    lemma_sum_to_const(n, 0, seg(cap0[s]@, n));
    lemma_sum_to_const(n, k, seg(cap0[s]@, 0));
    assert(cv(cap, s, s) == 0);
    assert(cv(cap, s, t) == 0);
    let neg = |a: int| 0 - cv(cap, s, a);
    lemma_sum_to_add(n, seg(cap[s]@, 0), fs_fn(cap, n, k), |a: int| k);
    lemma_sum_to_const(n, k, |a: int| k);
    assert forall|a: int| 0 <= a < n implies 0 <= #[trigger] fs_fn(cap, n, k)(a) <= k by {
        assert(cv(cap, s, a) + cv(cap, a, s) == cv(cap0, s, a) + cv(cap0, a, s));
    }
    // region rows
    assert forall|a: int| 0 <= a < n implies #[trigger] fs_fn(cap, n, k)(a) == sum_to(n, row_fn(fe, a)) by {
        lemma_row_split(cap[a]@, n);
        lemma_row_split(cap0[a]@, n);
        assert forall|i: int| 0 <= i < n implies #[trigger] seg(cap[a]@, 0)(i) == 0 by {
            assert(cv(cap, a, i) == 0);
        }
        assert forall|i: int| 0 <= i < n implies #[trigger] seg(cap0[a]@, 0)(i) == 0 by {
            assert(cv(cap0, a, i) == 0);
        }
        lemma_sum_to_const(n, 0, seg(cap[a]@, 0));
        lemma_sum_to_const(n, 0, seg(cap0[a]@, 0));
        assert(cv(cap, a, s) + cv(cap, s, a) == cv(cap0, a, s) + cv(cap0, s, a));
        assert(cv(cap, a, t) == 0);
        assert(cv(cap0, a, s) == 0 && cv(cap0, a, t) == 0);
        assert forall|x: int| 0 <= x < n implies #[trigger] seg(cap0[a]@, n)(x) == seg(cap[a]@, n)(x) + row_fn(fe, a)(x) by {
            assert(cv(cap, a, n + x) + cv(cap, n + x, a) == cv(cap0, a, n + x) + cv(cap0, n + x, a));
        }
        lemma_sum_to_add(n, seg(cap[a]@, n), row_fn(fe, a), seg(cap0[a]@, n));
    }
    // line rows
    assert forall|x: int| 0 <= x < n implies #[trigger] ft_fn(cap, n, k)(x) == sum_to(n, col_fn(fe, x)) && 0 <= ft_fn(cap, n, k)(x) <= k by {
        let u = n + x;
        lemma_row_split(cap[u]@, n);
        lemma_row_split(cap0[u]@, n);
        assert forall|i: int| 0 <= i < n implies #[trigger] seg(cap[u]@, n)(i) == 0 by {
            assert(cv(cap, u, n + i) == 0);
        }
        assert forall|i: int| 0 <= i < n implies #[trigger] seg(cap0[u]@, n)(i) == 0 by {
            assert(cv(cap0, u, n + i) == 0);
        }
        assert forall|i: int| 0 <= i < n implies #[trigger] seg(cap0[u]@, 0)(i) == 0 by {
            assert(cv(cap0, u, i) == 0);
        }
        lemma_sum_to_const(n, 0, seg(cap[u]@, n));
        lemma_sum_to_const(n, 0, seg(cap0[u]@, n));
        lemma_sum_to_const(n, 0, seg(cap0[u]@, 0));
        assert(cv(cap, u, s) == 0);
        assert(cv(cap, u, t) + cv(cap, t, u) == cv(cap0, u, t) + cv(cap0, t, u));
        assert(cv(cap0, t, u) == 0);
        lemma_sum_to_ext(n, seg(cap[u]@, 0), col_fn(fe, x));
    }
    assert forall|a: int, x: int| 0 <= a < n && 0 <= x < n implies 0 <= #[trigger] fe(a, x) <= net_cap(ec, k, a, n + x) by {
        assert(cv(cap, a, n + x) + cv(cap, n + x, a) == cv(cap0, a, n + x) + cv(cap0, n + x, a));
    }
}

/// A table's entries in the lines that the search reached; zero in the
/// others.
pub open spec fn keep_reached(f: spec_fn(int, int) -> int, prev: Seq<usize>, n: int) -> spec_fn(int, int) -> int {
    |a: int, x: int| if prev[n + x] != usize::MAX { f(a, x) } else { 0 }
}

/// `k` for the lines the search reached, 0 for the others.
pub open spec fn reached_k(prev: Seq<usize>, n: int, k: int) -> spec_fn(int) -> int {
    |x: int| if prev[n + x] != usize::MAX { k } else { 0 }
}

/// Max-flow, min-cut: once the search from the source cannot reach the
/// sink, the flow is `k * n` exactly when some transport fits the table.
#[verifier::rlimit(60)]
pub proof fn lemma_flow_max(
    cap: Seq<Vec<usize>>,
    cap0: Seq<Vec<usize>>,
    ec: Seq<Vec<usize>>,
    k: int,
    flow: int,
    prev: Seq<usize>,
)
    requires
        residual_ok(cap, cap0, ec, k),
        k >= 0,
        forall|a: int| 0 <= a < ec.len() ==> (#[trigger] ec[a])@.len() == ec.len(),
        flow + crate::regions::sum_of(cap[2 * (ec.len() as int)]@) == crate::regions::sum_of(cap0[2 * (ec.len() as int)]@),
        prev.len() == 2 * ec.len() + 2,
        prev[2 * (ec.len() as int)] != usize::MAX,
        prev[2 * (ec.len() as int) + 1] == usize::MAX,
        forall|u: int, w: int|
            0 <= u < prev.len() && 0 <= w < prev.len() && #[trigger] prev[u] != usize::MAX && #[trigger] cv(cap, u, w) > 0
                ==> prev[w] != usize::MAX,
    ensures
        (flow == (ec.len() as int) * k) == transport_exists(ec.len() as int, table_fn(ec), k),
{
    let n = ec.len() as int;
    let s = 2 * n;
    let t = 2 * n + 1;
    lemma_flow_rows(cap, cap0, ec, k, flow);
    let fs = fs_fn(cap, n, k);
    let fe = fe_tab(cap, n);
    let ft = ft_fn(cap, n, k);
    // the flow never exceeds k * n
    lemma_sum_to_le(n, fs, |a: int| k);
    lemma_sum_to_const(n, k, |a: int| k);
    if transport_exists(n, table_fn(ec), k) {
        let y = choose|y: spec_fn(int, int) -> int| #[trigger] is_transport(n, table_fn(ec), k, y);
        let ly = keep_reached(y, prev, n);
        let lfe = keep_reached(fe, prev, n);
        let p = |a: int| fs(a) + sum_to(n, row_fn(ly, a));
        let q = |a: int| k + sum_to(n, row_fn(lfe, a));
        assert forall|a: int| 0 <= a < n implies #[trigger] q(a) <= p(a) by {
            if prev[a] != usize::MAX {
                // fe(a, x) + ly(a, x) >= y(a, x) + lfe(a, x), termwise
                let l1 = |x: int| fe(a, x) + ly(a, x);
                let r1 = |x: int| y(a, x) + lfe(a, x);
                assert forall|x: int| 0 <= x < n implies #[trigger] r1(x) <= l1(x) by {
                    if prev[n + x] == usize::MAX {
                        assert(cv(cap, a, n + x) == 0) by {
                            if cv(cap, a, n + x) > 0 {
                                assert(prev[n + x] != usize::MAX);
                            }
                        }
                        assert(cv(cap, a, n + x) + cv(cap, n + x, a) == cv(cap0, a, n + x) + cv(cap0, n + x, a));
                        assert(0 <= y(a, x) <= ec[a]@[x] && y(a, x) <= k);
                    }
                }
                lemma_sum_to_le(n, r1, l1);
                lemma_sum_to_add(n, row_fn(fe, a), row_fn(ly, a), l1);
                lemma_sum_to_add(n, row_fn(y, a), row_fn(lfe, a), r1);
            } else {
                assert(cv(cap, s, a) == 0) by {
                    if cv(cap, s, a) > 0 {
                        assert(prev[a] != usize::MAX);
                    }
                }
                assert forall|x: int| 0 <= x < n implies #[trigger] row_fn(lfe, a)(x) <= row_fn(ly, a)(x) by {
                    if prev[n + x] != usize::MAX {
                        assert(cv(cap, n + x, a) == 0) by {
                            if cv(cap, n + x, a) > 0 {
                                assert(prev[a] != usize::MAX);
                            }
                        }
                    }
                }
                lemma_sum_to_le(n, row_fn(lfe, a), row_fn(ly, a));
            }
        }
        lemma_sum_to_le(n, q, p);
        lemma_sum_to_add(n, fs, crate::transport::row_sums(ly, n), p);
        lemma_sum_to_add(n, |a: int| k, crate::transport::row_sums(lfe, n), q);
        lemma_sum_to_swap(n, n, ly);
        lemma_sum_to_swap(n, n, lfe);
        let rk = reached_k(prev, n, k);
        assert forall|x: int| 0 <= x < n implies #[trigger] crate::transport::col_sums(ly, n)(x) == rk(x) by {
            if prev[n + x] != usize::MAX {
                lemma_sum_to_ext(n, col_fn(ly, x), col_fn(y, x));
            } else {
                lemma_sum_to_const(n, 0, col_fn(ly, x));
            }
        }
        assert forall|x: int| 0 <= x < n implies #[trigger] crate::transport::col_sums(lfe, n)(x) == rk(x) by {
            if prev[n + x] != usize::MAX {
                lemma_sum_to_ext(n, col_fn(lfe, x), col_fn(fe, x));
                assert(cv(cap, n + x, t) == 0) by {
                    if cv(cap, n + x, t) > 0 {
                        assert(prev[t] != usize::MAX);
                    }
                }
                assert(ft(x) == k);
            } else {
                lemma_sum_to_const(n, 0, col_fn(lfe, x));
            }
        }
        lemma_sum_to_ext(n, crate::transport::col_sums(ly, n), rk);
        lemma_sum_to_ext(n, crate::transport::col_sums(lfe, n), rk);
    }
    if flow == n * k {
        crate::transport::lemma_sum_to_all_max(n, fs, k);
        lemma_sum_to_swap(n, n, fe);
        lemma_sum_to_ext(n, crate::transport::row_sums(fe, n), fs);
        lemma_sum_to_ext(n, crate::transport::col_sums(fe, n), ft);
        crate::transport::lemma_sum_to_all_max(n, ft, k);
        assert forall|a: int, x: int| 0 <= a < n && 0 <= x < n implies 0 <= #[trigger] fe(a, x) <= ec[a]@[x] && fe(a, x) <= k by {
            assert(fe(a, x) <= net_cap(ec, k, a, n + x));
            assert((n + x) - n == x);
        }
        assert forall|a: int| 0 <= a < n implies #[trigger] sum_to(n, row_fn(fe, a)) == k by {
            assert(fs(a) == k);
        }
        assert forall|x: int| 0 <= x < n implies #[trigger] sum_to(n, col_fn(fe, x)) == k by {
            assert(ft(x) == k);
        }
        assert(is_transport(n, table_fn(ec), k, fe));
    }
}

/// Does `k` times n flow fit through source -> regions (cap `k`) -> lines
/// (`edge_caps`, at most `k`) -> sink (cap `k`)? Edmonds-Karp on a dense
/// residual table of 2n + 2 nodes.
fn feasible_flow(edge_caps: &Vec<Vec<usize>>, k: usize) -> (r: bool)
    requires
        edge_caps@.len() <= MAX_SIDE,
        forall|a: int| 0 <= a < edge_caps@.len() ==> (#[trigger] edge_caps@[a])@.len() == edge_caps@.len(),
        edge_caps@.len() * k <= usize::MAX,
    ensures
        r == transport_exists(edge_caps@.len() as int, table_fn(edge_caps@), k as int),
{
    let n = edge_caps.len();
    let ghost ec = edge_caps@;
    let v = 2 * n + 2;
    let s = 2 * n;
    let t = 2 * n + 1;
    let mut cap: Vec<Vec<usize>> = Vec::with_capacity(v);
    let mut u: usize = 0;
    while u < v
        invariant
            0 <= u <= v,
            cap@.len() == u,
            forall|x: int| 0 <= x < u ==> (#[trigger] cap@[x])@ == Seq::new(v as nat, |y: int| 0usize),
        decreases v - u,
    {
        cap.push(vec![0usize; v]);
        proof {
            assert(cap@[u as int]@ =~= Seq::new(v as nat, |y: int| 0usize));
        }
        u = u + 1;
    }
    proof {
        assert(caps_at_most(cap@, v as int, k as int));
        assert forall|a: int, b: int| 0 <= a < v && 0 <= b < v implies #[trigger] cv(cap@, a, b) == 0 by {
            assert(cap@[a]@ == Seq::new(v as nat, |y: int| 0usize));
        }
    }
    let mut g: usize = 0;
    while g < n
        invariant
            n == edge_caps@.len(),
            ec == edge_caps@,
            forall|a: int| 0 <= a < n ==> (#[trigger] edge_caps@[a])@.len() == n,
            v == 2 * n + 2,
            s == 2 * n,
            0 <= g <= n,
            square_caps(cap@, v as int),
            caps_at_most(cap@, v as int, k as int),
            forall|a: int, b: int|
                0 <= a < v && 0 <= b < v ==> #[trigger] cv(cap@, a, b) == (if (a == s && b < g) || (a < g && n <= b < 2 * n) {
                    net_cap(ec, k as int, a, b)
                } else {
                    0
                }),
        decreases n - g,
    {
        let ghost cb = cap@;
        set2(&mut cap, s, g, k);
        proof {
            lemma_set_at_most(cb, cap@, v as int, k as int, s as int, g as int, k);
            assert forall|a: int, b: int| 0 <= a < v && 0 <= b < v implies #[trigger] cv(cap@, a, b) == (if (a == s && b <= g) || (a
                < g && n <= b < 2 * n) {
                net_cap(ec, k as int, a, b)
            } else {
                0
            }) by {
                let old_v = if (a == s && b < g) || (a < g && n <= b < 2 * n) {
                    net_cap(ec, k as int, a, b)
                } else {
                    0
                };
                assert(cv(cb, a, b) == old_v);
                if a != s {
                    assert(cap@[a] == cb[a]);
                    assert(cv(cap@, a, b) == cv(cb, a, b));
                } else if b != g {
                    assert(cap@[a]@[b] == cb[a]@[b]);
                } else {
                    assert(cap@[a]@[b] == k);
                }
            }
        }
        let mut x: usize = 0;
        while x < n
            invariant
                n == edge_caps@.len(),
                ec == edge_caps@,
                forall|a: int| 0 <= a < n ==> (#[trigger] edge_caps@[a])@.len() == n,
                v == 2 * n + 2,
                s == 2 * n,
                0 <= g < n,
                0 <= x <= n,
                square_caps(cap@, v as int),
                caps_at_most(cap@, v as int, k as int),
                forall|a: int, b: int|
                    0 <= a < v && 0 <= b < v ==> #[trigger] cv(cap@, a, b) == (if (a == s && b <= g) || (a < g && n <= b < 2 * n)
                        || (a == g && n <= b < n + x) {
                        net_cap(ec, k as int, a, b)
                    } else {
                        0
                    }),
            decreases n - x,
        {
            let e = edge_caps[g][x];
            let c = if e < k {
                e
            } else {
                k
            };
            let ghost cb = cap@;
            set2(&mut cap, g, n + x, c);
            proof {
                lemma_set_at_most(cb, cap@, v as int, k as int, g as int, (n + x) as int, c);
                assert forall|a: int, b: int| 0 <= a < v && 0 <= b < v implies #[trigger] cv(cap@, a, b) == (if (a == s && b <= g) || (a
                    < g && n <= b < 2 * n) || (a == g && n <= b < n + x + 1) {
                    net_cap(ec, k as int, a, b)
                } else {
                    0
                }) by {
                    let old_v = if (a == s && b <= g) || (a < g && n <= b < 2 * n) || (a == g && n <= b < n + x) {
                        net_cap(ec, k as int, a, b)
                    } else {
                        0
                    };
                    assert(cv(cb, a, b) == old_v);
                    if a != g {
                        assert(cap@[a] == cb[a]);
                        assert(cv(cap@, a, b) == cv(cb, a, b));
                    } else if b != n + x {
                        assert(cap@[a]@[b] == cb[a]@[b]);
                    } else {
                        assert(b - n == x);
                        assert(cap@[a]@[b] == c);
                    }
                }
            }
            x = x + 1;
        }
        g = g + 1;
    }
    let mut x: usize = 0;
    while x < n
        invariant
            n == edge_caps@.len(),
            ec == edge_caps@,
            v == 2 * n + 2,
            s == 2 * n,
            t == 2 * n + 1,
            0 <= x <= n,
            square_caps(cap@, v as int),
            caps_at_most(cap@, v as int, k as int),
            forall|a: int, b: int|
                0 <= a < v && 0 <= b < v ==> #[trigger] cv(cap@, a, b) == (if (a == s && b < n) || (a < n && n <= b < 2 * n) || (n
                    <= a < n + x && b == t) {
                    net_cap(ec, k as int, a, b)
                } else {
                    0
                }),
        decreases n - x,
    {
        let ghost cb = cap@;
        set2(&mut cap, n + x, t, k);
        proof {
            lemma_set_at_most(cb, cap@, v as int, k as int, (n + x) as int, t as int, k);
            assert forall|a: int, b: int| 0 <= a < v && 0 <= b < v implies #[trigger] cv(cap@, a, b) == (if (a == s && b < n) || (a < n
                && n <= b < 2 * n) || (n <= a < n + x + 1 && b == t) {
                net_cap(ec, k as int, a, b)
            } else {
                0
            }) by {
                let old_v = if (a == s && b < n) || (a < n && n <= b < 2 * n) || (n <= a < n + x && b == t) {
                    net_cap(ec, k as int, a, b)
                } else {
                    0
                };
                assert(cv(cb, a, b) == old_v);
                if a != n + x {
                    assert(cap@[a] == cb[a]);
                    assert(cv(cap@, a, b) == cv(cb, a, b));
                } else if b != t {
                    assert(cap@[a]@[b] == cb[a]@[b]);
                } else {
                    assert(cap@[a]@[b] == k);
                }
            }
        }
        x = x + 1;
    }
    let ghost cap0 = cap@;
    proof {
        assert(net_ok(cap0, ec, k as int));
        assert(skew_ok(cap@, cap0, v as int));
        assert forall|i: int| 0 <= i < cap0[s as int]@.len() implies #[trigger] cap0[s as int]@[i] <= k by {
            assert(cv(cap0, s as int, i) <= k);
        }
        let row = cap0[s as int]@;
        lemma_row_split(row, n as int);
        assert forall|i: int| 0 <= i < n implies #[trigger] seg(row, 0)(i) == k by {
            assert(cv(cap0, s as int, i) == k);
        }
        lemma_sum_to_const(n as int, k as int, seg(row, 0));
        assert forall|i: int| 0 <= i < n implies #[trigger] seg(row, n as int)(i) == 0 by {
            assert(cv(cap0, s as int, n + i) == 0);
        }
        lemma_sum_to_const(n as int, 0, seg(row, n as int));
        assert(cv(cap0, s as int, s as int) == 0);
        assert(cv(cap0, s as int, t as int) == 0);
        assert(crate::regions::sum_of(row) == n * k);
        assert forall|a: int, b: int| 0 <= a < v && 0 <= b < v implies #[trigger] cv(cap0, a, b) == 0 || cv(cap0, b, a) == 0 by {
            assert(cv(cap0, a, b) == net_cap(ec, k as int, a, b));
            assert(cv(cap0, b, a) == net_cap(ec, k as int, b, a));
        }
    }
    let mut flow: usize = 0;
    loop
        invariant
            square_caps(cap@, v as int),
            square_caps(cap0, v as int),
            skew_ok(cap@, cap0, v as int),
            caps_at_most(cap0, v as int, k as int),
            one_way(cap0, v as int),
            n * k <= usize::MAX,
            n == ec.len(),
            n <= MAX_SIDE,
            forall|a: int| 0 <= a < n ==> (#[trigger] ec[a])@.len() == n,
            v == 2 * n + 2,
            s == 2 * n,
            t == 2 * n + 1,
            net_ok(cap0, ec, k as int),
            forall|u: int| 0 <= u < 2 * n ==> #[trigger] crate::regions::sum_of(cap@[u]@) == crate::regions::sum_of(cap0[u]@),
            flow + crate::regions::sum_of(cap@[s as int]@) == crate::regions::sum_of(cap0[s as int]@),
            crate::regions::sum_of(cap0[s as int]@) <= usize::MAX,
        ensures
            (flow == n * k) == transport_exists(n as int, table_fn(ec), k as int),
        decreases crate::regions::sum_of(cap@[s as int]@),
    {
        let (prev, Ghost(qpos)) = bfs(&cap, v, s, t);
        if prev[t] == usize::MAX {
            proof {
                assert(prev@[s as int] == s);
                lemma_flow_max(cap@, cap0, ec, k as int, flow as int, prev@);
                assert((n as int) * (k as int) == n * k);
            }
            break;
        }
        let b = augment(&mut cap, &prev, Ghost(qpos), Ghost(cap0), v, s, t, k);
        flow = flow + b;
    }
    proof {
        assert(k * n == n * k) by (nonlinear_arith);
    }
    flow == k * n
}

/// How many pairwise non-adjacent cells region `a` has along line `x`.
pub open spec fn greedy_fn(g: Seq<Vec<usize>>, by_row: bool) -> spec_fn(int, int) -> int {
    |a: int, x: int| greedy(g, by_row, a, x, g.len() as int).0
}

/// A solution's bulls, counted per region and line, fit the lines'
/// capacities: region `a` puts into line `x` no more bulls than it has
/// pairwise non-adjacent cells there.
pub proof fn lemma_solvable_transport(g: Seq<Vec<usize>>, s: Seq<Pos>, k: int, by_row: bool)
    requires
        labels_exact(g, g.len() as int),
        g.len() <= usize::MAX,
        crate::board::is_solution_k(g, s, k),
    ensures
        transport_exists(g.len() as int, greedy_fn(g, by_row), k),
{
    let n = g.len() as int;
    let y = bulls_tab(g, by_row, s);
    assert forall|a: int, x: int| 0 <= a < n && 0 <= x < n implies 0 <= #[trigger] y(a, x) <= greedy_fn(g, by_row)(a, x) && y(a, x) <= k by {
        crate::board::lemma_count_nonneg(s, reg_line(g, by_row, a, x, n));
        lemma_greedy_max(g, by_row, s, k, a, x, n);
        crate::board::lemma_count_mono(s, reg_line(g, by_row, a, x, n), line_is(by_row, x));
        if by_row {
            crate::board::lemma_count_ext(s, line_is(by_row, x), crate::board::in_row(x));
            assert(crate::board::count_row(s, x) == k);
        } else {
            crate::board::lemma_count_ext(s, line_is(by_row, x), crate::board::in_col(x));
            assert(crate::board::count_col_of(s, x) == k);
        }
    }
    assert forall|a: int| 0 <= a < n implies #[trigger] sum_to(n, row_fn(y, a)) == k by {
        lemma_bulls_by_line(g, by_row, s, a);
        assert(a as usize as int == a);
        assert(present(g, a as usize));
        let (r, c) = choose|r: int, c: int| 0 <= r < g.len() && 0 <= c < g.len() && #[trigger] label(g, r, c) == a as usize;
        assert(crate::board::label_set(g).contains(a as usize));
        assert(crate::board::count_label(g, s, a as usize) == k);
        crate::board::lemma_count_ext(s, region_is(g, a), |p: Pos| label(g, p.0 as int, p.1 as int) == a as usize);
    }
    assert forall|x: int| 0 <= x < n implies #[trigger] sum_to(n, col_fn(y, x)) == k by {
        lemma_bulls_by_region(g, by_row, s, x);
        if by_row {
            crate::board::lemma_count_ext(s, line_is(by_row, x), crate::board::in_row(x));
            assert(crate::board::count_row(s, x) == k);
        } else {
            crate::board::lemma_count_ext(s, line_is(by_row, x), crate::board::in_col(x));
            assert(crate::board::count_col_of(s, x) == k);
        }
    }
    assert(is_transport(n, greedy_fn(g, by_row), k, y));
}

/// A solvable board passes the routing test: a board with a solution
/// placing `k` bulls per row, column and region is `matchable`.
pub proof fn lemma_solvable_matchable(g: Seq<Vec<usize>>, s: Seq<Pos>, k: int)
    requires
        labels_exact(g, g.len() as int),
        g.len() <= usize::MAX,
        crate::board::is_solution_k(g, s, k),
    ensures
        transport_exists(g.len() as int, greedy_fn(g, true), k),
        transport_exists(g.len() as int, greedy_fn(g, false), k),
{
    lemma_solvable_transport(g, s, k, true);
    lemma_solvable_transport(g, s, k, false);
}

/// Cheap necessary condition for solvability: `k` bulls per region must
/// be routable to rows needing `k` bulls each (and likewise columns),
/// where a region can put into one line at most as many bulls as it has
/// pairwise non-adjacent cells there.
pub fn matchable(grid: &Grid, k: usize) -> (r: bool)
    requires
        crate::board::is_square(grid@),
        grid@.len() <= MAX_SIDE,
        forall|rr: int, cc: int| 0 <= rr < grid@.len() && 0 <= cc < grid@.len() ==> #[trigger] label(grid@, rr, cc) < grid@.len(),
        grid@.len() * k <= usize::MAX,
    ensures
        r == (transport_exists(grid@.len() as int, greedy_fn(grid@, true), k as int) && transport_exists(
            grid@.len() as int,
            greedy_fn(grid@, false),
            k as int,
        )),
{
    let row_caps = line_caps(grid, true);
    let col_caps = line_caps(grid, false);
    proof {
        let n = grid@.len() as int;
        crate::transport::lemma_transport_ext(n, table_fn(row_caps@), greedy_fn(grid@, true), k as int);
        crate::transport::lemma_transport_ext(n, table_fn(col_caps@), greedy_fn(grid@, false), k as int);
    }
    feasible_flow(&row_caps, k) && feasible_flow(&col_caps, k)
}

// ---------------------------------------------------------- generator

/// Grow n contiguous regions from n random seed cells until the board is
/// covered. A round-robin phase first grows every region to `MIN_REGION`
/// cells, so no region gets walled in below the size two bulls require.
pub fn random_regions(n: usize, rng: &mut SplitMix, caps: (usize, usize)) -> (g: Grid)
    requires
        n * n < usize::MAX,
        caps.0 <= caps.1 < usize::MAX,
    ensures
        labels_exact(g@, n as int),
        regions_connected(g@),
{
    let mut grid = fresh_grid(n);
    let mut frontier: Vec<(Pos, usize)> = Vec::new();
    let mut sizes: Vec<usize> = vec![0usize; n];
    proof {
        lemma_sum_zero(sizes@);
        assert(frontier_adj(frontier@, grid@));
    }
    // Pick which regions are capped, and at what size.
    let max_size = pick_caps(n, rng, caps, (CAP_MIN, CAP_MAX));
    drop_seeds(&mut grid, &mut frontier, &mut sizes, rng);
    let ghost g1 = grid@;
    grow_min(&mut grid, &mut frontier, &mut sizes, MIN_REGION, rng);
    let ghost g2 = grid@;
    grow_free(&mut grid, &mut frontier, &mut sizes, &max_size, rng);
    proof {
        if n > 0 {
            assert(present(g1, 0));
            assert(present(g2, 0));
        }
    }
    let ghost g3 = grid@;
    absorb_stranded(&mut grid, &sizes);
    proof {
        assert forall|l: usize| l < n implies #[trigger] present(grid@, l) by {
            assert(present(g1, l));
            assert(present(g2, l));
            assert(present(g3, l));
        }
        assert forall|r: int, c: int| 0 <= r < n && 0 <= c < n implies #[trigger] label(grid@, r, c) < n by {
            assert(label(grid@, r, c) != crate::regions::UNASSIGNED);
        }
    }
    grid
}

/// Generate an n x n double bullpen (two bulls per row, column and region).
/// It rerolls until a roll repairs down to exactly one solution; after
/// `u64::MAX - 1` failed rolls it gives up and returns an empty grid.
pub fn generate(n: usize, seed: u64) -> (g: Grid)
    requires
        n <= MAX_SIDE,
    ensures
        g@.len() == n || g@.len() == 0,
        g@.len() == n ==> labels_exact(g@, n as int) && regions_connected(g@) && crate::double::unique_solution(g@, K as int),
{
    let caps = num_capped(n);
    generate_capped(n, seed, caps)
}

/// After a legal repair edit of `g0` into `g1` that moves bull `p` of
/// `kill` (not of `keep`) into the region of its neighbour `q`, `keep`
/// is still a solution and the labels are still exact.
proof fn lemma_repair_step(g0: Seq<Vec<usize>>, g1: Seq<Vec<usize>>, n: int, keep: Seq<Pos>, kill: Seq<Pos>)
    requires
        labels_exact(g0, n),
        n <= MAX_SIDE,
        crate::board::is_solution_k(g0, keep, 2),
        crate::board::is_solution_k(g0, kill, 2),
        g1.len() == g0.len(),
        exists|p: Pos, q: Pos|
            {
                &&& kill.contains(p)
                &&& !keep.contains(p)
                &&& crate::grid::contiguous_without(g0, p.0, p.1)
                &&& q.0 < g0.len() && q.1 < g0.len()
                &&& crate::grid::orth_adj(p, q)
                &&& label(g0, q.0 as int, q.1 as int) != label(g0, p.0 as int, p.1 as int)
                &&& crate::grid::rows_of(g1) == crate::grid::set_label(g0, p, label(g0, q.0 as int, q.1 as int))
            },
    ensures
        labels_exact(g1, n),
        crate::board::is_solution_k(g1, keep, 2),
{
    let (p, q) = choose|p: Pos, q: Pos|
        {
            &&& kill.contains(p)
            &&& !keep.contains(p)
            &&& crate::grid::contiguous_without(g0, p.0, p.1)
            &&& q.0 < g0.len() && q.1 < g0.len()
            &&& crate::grid::orth_adj(p, q)
            &&& label(g0, q.0 as int, q.1 as int) != label(g0, p.0 as int, p.1 as int)
            &&& crate::grid::rows_of(g1) == crate::grid::set_label(g0, p, label(g0, q.0 as int, q.1 as int))
        };
    let x = choose|x: int| 0 <= x < kill.len() && kill[x] == p;
    assert(p.0 < n && p.1 < n);
    crate::genpenai::lemma_anchor_cell(g0, p.0, p.1);
    let other = choose|o: Pos|
        o.0 < g0.len() && o.1 < g0.len() && o != (p.0, p.1) && #[trigger] label(g0, o.0 as int, o.1 as int) == label(
            g0,
            p.0 as int,
            p.1 as int,
        );
    crate::regions::lemma_relabel_exact(g0, g1, n, p, other, q);
    let l = label(g0, q.0 as int, q.1 as int);
    assert(crate::board::label_set(g0).contains(l)) by {
        assert(label(g0, q.0 as int, q.1 as int) == l);
    }
    crate::grid::lemma_kill_keeps(g0, g1, keep, kill, p, l, 2);
}

/// One roll: grow a fresh board, check it, and repair it; the board when it
/// ends up with exactly one solution.
pub fn roll(n: usize, rng: &mut SplitMix, caps: (usize, usize)) -> (r: Option<Grid>)
    requires
        n <= MAX_SIDE,
        caps.0 <= caps.1 < usize::MAX,
    ensures
        r matches Some(g) ==> labels_exact(g@, n as int) && crate::double::unique_solution(g@, K as int) && regions_connected(g@),
{
    proof {
        assert(n * n <= MAX_SIDE * MAX_SIDE) by (nonlinear_arith)
            requires
                n <= MAX_SIDE,
        ;
    }
    let mut grid = random_regions(n, rng, caps);
    proof {
        crate::regions::lemma_labels_exact_board(grid@, n as int);
    }
    // Two cheap necessary conditions before paying for a solve.
    if !regions_feasible(&grid, K) || !matchable(&grid, K) {
        return None;
    }
    // Fresh board: the full "0, 1, or 2+ solutions" question.
    let mut solver = DoubleSolver::new(&grid, K);
    let sols = match solver.solve_within(SOLVE_BUDGET) {
        Some(sols) => sols,
        None => {
            return None;
        },  // proof too expensive: discard the board
    };
    if sols.len() == 0 {
        return None;  // dead board
    }
    if sols.len() == 1 {
        proof {
            let g = grid@;
            let a = sols@[0]@;
            assert(crate::board::is_solution_k(g, a, 2));
            assert forall|t: Seq<Pos>| #[trigger] crate::board::is_solution_k(g, t, 2) implies t.to_set() == a.to_set() by {
                assert(!crate::double::skipped(None, t));
                assert(crate::double::found_set(sols@, 0, t));
            }
        }
        return Some(grid);
    }
    let mut keep = crate::solver::copy_positions(&sols[0]);
    let mut other = crate::solver::copy_positions(&sols[1]);
    // Repair loop: one solution is always known (keep survives every edit),
    // so each re-solve only hunts for a solution that differs from it.
    let mut rep: usize = 0;
    while rep < MAX_REPAIRS
        invariant_except_break
            crate::board::is_solution_k(grid@, keep@, 2),
            crate::board::is_solution_k(grid@, other@, 2),
        invariant
            labels_exact(grid@, n as int),
            regions_connected(grid@),
            n <= MAX_SIDE,
            n * n <= MAX_SIDE * MAX_SIDE,
        decreases MAX_REPAIRS - rep,
    {
        let ghost g0 = grid@;
        proof {
            crate::regions::lemma_labels_exact_board(grid@, n as int);
        }
        if kill_solution(&mut grid, keep.as_slice(), other.as_slice(), rng) {
            proof {
                lemma_repair_step(g0, grid@, n as int, keep@, other@);
            }
        } else if kill_solution(&mut grid, other.as_slice(), keep.as_slice(), rng) {
            proof {
                lemma_repair_step(g0, grid@, n as int, other@, keep@);
            }
            std::mem::swap(&mut keep, &mut other);
        } else {
            break;  // no legal edit in either direction, reroll
        }
        let mut known = crate::solver::copy_positions(&keep);
        crate::double::sort_positions(&mut known);
        proof {
            crate::regions::lemma_labels_exact_board(grid@, n as int);
        }
        let mut solver = DoubleSolver::new(&grid, K);
        match solver.solve_other_within(SOLVE_BUDGET, known.as_slice()) {
            None => {
                break;
            },  // proof too expensive: discard the board
            Some(None) => {
                proof {
                    let g = grid@;
                            assert forall|t: Seq<Pos>| #[trigger] crate::board::is_solution_k(g, t, 2) implies t.to_set()
                        == keep@.to_set() by {
                        assert(t.to_multiset() == known@.to_multiset());
                        crate::double::lemma_mset_set(t, keep@);
                    }
                    assert(crate::board::is_solution_k(g, keep@, 2));
                }
                return Some(grid);
            },  // keep is the unique solution
            Some(Some(o)) => {
                other = o;
            },
        }
        rep = rep + 1;
    }
    None
}

/// Generate with a given range of capped regions; rerolls a fresh board
/// whenever repair gets stuck.
fn generate_capped(n: usize, seed: u64, caps: (usize, usize)) -> (g: Grid)
    requires
        n <= MAX_SIDE,
        caps.0 <= caps.1 < usize::MAX,
    ensures
        g@.len() == n || g@.len() == 0,
        g@.len() == n ==> labels_exact(g@, n as int) && regions_connected(g@) && crate::double::unique_solution(g@, K as int),
{
    let mut rng = SplitMix::new(seed);
    proof {
        assert(n * n <= MAX_SIDE * MAX_SIDE) by (nonlinear_arith)
            requires
                n <= MAX_SIDE,
        ;
    }
    let mut tries: u64 = 0;
    // Outer loop: reroll from scratch when a board is hopeless.
    loop
        invariant
            n <= MAX_SIDE,
            n * n <= MAX_SIDE * MAX_SIDE,
            caps.0 <= caps.1 < usize::MAX,
            tries < u64::MAX,
        decreases u64::MAX - tries,
    {
        if tries == u64::MAX - 1 {
            // practically unreachable: stop rerolling, with no board
            proof {
                crate::double::lemma_empty_unique(K as int);
            }
            return Vec::new();
        }
        tries = tries + 1;
        match roll(n, &mut rng, caps) {
            Some(grid) => {
                return grid;
            },
            None => {},
        }
    }
}

} // verus!
