use vstd::prelude::*;

use crate::connect::{frontier_adj, regions_connected, touches_region};
use crate::board::{is_board, is_square, label, label_set, Pos};
use crate::grid::{lemma_orth_spec, orth_adj, orth_neighbors, orth_spec, rows_of, set_cell, set_label};
use crate::rng::Dice;

verus! {

/// Marker for cells not yet claimed by any region during growth.
pub const UNASSIGNED: usize = usize::MAX;

/// Number of unassigned cells in a row.
pub open spec fn un_row(row: Seq<usize>) -> nat
    decreases row.len(),
{
    if row.len() == 0 {
        0
    } else {
        un_row(row.drop_last()) + if row.last() == UNASSIGNED { 1nat } else { 0nat }
    }
}

/// Number of unassigned cells.
pub open spec fn un_count(rows: Seq<Seq<usize>>) -> nat
    decreases rows.len(),
{
    if rows.len() == 0 {
        0
    } else {
        un_count(rows.drop_last()) + un_row(rows.last())
    }
}

/// Sum of the entries.
pub open spec fn sum_of(s: Seq<usize>) -> nat
    decreases s.len(),
{
    if s.len() == 0 {
        0
    } else {
        sum_of(s.drop_last()) + s.last() as nat
    }
}

/// A board being grown: n x n, every cell a region below n or unassigned.
pub open spec fn growing(g: Seq<Vec<usize>>, n: int) -> bool {
    &&& g.len() == n
    &&& forall|r: int| 0 <= r < n ==> (#[trigger] g[r])@.len() == n
    &&& forall|r: int, c: int| 0 <= r < n && 0 <= c < n ==> #[trigger] label(g, r, c) == UNASSIGNED || label(g, r, c) < n
}

/// Some cell carries label `l`.
pub open spec fn present(g: Seq<Vec<usize>>, l: usize) -> bool {
    exists|r: int, c: int| 0 <= r < g.len() && 0 <= c < g.len() && #[trigger] label(g, r, c) == l
}

/// A finished region grid: n x n, every cell labelled below n, and every
/// label below n used.
pub open spec fn labels_exact(g: Seq<Vec<usize>>, n: int) -> bool {
    &&& g.len() == n
    &&& forall|r: int| 0 <= r < n ==> (#[trigger] g[r])@.len() == n
    &&& forall|r: int, c: int| 0 <= r < n && 0 <= c < n ==> #[trigger] label(g, r, c) < n
    &&& forall|l: usize| l < n ==> #[trigger] present(g, l)
}

/// A frontier entry: a cell on the board and a region below n.
pub open spec fn frontier_ok(f: Seq<(Pos, usize)>, n: int) -> bool {
    forall|i: int| 0 <= i < f.len() ==> (#[trigger] f[i]).0.0 < n && f[i].0.1 < n && f[i].1 < n
}

/// `c` is an unassigned cell sharing a side with `d`, a cell of some region.
pub open spec fn border(g: Seq<Vec<usize>>, d: Pos, c: Pos) -> bool {
    &&& d.0 < g.len() && d.1 < g.len() && c.0 < g.len() && c.1 < g.len()
    &&& orth_adj(d, c)
    &&& label(g, c.0 as int, c.1 as int) == UNASSIGNED
    &&& label(g, d.0 as int, d.1 as int) != UNASSIGNED
}

/// Every unassigned cell next to a region is offered to that region by the
/// frontier, unless the region has reached its cap in `mx`.
pub open spec fn frontier_covers(f: Seq<(Pos, usize)>, g: Seq<Vec<usize>>, sizes: Seq<usize>, mx: Seq<usize>) -> bool {
    forall|d: Pos, c: Pos|
        #[trigger] border(g, d, c) ==> f.contains((c, label(g, d.0 as int, d.1 as int))) || sizes[label(
            g,
            d.0 as int,
            d.1 as int,
        ) as int] >= mx[label(g, d.0 as int, d.1 as int) as int]
}

/// Claiming `p` for `region` keeps the frontier covering the board, for
/// any caps, when every pair away from `p` was covered before.
pub proof fn lemma_claim_covers(
    f0: Seq<(Pos, usize)>,
    g0: Seq<Vec<usize>>,
    s0: Seq<usize>,
    f1: Seq<(Pos, usize)>,
    g1: Seq<Vec<usize>>,
    s1: Seq<usize>,
    p: Pos,
    region: usize,
    mx: Seq<usize>,
)
    requires
        growing(g0, g0.len() as int),
        g1.len() == g0.len(),
        p.0 < g0.len() && p.1 < g0.len(),
        region < g0.len(),
        region != UNASSIGNED,
        s0.len() == g0.len(),
        forall|r: int, c: int|
            0 <= r < g0.len() && 0 <= c < g0.len() && (r, c) != (p.0 as int, p.1 as int) ==> #[trigger] label(g1, r, c)
                == label(g0, r, c),
        label(g1, p.0 as int, p.1 as int) == region,
        s1 == s0.update(region as int, (s0[region as int] + 1) as usize),
        s0[region as int] < usize::MAX,
        forall|x: (Pos, usize)| f0.contains(x) ==> f1.contains(x),
        forall|c: Pos|
            c.0 < g0.len() && c.1 < g0.len() && orth_adj(p, c) && label(g1, c.0 as int, c.1 as int) == UNASSIGNED
                ==> f1.contains((c, region)),
        forall|d: Pos, c: Pos| #[trigger] border(g0, d, c) && c != p ==> f0.contains((c, label(g0, d.0 as int, d.1 as int)))
            || s0[label(g0, d.0 as int, d.1 as int) as int] >= mx[label(g0, d.0 as int, d.1 as int) as int],
    ensures
        frontier_covers(f1, g1, s1, mx),
{
    assert forall|d: Pos, c: Pos| #[trigger] border(g1, d, c) implies f1.contains((c, label(g1, d.0 as int, d.1 as int)))
        || s1[label(g1, d.0 as int, d.1 as int) as int] >= mx[label(g1, d.0 as int, d.1 as int) as int] by {
        assert(c != p);
        if d == p {
        } else {
            assert(label(g1, d.0 as int, d.1 as int) == label(g0, d.0 as int, d.1 as int));
            assert(label(g1, c.0 as int, c.1 as int) == label(g0, c.0 as int, c.1 as int));
            assert(border(g0, d, c));
            let l = label(g0, d.0 as int, d.1 as int);
            assert(l < g0.len());
            if f0.contains((c, l)) {
            } else {
                assert(s1[l as int] >= s0[l as int]);
            }
        }
    }
}

/// Taking entry `k` out of a covering frontier: every pair is still covered
/// but those of the taken cell with the taken region.
pub proof fn lemma_remove_covers(fb: Seq<(Pos, usize)>, f: Seq<(Pos, usize)>, g: Seq<Vec<usize>>, s: Seq<usize>, mx: Seq<usize>, k: int)
    requires
        0 <= k < fb.len(),
        f == fb.update(k, fb.last()).drop_last(),
        frontier_covers(fb, g, s, mx),
    ensures
        forall|x: (Pos, usize)| fb.contains(x) && x != fb[k] ==> f.contains(x),
        forall|d: Pos, c: Pos| #[trigger] border(g, d, c) && (c, label(g, d.0 as int, d.1 as int)) != fb[k] ==> f.contains(
            (c, label(g, d.0 as int, d.1 as int)),
        ) || s[label(g, d.0 as int, d.1 as int) as int] >= mx[label(g, d.0 as int, d.1 as int) as int],
{
    assert forall|x: (Pos, usize)| fb.contains(x) && x != fb[k] implies f.contains(x) by {
        let j = choose|j: int| 0 <= j < fb.len() && fb[j] == x;
        if j == fb.len() - 1 {
            assert(f[k] == x);
        } else {
            assert(f[j] == x);
        }
    }
}

/// The labels below n, as a set, have n members.
pub proof fn lemma_below_set(n: nat)
    ensures
        Set::new(|l: usize| l < n).finite(),
        Set::new(|l: usize| l < n).len() == if n <= usize::MAX + 1 { n } else { (usize::MAX + 1) as nat },
    decreases n,
{
    let s = Set::new(|l: usize| l < n);
    if n == 0 {
        assert(s =~= Set::empty());
    } else {
        lemma_below_set((n - 1) as nat);
        let s0 = Set::new(|l: usize| l < n - 1);
        if n - 1 <= usize::MAX {
            assert(s =~= s0.insert((n - 1) as usize));
            assert(!s0.contains((n - 1) as usize));
        } else {
            assert(s =~= s0);
        }
    }
}

/// A finished region grid is a board.
pub proof fn lemma_labels_exact_board(g: Seq<Vec<usize>>, n: int)
    requires
        labels_exact(g, n),
        n <= usize::MAX,
    ensures
        is_board(g),
{
    let s = Set::new(|l: usize| l < n);
    lemma_below_set(n as nat);
    assert forall|l: usize| label_set(g).contains(l) <==> s.contains(l) by {
        if label_set(g).contains(l) {
            let (r, c) = choose|r: int, c: int| 0 <= r < g.len() && 0 <= c < g[r]@.len() && #[trigger] label(g, r, c) == l;
        }
        if s.contains(l) {
            assert(present(g, l));
            let (r, c) = choose|r: int, c: int| 0 <= r < g.len() && 0 <= c < g.len() && #[trigger] label(g, r, c) == l;
            assert(g[r]@.len() == n);
        }
    }
    assert(label_set(g) =~= s);
}

/// Setting an unassigned entry of a row leaves one unassigned fewer.
pub proof fn lemma_un_row_set(row: Seq<usize>, c: int, x: usize)
    requires
        0 <= c < row.len(),
        row[c] == UNASSIGNED,
        x != UNASSIGNED,
    ensures
        un_row(row.update(c, x)) + 1 == un_row(row),
    decreases row.len(),
{
    let t = row.update(c, x);
    if c == row.len() - 1 {
        assert(t.drop_last() =~= row.drop_last());
    } else {
        assert(t.drop_last() =~= row.drop_last().update(c, x));
        lemma_un_row_set(row.drop_last(), c, x);
    }
}

/// Setting an unassigned cell leaves one unassigned cell fewer.
pub proof fn lemma_un_count_set(rows: Seq<Seq<usize>>, r: int, c: int, x: usize)
    requires
        0 <= r < rows.len(),
        0 <= c < rows[r].len(),
        rows[r][c] == UNASSIGNED,
        x != UNASSIGNED,
    ensures
        un_count(rows.update(r, rows[r].update(c, x))) + 1 == un_count(rows),
    decreases rows.len(),
{
    let t = rows.update(r, rows[r].update(c, x));
    if r == rows.len() - 1 {
        assert(t.drop_last() =~= rows.drop_last());
        lemma_un_row_set(rows[r], c, x);
    } else {
        assert(t.drop_last() =~= rows.drop_last().update(r, rows[r].update(c, x)));
        lemma_un_count_set(rows.drop_last(), r, c, x);
    }
}

/// A row holds no more unassigned cells than cells, and holds one
/// exactly when some entry is unassigned.
pub proof fn lemma_un_row_bounds(row: Seq<usize>)
    ensures
        un_row(row) <= row.len(),
        un_row(row) > 0 <==> exists|c: int| 0 <= c < row.len() && row[c] == UNASSIGNED,
    decreases row.len(),
{
    if row.len() > 0 {
        lemma_un_row_bounds(row.drop_last());
        if exists|c: int| 0 <= c < row.drop_last().len() && row.drop_last()[c] == UNASSIGNED {
            let c = choose|c: int| 0 <= c < row.drop_last().len() && row.drop_last()[c] == UNASSIGNED;
            assert(row[c] == UNASSIGNED);
        }
        if exists|c: int| 0 <= c < row.len() && row[c] == UNASSIGNED {
            let c = choose|c: int| 0 <= c < row.len() && row[c] == UNASSIGNED;
            if c < row.len() - 1 {
                assert(row.drop_last()[c] == UNASSIGNED);
            }
        }
    }
}

/// At most n * n cells are unassigned, and some is exactly when the count
/// is positive.
pub proof fn lemma_un_count_bounds(rows: Seq<Seq<usize>>, n: int)
    requires
        forall|r: int| 0 <= r < rows.len() ==> (#[trigger] rows[r]).len() == n,
        n >= 0,
    ensures
        un_count(rows) <= rows.len() * n,
        un_count(rows) > 0 <==> exists|r: int, c: int| 0 <= r < rows.len() && 0 <= c < n && rows[r][c] == UNASSIGNED,
    decreases rows.len(),
{
    if rows.len() > 0 {
        let r0 = rows.drop_last();
        assert forall|r: int| 0 <= r < r0.len() implies (#[trigger] r0[r]).len() == n by {
            assert(r0[r] == rows[r]);
        }
        lemma_un_count_bounds(r0, n);
        lemma_un_row_bounds(rows.last());
        assert(rows.last().len() == n) by {
            assert(rows[rows.len() - 1].len() == n);
        }
        assert((rows.len() - 1) * n + n == rows.len() * n) by (nonlinear_arith);
        if exists|r: int, c: int| 0 <= r < r0.len() && 0 <= c < n && r0[r][c] == UNASSIGNED {
            let (r, c) = choose|r: int, c: int| 0 <= r < r0.len() && 0 <= c < n && r0[r][c] == UNASSIGNED;
            assert(rows[r][c] == UNASSIGNED);
        }
        if exists|c: int| 0 <= c < rows.last().len() && rows.last()[c] == UNASSIGNED {
            let c = choose|c: int| 0 <= c < rows.last().len() && rows.last()[c] == UNASSIGNED;
            assert(rows[rows.len() - 1][c] == UNASSIGNED);
        }
        if exists|r: int, c: int| 0 <= r < rows.len() && 0 <= c < n && rows[r][c] == UNASSIGNED {
            let (r, c) = choose|r: int, c: int| 0 <= r < rows.len() && 0 <= c < n && rows[r][c] == UNASSIGNED;
            if r < rows.len() - 1 {
                assert(r0[r][c] == UNASSIGNED);
            } else {
                assert(rows.last()[c] == UNASSIGNED);
            }
        }
    }
}

/// Adding one to an entry adds one to the sum.
pub proof fn lemma_sum_inc(s: Seq<usize>, i: int)
    requires
        0 <= i < s.len(),
        s[i] < usize::MAX,
    ensures
        sum_of(s.update(i, (s[i] + 1) as usize)) == sum_of(s) + 1,
        s[i] <= sum_of(s),
    decreases s.len(),
{
    let t = s.update(i, (s[i] + 1) as usize);
    if i == s.len() - 1 {
        assert(t.drop_last() =~= s.drop_last());
    } else {
        assert(t.drop_last() =~= s.drop_last().update(i, (s[i] + 1) as usize));
        lemma_sum_inc(s.drop_last(), i);
    }
}

/// The rows of a square table of side n, as sequences.
pub proof fn lemma_rows_len(g: Seq<Vec<usize>>, n: int)
    requires
        g.len() == n,
        forall|r: int| 0 <= r < n ==> (#[trigger] g[r])@.len() == n,
    ensures
        forall|r: int| 0 <= r < rows_of(g).len() ==> (#[trigger] rows_of(g)[r]).len() == n,
        rows_of(g).len() == n,
        forall|r: int, c: int| 0 <= r < n && 0 <= c < n ==> rows_of(g)[r][c] == #[trigger] label(g, r, c),
{
}

/// A fresh n x n grid with every cell unassigned.
pub(crate) fn fresh_grid(n: usize) -> (g: Vec<Vec<usize>>)
    requires
        n * n < usize::MAX,
    ensures
        growing(g@, n as int),
        un_count(rows_of(g@)) == n * n,
        forall|r: int, c: int| 0 <= r < n && 0 <= c < n ==> #[trigger] label(g@, r, c) == UNASSIGNED,
{
    let mut g: Vec<Vec<usize>> = Vec::with_capacity(n);
    let mut r: usize = 0;
    while r < n
        invariant
            0 <= r <= n,
            n * n < usize::MAX,
            g@.len() == r,
            forall|rr: int| 0 <= rr < r ==> (#[trigger] g@[rr])@.len() == n,
            forall|rr: int, c: int| 0 <= rr < r && 0 <= c < n ==> #[trigger] label(g@, rr, c) == UNASSIGNED,
            un_count(rows_of(g@)) == r * n,
        decreases n - r,
    {
        let row: Vec<usize> = vec![UNASSIGNED; n];
        let ghost g0 = g@;
        g.push(row);
        proof {
            assert(rows_of(g@).drop_last() =~= rows_of(g0));
            assert(un_row(row@) == n) by {
                lemma_un_row_all(row@);
            }
            assert(r * n + n == (r + 1) * n) by (nonlinear_arith);
            assert forall|rr: int, c: int| 0 <= rr < r + 1 && 0 <= c < n implies #[trigger] label(g@, rr, c) == UNASSIGNED by {
                if rr < r {
                    assert(g@[rr] == g0[rr]);
                    assert(label(g0, rr, c) == UNASSIGNED);
                } else {
                    assert(g@[rr] == row);
                    assert(row@[c] == UNASSIGNED);
                }
            }
        }
        r = r + 1;
    }
    g
}

/// A row of unassigned cells is all unassigned.
pub proof fn lemma_un_row_all(row: Seq<usize>)
    requires
        forall|c: int| 0 <= c < row.len() ==> row[c] == UNASSIGNED,
    ensures
        un_row(row) == row.len(),
    decreases row.len(),
{
    if row.len() > 0 {
        lemma_un_row_all(row.drop_last());
    }
}

/// Claim cell `p` for `region`: label it, count it, and offer its
/// still-unassigned side neighbours to the region's frontier.
pub(crate) fn claim(
    grid: &mut Vec<Vec<usize>>,
    frontier: &mut Vec<(Pos, usize)>,
    sizes: &mut Vec<usize>,
    p: Pos,
    region: usize,
)
    requires
        growing(old(grid)@, old(grid)@.len() as int),
        old(grid)@.len() * old(grid)@.len() < usize::MAX,
        p.0 < old(grid)@.len(),
        p.1 < old(grid)@.len(),
        label(old(grid)@, p.0 as int, p.1 as int) == UNASSIGNED,
        region < old(grid)@.len(),
        old(sizes)@.len() == old(grid)@.len(),
        sum_of(old(sizes)@) + un_count(rows_of(old(grid)@)) == old(grid)@.len() * old(grid)@.len(),
        frontier_ok(old(frontier)@, old(grid)@.len() as int),
    ensures
        rows_of(final(grid)@) == set_label(old(grid)@, p, region),
        final(grid)@.len() == old(grid)@.len(),
        growing(final(grid)@, old(grid)@.len() as int),
        un_count(rows_of(final(grid)@)) + 1 == un_count(rows_of(old(grid)@)),
        final(sizes)@ == old(sizes)@.update(region as int, (old(sizes)@[region as int] + 1) as usize),
        sum_of(final(sizes)@) + un_count(rows_of(final(grid)@)) == old(grid)@.len() * old(grid)@.len(),
        frontier_ok(final(frontier)@, old(grid)@.len() as int),
        forall|r: int, c: int|
            0 <= r < old(grid)@.len() && 0 <= c < old(grid)@.len() && (r, c) != (p.0 as int, p.1 as int) ==> #[trigger] label(
                final(grid)@,
                r,
                c,
            ) == label(old(grid)@, r, c),
        label(final(grid)@, p.0 as int, p.1 as int) == region,
        frontier_adj(old(frontier)@, old(grid)@) ==> frontier_adj(final(frontier)@, final(grid)@),
        regions_connected(old(grid)@) && (touches_region(old(grid)@, p, region) || !present(old(grid)@, region))
            ==> regions_connected(final(grid)@),
        forall|x: (Pos, usize)| old(frontier)@.contains(x) ==> final(frontier)@.contains(x),
        forall|c: Pos|
            c.0 < old(grid)@.len() && c.1 < old(grid)@.len() && orth_adj(p, c) && label(final(grid)@, c.0 as int, c.1 as int)
                == UNASSIGNED ==> final(frontier)@.contains((c, region)),
        old(sizes)@[region as int] < usize::MAX,
{
    let n = grid.len();
    let ghost g0 = grid@;
    let ghost f0 = frontier@;
    let ghost nn = n as int;
    proof {
        lemma_rows_len(g0, nn);
        lemma_un_count_bounds(rows_of(g0), nn);
        assert(rows_of(g0)[p.0 as int][p.1 as int] == UNASSIGNED);
        assert(un_count(rows_of(g0)) > 0);
        assert(rows_of(g0).len() * nn == nn * nn);
        lemma_sum_inc_bound(sizes@, region as int, nn * nn);
    }
    let (r, c) = p;
    set_cell(grid, r, c, region);
    proof {
        lemma_un_count_set(rows_of(g0), r as int, c as int, region);
        assert(rows_of(g0).update(r as int, rows_of(g0)[r as int].update(c as int, region)) =~= set_label(g0, p, region));
        assert forall|rr: int| 0 <= rr < nn implies (#[trigger] grid@[rr])@.len() == nn by {
            assert(rows_of(grid@)[rr] == grid@[rr]@);
        }
        assert forall|rr: int, cc: int| 0 <= rr < nn && 0 <= cc < nn implies #[trigger] label(grid@, rr, cc) == (if (rr, cc)
            == (r as int, c as int) { region } else { label(g0, rr, cc) }) by {
            assert(rows_of(grid@)[rr] == grid@[rr]@);
        }
    }
    let ghost s0 = sizes@;
    let v = sizes[region] + 1;
    sizes.set(region, v);
    proof {
        lemma_sum_inc(s0, region as int);
        assert(n < usize::MAX) by (nonlinear_arith)
            requires
                nn * nn < usize::MAX,
                nn == n,
        ;
        let g1 = grid@;
        assert forall|x: Pos| x.0 < n && x.1 < n implies #[trigger] label(g1, x.0 as int, x.1 as int) == (if x == p {
            region
        } else {
            label(g0, x.0 as int, x.1 as int)
        }) by {
            assert(label(g1, x.0 as int, x.1 as int) == (if (x.0 as int, x.1 as int) == (r as int, c as int) {
                region
            } else {
                label(g0, x.0 as int, x.1 as int)
            }));
        }
        if regions_connected(g0) && (touches_region(g0, p, region) || !present(g0, region)) {
            crate::connect::lemma_assign_connected(g0, g1, p, region);
        }
        if frontier_adj(f0, g0) {
            assert forall|i: int| 0 <= i < f0.len() implies (#[trigger] f0[i]).1 != UNASSIGNED by {
                assert(f0[i].1 < nn);
            }
            crate::connect::lemma_frontier_keep(f0, g0, g1);
        }
    }
    let ghost g1 = grid@;
    let nbs = orth_neighbors(r, c, n);
    proof {
        lemma_orth_spec(r, c, n);
    }
    let mut k: usize = 0;
    while k < nbs.len()
        invariant
            0 <= k <= nbs@.len(),
            nbs@ == orth_spec(r, c, n),
            forall|i: int| 0 <= i < nbs@.len() ==> (#[trigger] nbs@[i]).0 < n && nbs@[i].1 < n,
            frontier_ok(frontier@, n as int),
            growing(grid@, n as int),
            n == grid@.len(),
            region < n,
            grid@ == g1,
            label(g1, r as int, c as int) == region,
            r < n && c < n,
            frontier_adj(f0, g0) ==> frontier_adj(frontier@, g1),
            f0.len() <= frontier@.len(),
            forall|i: int| 0 <= i < f0.len() ==> frontier@[i] == f0[i],
            forall|i: int|
                0 <= i < k && label(g1, nbs@[i].0 as int, nbs@[i].1 as int) == UNASSIGNED ==> frontier@.contains(
                    (#[trigger] nbs@[i], region),
                ),
        decreases nbs@.len() - k,
    {
        let (nr, nc) = nbs[k];
        proof {
            assert(nbs@[k as int].0 < n);
            assert(grid@[nr as int]@.len() == n);
        }
        if grid[nr][nc] == UNASSIGNED {
            let ghost fb = frontier@;
            frontier.push(((nr, nc), region));
            proof {
                assert(frontier@[fb.len() as int] == (nbs@[k as int], region));
                assert forall|i: int|
                    0 <= i < k + 1 && label(g1, nbs@[i].0 as int, nbs@[i].1 as int) == UNASSIGNED implies frontier@.contains(
                    (#[trigger] nbs@[i], region),
                ) by {
                    if i < k {
                        let j = choose|j: int| 0 <= j < fb.len() && fb[j] == (nbs@[i], region);
                        assert(frontier@[j] == fb[j]);
                    }
                }
                assert(orth_spec(r, c, n).contains(nbs@[k as int]));
                assert(orth_adj((nr, nc), (r, c)));
                if frontier_adj(f0, g0) {
                    assert forall|i: int| 0 <= i < frontier@.len() implies #[trigger] touches_region(g1, frontier@[i].0, frontier@[i].1) by {
                        if i < fb.len() {
                            assert(frontier@[i] == fb[i]);
                            assert(touches_region(g1, fb[i].0, fb[i].1));
                        } else {
                            assert(orth_adj(frontier@[i].0, (r, c)));
                        }
                    }
                }
            }
        }
        k = k + 1;
    }
    proof {
        assert forall|x: (Pos, usize)| f0.contains(x) implies frontier@.contains(x) by {
            let j = choose|j: int| 0 <= j < f0.len() && f0[j] == x;
            assert(frontier@[j] == f0[j]);
        }
        assert forall|q: Pos|
            q.0 < n && q.1 < n && orth_adj(p, q) && label(grid@, q.0 as int, q.1 as int) == UNASSIGNED implies frontier@.contains(
            (q, region),
        ) by {
            assert(orth_spec(r, c, n).contains(q));
            let i = choose|i: int| 0 <= i < nbs@.len() && nbs@[i] == q;
            assert(label(g1, nbs@[i].0 as int, nbs@[i].1 as int) == UNASSIGNED);
        }
    }
}

/// An entry is at most the sum, so one below `bound` more fits.
pub proof fn lemma_sum_inc_bound(s: Seq<usize>, i: int, bound: int)
    requires
        0 <= i < s.len(),
        sum_of(s) < bound,
        bound <= usize::MAX,
    ensures
        s[i] + 1 < usize::MAX + 1,
        s[i] <= sum_of(s),
    decreases s.len(),
{
    if i < s.len() - 1 {
        lemma_sum_inc_bound(s.drop_last(), i, bound);
        assert(s.drop_last()[i] == s[i]);
    }
}

/// The first unassigned cell in row-major order.
fn first_unassigned(grid: &Vec<Vec<usize>>) -> (p: Pos)
    requires
        growing(grid@, grid@.len() as int),
        un_count(rows_of(grid@)) > 0,
    ensures
        p.0 < grid@.len(),
        p.1 < grid@.len(),
        label(grid@, p.0 as int, p.1 as int) == UNASSIGNED,
{
    let n = grid.len();
    proof {
        lemma_rows_len(grid@, n as int);
        lemma_un_count_bounds(rows_of(grid@), n as int);
    }
    let ghost w = choose|r: int, c: int| 0 <= r < n && 0 <= c < n && rows_of(grid@)[r][c] == UNASSIGNED;
    let mut r: usize = 0;
    while r < n
        invariant
            0 <= r <= n,
            n == grid@.len(),
            growing(grid@, n as int),
            0 <= w.0 < n && 0 <= w.1 < n,
            label(grid@, w.0, w.1) == UNASSIGNED,
            r <= w.0,
        decreases n - r,
    {
        let mut c: usize = 0;
        while c < n
            invariant
                0 <= c <= n,
                0 <= r < n,
                n == grid@.len(),
                growing(grid@, n as int),
                0 <= w.0 < n && 0 <= w.1 < n,
                label(grid@, w.0, w.1) == UNASSIGNED,
                r <= w.0,
                r == w.0 ==> c <= w.1,
            decreases n - c,
        {
            proof {
                assert(grid@[r as int]@.len() == n);
            }
            if grid[r][c] == UNASSIGNED {
                return (r, c);
            }
            c = c + 1;
        }
        r = r + 1;
    }
    (0, 0)
}

/// The first side neighbour of (r, c), in `orth_spec` order, that is
/// already assigned.
pub(crate) fn first_assigned_neighbor(grid: &Vec<Vec<usize>>, r: usize, c: usize) -> (q: Option<Pos>)
    requires
        growing(grid@, grid@.len() as int),
        r < grid@.len(),
        c < grid@.len(),
    ensures
        q matches Some(p) ==> orth_spec(r, c, grid@.len() as usize).contains(p) && p.0 < grid@.len() && p.1 < grid@.len()
            && label(grid@, p.0 as int, p.1 as int) != UNASSIGNED,
        q is None ==> forall|i: int|
            0 <= i < orth_spec(r, c, grid@.len() as usize).len() ==> label(
                grid@,
                (#[trigger] orth_spec(r, c, grid@.len() as usize)[i]).0 as int,
                orth_spec(r, c, grid@.len() as usize)[i].1 as int,
            ) == UNASSIGNED,
{
    let n = grid.len();
    let nbs = orth_neighbors(r, c, n);
    proof {
        lemma_orth_spec(r, c, n);
    }
    let mut k: usize = 0;
    while k < nbs.len()
        invariant
            0 <= k <= nbs@.len(),
            nbs@ == orth_spec(r, c, n),
            n == grid@.len(),
            growing(grid@, n as int),
            forall|i: int| 0 <= i < nbs@.len() ==> (#[trigger] nbs@[i]).0 < n && nbs@[i].1 < n,
            forall|i: int| 0 <= i < k ==> label(grid@, (#[trigger] nbs@[i]).0 as int, nbs@[i].1 as int) == UNASSIGNED,
        decreases nbs@.len() - k,
    {
        let (y, x) = nbs[k];
        proof {
            assert(nbs@[k as int].0 < n);
            assert(grid@[y as int]@.len() == n);
        }
        if grid[y][x] != UNASSIGNED {
            proof {
                assert(nbs@[k as int] == (y, x));
            }
            return Some((y, x));
        }
        k = k + 1;
    }
    None
}

/// Drop n seeds on distinct random cells, one per region.
pub(crate) fn drop_seeds<R: Dice>(
    grid: &mut Vec<Vec<usize>>,
    frontier: &mut Vec<(Pos, usize)>,
    sizes: &mut Vec<usize>,
    rng: &mut R,
)
    requires
        growing(old(grid)@, old(grid)@.len() as int),
        old(grid)@.len() * old(grid)@.len() < usize::MAX,
        un_count(rows_of(old(grid)@)) == old(grid)@.len() * old(grid)@.len(),
        old(sizes)@.len() == old(grid)@.len(),
        sum_of(old(sizes)@) == 0,
        frontier_ok(old(frontier)@, old(grid)@.len() as int),
        frontier_adj(old(frontier)@, old(grid)@),
        forall|r: int, c: int| 0 <= r < old(grid)@.len() && 0 <= c < old(grid)@.len() ==> #[trigger] label(old(grid)@, r, c) == UNASSIGNED,
    ensures
        final(grid)@.len() == old(grid)@.len(),
        growing(final(grid)@, old(grid)@.len() as int),
        final(sizes)@.len() == old(grid)@.len(),
        sum_of(final(sizes)@) + un_count(rows_of(final(grid)@)) == old(grid)@.len() * old(grid)@.len(),
        frontier_ok(final(frontier)@, old(grid)@.len() as int),
        forall|l: usize| l < old(grid)@.len() ==> #[trigger] present(final(grid)@, l),
        regions_connected(final(grid)@),
        frontier_adj(final(frontier)@, final(grid)@),
        forall|mx: Seq<usize>| #[trigger] frontier_covers(final(frontier)@, final(grid)@, final(sizes)@, mx),
{
    proof {
        crate::connect::lemma_blank_connected(grid@);
        assert forall|mx: Seq<usize>| #[trigger] frontier_covers(frontier@, grid@, sizes@, mx) by {
            assert forall|d: Pos, c: Pos| !(#[trigger] border(grid@, d, c)) by {}
        }
    }
    let n = grid.len();
    let ghost nn = n as int;
    let mut region: usize = 0;
    while region < n
        invariant
            0 <= region <= n,
            n == grid@.len(),
            nn == n,
            nn * nn < usize::MAX,
            growing(grid@, nn),
            sizes@.len() == n,
            sum_of(sizes@) + un_count(rows_of(grid@)) == nn * nn,
            un_count(rows_of(grid@)) == nn * nn - region,
            frontier_ok(frontier@, nn),
            forall|l: usize| l < region ==> #[trigger] present(grid@, l),
            regions_connected(grid@),
            frontier_adj(frontier@, grid@),
            forall|r: int, c: int| 0 <= r < nn && 0 <= c < nn ==> #[trigger] label(grid@, r, c) == UNASSIGNED || label(grid@, r, c) < region,
            forall|mx: Seq<usize>| #[trigger] frontier_covers(frontier@, grid@, sizes@, mx),
        decreases n - region,
    {
        proof {
            assert(nn * nn >= nn) by (nonlinear_arith)
                requires
                    nn >= 1,
            ;
        }
        let ghost g0 = grid@;
        let mut tries: u64 = 0;
        let mut done = false;
        while !done && tries < u64::MAX
            invariant
                n == grid@.len(),
                nn == n,
                0 <= region < n,
                nn * nn < usize::MAX,
                growing(grid@, nn),
                sizes@.len() == n,
                sum_of(sizes@) + un_count(rows_of(grid@)) == nn * nn,
                frontier_ok(frontier@, nn),
                !done ==> grid@ == g0,
                done ==> un_count(rows_of(grid@)) + 1 == un_count(rows_of(g0)),
                done ==> present(grid@, region),
                forall|l: usize| l < region && present(g0, l) ==> #[trigger] present(grid@, l),
                un_count(rows_of(g0)) == nn * nn - region,
                forall|l: usize| l < region ==> #[trigger] present(g0, l),
                regions_connected(grid@),
                frontier_adj(frontier@, grid@),
                forall|mx: Seq<usize>| #[trigger] frontier_covers(frontier@, grid@, sizes@, mx),
                forall|r: int, c: int| 0 <= r < nn && 0 <= c < nn ==> #[trigger] label(grid@, r, c) == UNASSIGNED || label(grid@, r, c) < region + 1,
                forall|r: int, c: int| 0 <= r < nn && 0 <= c < nn ==> #[trigger] label(g0, r, c) == UNASSIGNED || label(g0, r, c) < region,
            decreases u64::MAX - tries, (if done { 0int } else { 1int }),
        {
            let r = rng.pick(0, n - 1);
            let c = rng.pick(0, n - 1);
            proof {
                assert(grid@[r as int]@.len() == n);
            }
            if grid[r][c] == UNASSIGNED {
                let ghost g1 = grid@;
                proof {
                    assert(!present(g1, region)) by {
                        if present(g1, region) {
                            let (rr, cc) = choose|rr: int, cc: int| 0 <= rr < g1.len() && 0 <= cc < g1.len() && #[trigger] label(g1, rr, cc) == region;
                            assert(label(g0, rr, cc) == region);
                        }
                    }
                }
                let ghost fb = frontier@;
                let ghost sb = sizes@;
                claim(grid, frontier, sizes, (r, c), region);
                proof {
                    assert forall|mx: Seq<usize>| #[trigger] frontier_covers(frontier@, grid@, sizes@, mx) by {
                        assert(frontier_covers(fb, g1, sb, mx));
                        lemma_claim_covers(fb, g1, sb, frontier@, grid@, sizes@, (r, c), region, mx);
                    }
                    assert(label(grid@, r as int, c as int) == region);
                    assert forall|l: usize| l < region && present(g0, l) implies #[trigger] present(grid@, l) by {
                        let (rr, cc) = choose|rr: int, cc: int| 0 <= rr < g0.len() && 0 <= cc < g0.len() && #[trigger] label(g0, rr, cc) == l;
                        assert(label(grid@, rr, cc) == l);
                    }
                }
                done = true;
            }
            tries = tries + 1;
        }
        if !done {
            // practically unreachable: take the first free cell
            proof {
                assert(un_count(rows_of(grid@)) > 0);
            }
            let p = first_unassigned(grid);
            proof {
                let g1 = grid@;
                assert(!present(g1, region)) by {
                    if present(g1, region) {
                        let (rr, cc) = choose|rr: int, cc: int| 0 <= rr < g1.len() && 0 <= cc < g1.len() && #[trigger] label(g1, rr, cc) == region;
                        assert(label(g0, rr, cc) == region);
                    }
                }
            }
            let ghost g1 = grid@;
            let ghost fb = frontier@;
            let ghost sb = sizes@;
            claim(grid, frontier, sizes, p, region);
            proof {
                assert forall|mx: Seq<usize>| #[trigger] frontier_covers(frontier@, grid@, sizes@, mx) by {
                    assert(frontier_covers(fb, g1, sb, mx));
                    lemma_claim_covers(fb, g1, sb, frontier@, grid@, sizes@, p, region, mx);
                }
                assert forall|l: usize| l < region && present(g0, l) implies #[trigger] present(grid@, l) by {
                    let (rr, cc) = choose|rr: int, cc: int| 0 <= rr < g0.len() && 0 <= cc < g0.len() && #[trigger] label(g0, rr, cc) == l;
                    assert(label(grid@, rr, cc) == l);
                }
                assert(label(grid@, p.0 as int, p.1 as int) == region);
            }
        }
        proof {
            assert forall|l: usize| l < region + 1 implies #[trigger] present(grid@, l) by {
                if l < region {
                    assert(present(g0, l));
                }
            }
        }
        region = region + 1;
    }
}

/// Free growth: random frontier moves until the frontier is exhausted;
/// a move claims its cell unless the cell is taken or the region is full.
pub(crate) fn grow_free<R: Dice>(
    grid: &mut Vec<Vec<usize>>,
    frontier: &mut Vec<(Pos, usize)>,
    sizes: &mut Vec<usize>,
    max_size: &Vec<usize>,
    rng: &mut R,
)
    requires
        growing(old(grid)@, old(grid)@.len() as int),
        old(grid)@.len() * old(grid)@.len() < usize::MAX,
        old(sizes)@.len() == old(grid)@.len(),
        max_size@.len() == old(grid)@.len(),
        sum_of(old(sizes)@) + un_count(rows_of(old(grid)@)) == old(grid)@.len() * old(grid)@.len(),
        frontier_ok(old(frontier)@, old(grid)@.len() as int),
        frontier_adj(old(frontier)@, old(grid)@),
        regions_connected(old(grid)@),
    ensures
        final(grid)@.len() == old(grid)@.len(),
        growing(final(grid)@, old(grid)@.len() as int),
        final(sizes)@.len() == old(grid)@.len(),
        sum_of(final(sizes)@) + un_count(rows_of(final(grid)@)) == old(grid)@.len() * old(grid)@.len(),
        forall|l: usize| l < old(grid)@.len() && present(old(grid)@, l) ==> #[trigger] present(final(grid)@, l),
        regions_connected(final(grid)@),
        final(frontier)@.len() == 0,
        frontier_covers(old(frontier)@, old(grid)@, old(sizes)@, max_size@) ==> forall|d: Pos, c: Pos|
            #[trigger] border(final(grid)@, d, c) ==> final(sizes)@[label(final(grid)@, d.0 as int, d.1 as int) as int]
                >= max_size@[label(final(grid)@, d.0 as int, d.1 as int) as int],
{
    let n = grid.len();
    let ghost nn = n as int;
    let ghost g0 = grid@;
    let ghost cov = frontier_covers(frontier@, grid@, sizes@, max_size@);
    while frontier.len() > 0
        invariant
            n == grid@.len(),
            nn == n,
            nn * nn < usize::MAX,
            growing(grid@, nn),
            sizes@.len() == n,
            max_size@.len() == n,
            sum_of(sizes@) + un_count(rows_of(grid@)) == nn * nn,
            frontier_ok(frontier@, nn),
            forall|l: usize| l < n && present(g0, l) ==> #[trigger] present(grid@, l),
            frontier_adj(frontier@, grid@),
            regions_connected(grid@),
            cov ==> frontier_covers(frontier@, grid@, sizes@, max_size@),
        decreases un_count(rows_of(grid@)), frontier@.len(),
    {
        // swap_remove a random move: O(1) removal, order doesn't matter
        let k = rng.pick(0, frontier.len() - 1);
        let ghost fb = frontier@;
        let (pos, region) = frontier.swap_remove(k);
        proof {
            assert(touches_region(grid@, fb[k as int].0, fb[k as int].1));
            assert forall|i: int| 0 <= i < frontier@.len() implies #[trigger] touches_region(grid@, frontier@[i].0, frontier@[i].1) by {
                if i == k {
                    assert(frontier@[i] == fb[fb.len() - 1]);
                    assert(touches_region(grid@, fb[fb.len() - 1].0, fb[fb.len() - 1].1));
                } else {
                    assert(frontier@[i] == fb[i]);
                    assert(touches_region(grid@, fb[i].0, fb[i].1));
                }
            }
            assert(frontier_ok(frontier@, nn)) by {
                assert forall|i: int| 0 <= i < frontier@.len() implies (#[trigger] frontier@[i]).0.0 < nn && frontier@[i].0.1 < nn
                    && frontier@[i].1 < nn by {
                    let old_f = old(frontier)@;
                }
            }
            assert(grid@[pos.0 as int]@.len() == n);
        }
        proof {
            if cov {
                lemma_remove_covers(fb, frontier@, grid@, sizes@, max_size@, k as int);
            }
        }
        if grid[pos.0][pos.1] == UNASSIGNED && sizes[region] < max_size[region] {
            let ghost g1 = grid@;
            let ghost fm = frontier@;
            let ghost sb = sizes@;
            proof {
                assert forall|d: Pos, c: Pos| cov && #[trigger] border(g1, d, c) && c != pos implies fm.contains(
                    (c, label(g1, d.0 as int, d.1 as int)),
                ) || sb[label(g1, d.0 as int, d.1 as int) as int] >= max_size@[label(g1, d.0 as int, d.1 as int) as int] by {
                    assert((c, label(g1, d.0 as int, d.1 as int)) != fb[k as int]);
                }
            }
            claim(grid, frontier, sizes, pos, region);
            proof {
                if cov {
                    lemma_claim_covers(fm, g1, sb, frontier@, grid@, sizes@, pos, region, max_size@);
                }
                assert forall|l: usize| l < n && present(g0, l) implies #[trigger] present(grid@, l) by {
                    assert(present(g1, l));
                    let (rr, cc) = choose|rr: int, cc: int| 0 <= rr < g1.len() && 0 <= cc < g1.len() && #[trigger] label(g1, rr, cc) == l;
                    assert(label(grid@, rr, cc) == l);
                }
            }
        } else {
            proof {
                let g1 = grid@;
                assert forall|d: Pos, c: Pos| cov && #[trigger] border(g1, d, c) implies frontier@.contains(
                    (c, label(g1, d.0 as int, d.1 as int)),
                ) || sizes@[label(g1, d.0 as int, d.1 as int) as int] >= max_size@[label(g1, d.0 as int, d.1 as int) as int] by {
                    let l = label(g1, d.0 as int, d.1 as int);
                    if (c, l) == fb[k as int] {
                        assert(c == pos && l == region);
                    }
                }
            }
        }
    }
    proof {
        let g1 = grid@;
        assert forall|d: Pos, c: Pos| cov && #[trigger] border(g1, d, c) implies sizes@[label(g1, d.0 as int, d.1 as int) as int]
            >= max_size@[label(g1, d.0 as int, d.1 as int) as int] by {
            assert(!frontier@.contains((c, label(g1, d.0 as int, d.1 as int))));
        }
    }
}

/// Walking from an assigned cell to an unassigned one, somewhere an
/// unassigned cell sits next to an assigned one.
pub proof fn lemma_boundary(g: Seq<Vec<usize>>, n: int, a: Pos, u: Pos)
    requires
        growing(g, n),
        a.0 < n && a.1 < n && u.0 < n && u.1 < n,
        label(g, a.0 as int, a.1 as int) != UNASSIGNED,
        label(g, u.0 as int, u.1 as int) == UNASSIGNED,
    ensures
        exists|p: Pos, q: Pos|
            p.0 < n && p.1 < n && q.0 < n && q.1 < n && label(g, p.0 as int, p.1 as int) == UNASSIGNED && label(
                g,
                q.0 as int,
                q.1 as int,
            ) != UNASSIGNED && #[trigger] orth_adj(p, q),
    decreases crate::board::absdiff(a.0 as int, u.0 as int) + crate::board::absdiff(a.1 as int, u.1 as int),
{
    // one step from a towards u
    let b: Pos = if a.0 < u.0 {
        ((a.0 + 1) as usize, a.1)
    } else if a.0 > u.0 {
        ((a.0 - 1) as usize, a.1)
    } else if a.1 < u.1 {
        (a.0, (a.1 + 1) as usize)
    } else {
        (a.0, (a.1 - 1) as usize)
    };
    assert(orth_adj(a, b));
    if label(g, b.0 as int, b.1 as int) == UNASSIGNED {
        assert(orth_adj(b, a));
    } else {
        lemma_boundary(g, n, b, u);
    }
}

/// Sum of the region sizes.
pub(crate) fn sum_sizes(sizes: &Vec<usize>) -> (s: usize)
    requires
        sum_of(sizes@) <= usize::MAX,
    ensures
        s == sum_of(sizes@),
{
    let mut s: usize = 0;
    let mut k: usize = 0;
    while k < sizes.len()
        invariant
            0 <= k <= sizes@.len(),
            s == sum_of(sizes@.take(k as int)),
            sum_of(sizes@) <= usize::MAX,
        decreases sizes@.len() - k,
    {
        proof {
            assert(sizes@.take(k + 1).drop_last() =~= sizes@.take(k as int));
            lemma_sum_prefix(sizes@, k + 1);
        }
        s = s + sizes[k];
        k = k + 1;
    }
    proof {
        assert(sizes@.take(k as int) =~= sizes@);
    }
    s
}

/// Prefix sums never exceed the whole sum.
pub proof fn lemma_sum_prefix(s: Seq<usize>, k: int)
    requires
        0 <= k <= s.len(),
    ensures
        sum_of(s.take(k)) <= sum_of(s),
    decreases s.len(),
{
    if k < s.len() {
        assert(s.take(k) =~= s.drop_last().take(k));
        lemma_sum_prefix(s.drop_last(), k);
    } else {
        assert(s.take(k) =~= s);
    }
}

/// The unassigned cells in row-major order.
pub(crate) fn unassigned_cells(grid: &Vec<Vec<usize>>) -> (v: Vec<Pos>)
    requires
        growing(grid@, grid@.len() as int),
    ensures
        v@.no_duplicates(),
        forall|p: Pos|
            v@.contains(p) <==> (p.0 < grid@.len() && p.1 < grid@.len() && label(grid@, p.0 as int, p.1 as int)
                == UNASSIGNED),
{
    let n = grid.len();
    let mut v: Vec<Pos> = Vec::new();
    let mut r: usize = 0;
    while r < n
        invariant
            0 <= r <= n,
            n == grid@.len(),
            growing(grid@, n as int),
            v@.no_duplicates(),
            forall|i: int| 0 <= i < v@.len() ==> (#[trigger] v@[i]).0 < r,
            forall|p: Pos| v@.contains(p) <==> (p.0 < r && p.1 < n && label(grid@, p.0 as int, p.1 as int) == UNASSIGNED),
        decreases n - r,
    {
        let mut c: usize = 0;
        while c < n
            invariant
                0 <= c <= n,
                0 <= r < n,
                n == grid@.len(),
                growing(grid@, n as int),
                v@.no_duplicates(),
                forall|i: int| 0 <= i < v@.len() ==> (#[trigger] v@[i]).0 < r || (v@[i].0 == r && v@[i].1 < c),
                forall|p: Pos|
                    v@.contains(p) <==> ((p.0 < r && p.1 < n) || (p.0 == r && p.1 < c)) && label(grid@, p.0 as int, p.1 as int)
                        == UNASSIGNED,
            decreases n - c,
        {
            proof {
                assert(grid@[r as int]@.len() == n);
            }
            if grid[r][c] == UNASSIGNED {
                let ghost v0 = v@;
                v.push((r, c));
                proof {
                    assert forall|p: Pos| v@.contains(p) <==> ((p.0 < r && p.1 < n) || (p.0 == r && p.1 < c + 1)) && label(
                        grid@, p.0 as int, p.1 as int) == UNASSIGNED by {
                        if v@.contains(p) {
                            let i = choose|i: int| 0 <= i < v@.len() && v@[i] == p;
                            if i < v0.len() {
                                assert(v0.contains(p));
                            }
                        }
                        if ((p.0 < r && p.1 < n) || (p.0 == r && p.1 < c + 1)) && label(grid@, p.0 as int, p.1 as int)
                            == UNASSIGNED {
                            if p != (r, c) {
                                assert(v0.contains(p));
                                let i = choose|i: int| 0 <= i < v0.len() && v0[i] == p;
                                assert(v@[i] == p);
                            } else {
                                assert(v@[v0.len() as int] == p);
                            }
                        }
                    }
                    assert(!v0.contains((r, c))) by {
                        if v0.contains((r, c)) {
                            let i = choose|i: int| 0 <= i < v0.len() && v0[i] == (r, c);
                            assert(v0[i].0 < r || (v0[i].0 == r && v0[i].1 < c));
                        }
                    }
                }
            }
            c = c + 1;
        }
        r = r + 1;
    }
    v
}

/// Cells walled off by full capped regions get absorbed into any
/// assigned neighbor. This may push a capped region past its cap —
/// fine, the cap is a bias, not an invariant.
pub(crate) fn absorb_stranded(grid: &mut Vec<Vec<usize>>, sizes: &Vec<usize>)
    requires
        growing(old(grid)@, old(grid)@.len() as int),
        old(grid)@.len() * old(grid)@.len() < usize::MAX,
        sizes@.len() == old(grid)@.len(),
        sum_of(sizes@) + un_count(rows_of(old(grid)@)) == old(grid)@.len() * old(grid)@.len(),
        old(grid)@.len() > 0 ==> present(old(grid)@, 0),
        regions_connected(old(grid)@),
    ensures
        final(grid)@.len() == old(grid)@.len(),
        growing(final(grid)@, old(grid)@.len() as int),
        forall|r: int, c: int|
            0 <= r < old(grid)@.len() && 0 <= c < old(grid)@.len() ==> #[trigger] label(final(grid)@, r, c) != UNASSIGNED,
        forall|l: usize| l < old(grid)@.len() && present(old(grid)@, l) ==> #[trigger] present(final(grid)@, l),
        regions_connected(final(grid)@),
{
    let n = grid.len();
    let ghost nn = n as int;
    let ghost g0 = grid@;
    proof {
        lemma_rows_len(grid@, nn);
        lemma_un_count_bounds(rows_of(grid@), nn);
    }
    if sum_sizes(sizes) < n * n {
        let mut stranded = unassigned_cells(grid);
        while stranded.len() > 0
            invariant
                n == grid@.len(),
                nn == n,
                nn * nn < usize::MAX,
                growing(grid@, nn),
                n > 0,
                present(grid@, 0),
                stranded@.no_duplicates(),
                forall|p: Pos|
                    stranded@.contains(p) <==> (p.0 < n && p.1 < n && label(grid@, p.0 as int, p.1 as int) == UNASSIGNED),
                forall|l: usize| l < n && present(g0, l) ==> #[trigger] present(grid@, l),
                regions_connected(grid@),
            decreases stranded@.len(),
        {
            let ghost len0 = stranded@.len();
            let ghost gp = grid@;
            let mut i: usize = 0;
            while i < stranded.len()
                invariant
                    n == grid@.len(),
                    nn == n,
                    growing(grid@, nn),
                    n > 0,
                    present(grid@, 0),
                    stranded@.no_duplicates(),
                    forall|p: Pos|
                        stranded@.contains(p) <==> (p.0 < n && p.1 < n && label(grid@, p.0 as int, p.1 as int) == UNASSIGNED),
                    forall|l: usize| l < n && present(g0, l) ==> #[trigger] present(grid@, l),
                    regions_connected(grid@),
                    nn * nn < usize::MAX,
                    0 <= i <= stranded@.len(),
                    stranded@.len() <= len0,
                    stranded@.len() == len0 ==> grid@ == gp,
                    stranded@.len() == len0 ==> forall|j: int|
                        0 <= j < i ==> forall|k: int|
                            0 <= k < orth_spec((#[trigger] stranded@[j]).0, stranded@[j].1, n).len() ==> label(
                                grid@,
                                orth_spec(stranded@[j].0, stranded@[j].1, n)[k].0 as int,
                                orth_spec(stranded@[j].0, stranded@[j].1, n)[k].1 as int,
                            ) == UNASSIGNED,
                decreases stranded@.len() - i,
            {
                let (r, c) = stranded[i];
                proof {
                    assert(stranded@.contains((r, c)));
                }
                let found = first_assigned_neighbor(grid, r, c);
                match found {
                    Some(q) => {
                        let (y, x) = q;
                        proof {
                            assert(grid@[y as int]@.len() == n);
                        }
                        let l = grid[y][x];
                        let ghost g1 = grid@;
                        let ghost st1 = stranded@;
                        set_cell(grid, r, c, l);
                        stranded.swap_remove(i);
                        proof {
                            assert forall|rr: int| 0 <= rr < nn implies (#[trigger] grid@[rr])@.len() == nn by {
                                assert(rows_of(grid@)[rr] == grid@[rr]@);
                            }
                            assert forall|rr: int, cc: int| 0 <= rr < nn && 0 <= cc < nn implies #[trigger] label(grid@, rr, cc)
                                == (if (rr, cc) == (r as int, c as int) { l } else { label(g1, rr, cc) }) by {
                                assert(rows_of(grid@)[rr] == grid@[rr]@);
                            }
                            assert forall|x: Pos| x.0 < n && x.1 < n implies #[trigger] label(grid@, x.0 as int, x.1 as int) == (if x
                                == (r, c) {
                                l
                            } else {
                                label(g1, x.0 as int, x.1 as int)
                            }) by {
                                assert(label(grid@, x.0 as int, x.1 as int) == (if (x.0 as int, x.1 as int) == (r as int, c as int) {
                                    l
                                } else {
                                    label(g1, x.0 as int, x.1 as int)
                                }));
                            }
                            assert(orth_adj((r, c), q));
                            assert(touches_region(g1, (r, c), l));
                            assert(st1.contains((r, c)));
                            assert(n < usize::MAX) by (nonlinear_arith)
                                requires
                                    nn * nn < usize::MAX,
                                    nn == n,
                            ;
                            crate::connect::lemma_assign_connected(g1, grid@, (r, c), l);
                            assert(growing(grid@, nn));
                            assert forall|ll: usize| ll < n && present(g0, ll) implies #[trigger] present(grid@, ll) by {
                                assert(present(g1, ll));
                                let (rr, cc) = choose|rr: int, cc: int| 0 <= rr < g1.len() && 0 <= cc < g1.len() && #[trigger] label(g1, rr, cc) == ll;
                                assert(label(grid@, rr, cc) == ll);
                            }
                            assert(present(grid@, 0)) by {
                                let (rr, cc) = choose|rr: int, cc: int| 0 <= rr < g1.len() && 0 <= cc < g1.len() && #[trigger] label(g1, rr, cc) == 0;
                                assert(label(grid@, rr, cc) == 0);
                            }
                            // the swap_remove keeps the others and drops (r, c)
                            assert forall|p: Pos| stranded@.contains(p) <==> (p.0 < n && p.1 < n && label(grid@, p.0 as int, p.1 as int)
                                == UNASSIGNED) by {
                                if stranded@.contains(p) {
                                    let j = choose|j: int| 0 <= j < stranded@.len() && stranded@[j] == p;
                                    if j == i {
                                        assert(p == st1[st1.len() - 1]);
                                        assert(p != (r, c));
                                    } else {
                                        assert(p == st1[j]);
                                        assert(j != i);
                                    }
                                    assert(st1.contains(p));
                                }
                                if p.0 < n && p.1 < n && label(grid@, p.0 as int, p.1 as int) == UNASSIGNED {
                                    assert(p != (r, c));
                                    assert(st1.contains(p));
                                    let j = choose|j: int| 0 <= j < st1.len() && st1[j] == p;
                                    assert(j != i);
                                    if j == st1.len() - 1 {
                                        assert(stranded@[i as int] == p);
                                    } else {
                                        assert(stranded@[j] == p);
                                    }
                                }
                            }
                            assert(stranded@.no_duplicates()) by {
                                assert forall|a: int, b: int| 0 <= a < stranded@.len() && 0 <= b < stranded@.len() && a != b implies stranded@[a]
                                    != stranded@[b] by {
                                    let a0 = if a == i { st1.len() - 1 } else { a };
                                    let b0 = if b == i { st1.len() - 1 } else { b };
                                    assert(stranded@[a] == st1[a0]);
                                    assert(stranded@[b] == st1[b0]);
                                }
                            }
                        }
                    },
                    None => {
                        i = i + 1;
                    },
                }
            }
            proof {
                if stranded@.len() == len0 {
                    // no progress would mean no stranded cell touches an assigned one
                    let gg = grid@;
                    assert(present(gg, 0));
                    let (ru, cu) = choose|ru: int, cu: int| 0 <= ru < gg.len() && 0 <= cu < gg.len() && #[trigger] label(gg, ru, cu) == 0;
                    let u = stranded@[0];
                    assert(stranded@.contains(u));
                    lemma_boundary(grid@, nn, (ru as usize, cu as usize), u);
                    let (p, q) = choose|p: Pos, q: Pos|
                        p.0 < nn && p.1 < nn && q.0 < nn && q.1 < nn && label(grid@, p.0 as int, p.1 as int) == UNASSIGNED && label(
                            grid@, q.0 as int, q.1 as int) != UNASSIGNED && #[trigger] orth_adj(p, q);
                    assert(stranded@.contains(p));
                    let j = choose|j: int| 0 <= j < stranded@.len() && stranded@[j] == p;
                    lemma_orth_spec(p.0, p.1, n);
                    assert(orth_spec(p.0, p.1, n).contains(q));
                    let k = choose|k: int| 0 <= k < orth_spec(p.0, p.1, n).len() && orth_spec(p.0, p.1, n)[k] == q;
                    assert(stranded@[j] == p);
                }
            }
        }
        proof {
            assert forall|r: int, c: int| 0 <= r < nn && 0 <= c < nn implies #[trigger] label(grid@, r, c) != UNASSIGNED by {
                if label(grid@, r, c) == UNASSIGNED {
                    assert(stranded@.contains((r as usize, c as usize)));
                }
            }
        }
    } else {
        proof {
            assert(un_count(rows_of(grid@)) == 0);
            assert forall|r: int, c: int| 0 <= r < nn && 0 <= c < nn implies #[trigger] label(grid@, r, c) != UNASSIGNED by {
                assert(rows_of(grid@)[r][c] == label(grid@, r, c));
            }
        }
    }
}

/// Pick which regions are capped, and at what size: a random choice of
/// `caps`-many regions (at most n) each get a cap drawn from `cap_size`;
/// the rest are uncapped.
pub fn pick_caps<R: Dice>(n: usize, rng: &mut R, caps: (usize, usize), cap_size: (usize, usize)) -> (max_size: Vec<usize>)
    requires
        caps.0 <= caps.1 < usize::MAX,
        cap_size.0 <= cap_size.1 < usize::MAX,
    ensures
        max_size@.len() == n,
        forall|j: int| 0 <= j < n ==> #[trigger] max_size@[j] == usize::MAX || cap_size.0 <= max_size@[j] <= cap_size.1,
        capped_regions(max_size@).finite(),
        (if caps.0 < n { caps.0 as int } else { n as int }) <= capped_regions(max_size@).len() <= (if caps.1 < n {
            caps.1 as int
        } else {
            n as int
        }),
{
    let mut max_size: Vec<usize> = vec![usize::MAX; n];
    let mut order: Vec<usize> = Vec::with_capacity(n);
    let mut i: usize = 0;
    while i < n
        invariant
            0 <= i <= n,
            order@.len() == i,
            forall|j: int| 0 <= j < i ==> #[trigger] order@[j] == j,
        decreases n - i,
    {
        order.push(i);
        i = i + 1;
    }
    let ghost o0 = order@;
    rng.mix_up(&mut order);
    proof {
        assert forall|j: int| 0 <= j < order@.len() implies #[trigger] order@[j] < n by {
            vstd::seq_lib::to_multiset_contains(order@, order@[j]);
            vstd::seq_lib::to_multiset_contains(o0, order@[j]);
            let k = choose|k: int| 0 <= k < o0.len() && o0[k] == order@[j];
        }
        assert(o0.no_duplicates());
        o0.lemma_multiset_has_no_duplicates();
        order@.lemma_multiset_has_no_duplicates_conv();
    }
    let t = rng.pick(caps.0, caps.1);
    let take = if t < n { t } else { n };
    let mut k: usize = 0;
    while k < take
        invariant
            0 <= k <= take,
            take <= n,
            order@.len() == n,
            order@.no_duplicates(),
            forall|j: int| 0 <= j < order@.len() ==> #[trigger] order@[j] < n,
            max_size@.len() == n,
            cap_size.0 <= cap_size.1 < usize::MAX,
            forall|j: int| 0 <= j < n ==> #[trigger] max_size@[j] == usize::MAX || cap_size.0 <= max_size@[j] <= cap_size.1,
            capped_regions(max_size@) == order@.take(k as int).to_set(),
        decreases take - k,
    {
        let region = order[k];
        let v = rng.pick(cap_size.0, cap_size.1);
        let ghost m0 = max_size@;
        max_size.set(region, v);
        proof {
            assert(capped_regions(max_size@) =~= order@.take(k + 1).to_set()) by {
                assert forall|j: usize| capped_regions(max_size@).contains(j) <==> order@.take(k + 1).to_set().contains(j) by {
                    if j == region {
                        assert(order@.take(k + 1)[k as int] == region);
                    } else {
                        if order@.take(k + 1).to_set().contains(j) {
                            let m = choose|m: int| 0 <= m < k + 1 && #[trigger] order@.take(k + 1)[m] == j;
                            assert(m != k);
                            assert(order@.take(k as int)[m] == j);
                        }
                        if order@.take(k as int).to_set().contains(j) {
                            let m = choose|m: int| 0 <= m < k && #[trigger] order@.take(k as int)[m] == j;
                            assert(order@.take(k + 1)[m] == j);
                        }
                    }
                }
            }
        }
        k = k + 1;
    }
    proof {
        let tk = order@.take(take as int);
        assert(tk.no_duplicates()) by {
            assert forall|a: int, b: int| 0 <= a < tk.len() && 0 <= b < tk.len() && a != b implies tk[a] != tk[b] by {
                assert(tk[a] == order@[a] && tk[b] == order@[b]);
            }
        }
        tk.unique_seq_to_set();
        vstd::seq_lib::seq_to_set_is_finite(tk);
    }
    max_size
}

/// The regions given a size cap.
pub open spec fn capped_regions(max_size: Seq<usize>) -> Set<usize> {
    Set::new(|j: usize| (j as int) < max_size.len() && max_size[j as int] != usize::MAX)
}

/// No frontier entry of region `l` offers a free cell.
pub open spec fn no_move(f: Seq<(Pos, usize)>, g: Seq<Vec<usize>>, l: usize) -> bool {
    forall|i: int| 0 <= i < f.len() && (#[trigger] f[i]).1 == l ==> label(g, f[i].0.0 as int, f[i].0.1 as int) != UNASSIGNED
}

/// Round-robin growth: each round, every region still under `min_size`
/// cells claims one random frontier cell of its own, until a round
/// grows nothing (a region with no legal move left is walled in).
pub fn grow_min<R: Dice>(
    grid: &mut Vec<Vec<usize>>,
    frontier: &mut Vec<(Pos, usize)>,
    sizes: &mut Vec<usize>,
    min_size: usize,
    rng: &mut R,
)
    requires
        growing(old(grid)@, old(grid)@.len() as int),
        old(grid)@.len() * old(grid)@.len() < usize::MAX,
        old(sizes)@.len() == old(grid)@.len(),
        sum_of(old(sizes)@) + un_count(rows_of(old(grid)@)) == old(grid)@.len() * old(grid)@.len(),
        frontier_ok(old(frontier)@, old(grid)@.len() as int),
        frontier_adj(old(frontier)@, old(grid)@),
        regions_connected(old(grid)@),
    ensures
        final(grid)@.len() == old(grid)@.len(),
        growing(final(grid)@, old(grid)@.len() as int),
        final(sizes)@.len() == old(grid)@.len(),
        sum_of(final(sizes)@) + un_count(rows_of(final(grid)@)) == old(grid)@.len() * old(grid)@.len(),
        frontier_ok(final(frontier)@, old(grid)@.len() as int),
        forall|l: usize| l < old(grid)@.len() && present(old(grid)@, l) ==> #[trigger] present(final(grid)@, l),
        frontier_adj(final(frontier)@, final(grid)@),
        regions_connected(final(grid)@),
        forall|mx: Seq<usize>|
            frontier_covers(old(frontier)@, old(grid)@, old(sizes)@, mx) ==> #[trigger] frontier_covers(
                final(frontier)@,
                final(grid)@,
                final(sizes)@,
                mx,
            ),
        (forall|mx: Seq<usize>| #[trigger] frontier_covers(old(frontier)@, old(grid)@, old(sizes)@, mx)) ==> forall|d: Pos, c: Pos|
            #[trigger] border(final(grid)@, d, c) ==> final(sizes)@[label(final(grid)@, d.0 as int, d.1 as int) as int]
                >= min_size,
{
    let n = grid.len();
    let ghost nn = n as int;
    let ghost g0 = grid@;
    let ghost f0 = frontier@;
    let ghost s0 = sizes@;
    let ghost cov = forall|mx: Seq<usize>| #[trigger] frontier_covers(f0, g0, s0, mx);
    loop
        invariant
            n == grid@.len(),
            nn == n,
            nn * nn < usize::MAX,
            growing(grid@, nn),
            sizes@.len() == n,
            sum_of(sizes@) + un_count(rows_of(grid@)) == nn * nn,
            frontier_ok(frontier@, nn),
            forall|l: usize| l < n && present(g0, l) ==> #[trigger] present(grid@, l),
            frontier_adj(frontier@, grid@),
            regions_connected(grid@),
            forall|mx: Seq<usize>| frontier_covers(f0, g0, s0, mx) ==> #[trigger] frontier_covers(frontier@, grid@, sizes@, mx),
            cov == (forall|mx: Seq<usize>| #[trigger] frontier_covers(f0, g0, s0, mx)),
        ensures
            cov ==> forall|d: Pos, c: Pos|
                #[trigger] border(grid@, d, c) ==> sizes@[label(grid@, d.0 as int, d.1 as int) as int] >= min_size,
        decreases un_count(rows_of(grid@)),
    {
        let ghost u0 = un_count(rows_of(grid@));
        let ghost gr = grid@;
        let ghost fr = frontier@;
        let ghost sr = sizes@;
        let mut grew = false;
        let mut region: usize = 0;
        while region < n
            invariant
                0 <= region <= n,
                n == grid@.len(),
                nn == n,
                nn * nn < usize::MAX,
                growing(grid@, nn),
                sizes@.len() == n,
                sum_of(sizes@) + un_count(rows_of(grid@)) == nn * nn,
                frontier_ok(frontier@, nn),
                forall|l: usize| l < n && present(g0, l) ==> #[trigger] present(grid@, l),
                grew ==> un_count(rows_of(grid@)) < u0,
                !grew ==> un_count(rows_of(grid@)) == u0,
                frontier_adj(frontier@, grid@),
                regions_connected(grid@),
                forall|mx: Seq<usize>| frontier_covers(f0, g0, s0, mx) ==> #[trigger] frontier_covers(frontier@, grid@, sizes@, mx),
                !grew ==> grid@ == gr && frontier@ == fr && sizes@ == sr,
                !grew ==> forall|l: usize| l < region ==> sizes@[l as int] >= min_size || #[trigger] no_move(frontier@, grid@, l),
            decreases n - region,
        {
            if sizes[region] < min_size {
                // this region's own legal moves
                let mut moves: Vec<Pos> = Vec::new();
                let mut k: usize = 0;
                while k < frontier.len()
                    invariant
                        0 <= k <= frontier@.len(),
                        n == grid@.len(),
                        growing(grid@, nn),
                        nn == n,
                        frontier_ok(frontier@, nn),
                        forall|i: int|
                            0 <= i < moves@.len() ==> (#[trigger] moves@[i]).0 < n && moves@[i].1 < n && label(
                                grid@,
                                moves@[i].0 as int,
                                moves@[i].1 as int,
                            ) == UNASSIGNED,
                        frontier_adj(frontier@, grid@),
                        forall|i: int| 0 <= i < moves@.len() ==> #[trigger] touches_region(grid@, moves@[i], region),
                        moves@.len() == 0 ==> forall|i: int|
                            0 <= i < k && (#[trigger] frontier@[i]).1 == region ==> label(
                                grid@,
                                frontier@[i].0.0 as int,
                                frontier@[i].0.1 as int,
                            ) != UNASSIGNED,
                    decreases frontier@.len() - k,
                {
                    let (p, reg) = frontier[k];
                    proof {
                        assert(frontier@[k as int].0.0 < n);
                        assert(grid@[p.0 as int]@.len() == n);
                    }
                    if reg == region && grid[p.0][p.1] == UNASSIGNED {
                        let ghost mv = moves@;
                        moves.push(p);
                        proof {
                            assert(touches_region(grid@, frontier@[k as int].0, frontier@[k as int].1));
                            assert forall|i: int| 0 <= i < moves@.len() implies #[trigger] touches_region(grid@, moves@[i], region) by {
                                if i < mv.len() {
                                    assert(moves@[i] == mv[i]);
                                }
                            }
                        }
                    }
                    k = k + 1;
                }
                if moves.len() > 0 {
                    let m = rng.pick(0, moves.len() - 1);
                    let pos = moves[m];
                    let ghost g1 = grid@;
                    proof {
                        assert(touches_region(g1, moves@[m as int], region));
                    }
                    let ghost fb = frontier@;
                    let ghost sb = sizes@;
                    claim(grid, frontier, sizes, pos, region);
                    proof {
                        assert forall|mx: Seq<usize>| frontier_covers(f0, g0, s0, mx) implies #[trigger] frontier_covers(
                            frontier@,
                            grid@,
                            sizes@,
                            mx,
                        ) by {
                            assert(frontier_covers(fb, g1, sb, mx));
                            lemma_claim_covers(fb, g1, sb, frontier@, grid@, sizes@, pos, region, mx);
                        }
                        assert forall|l: usize| l < n && present(g0, l) implies #[trigger] present(grid@, l) by {
                            assert(present(g1, l));
                            let (rr, cc) = choose|rr: int, cc: int| 0 <= rr < g1.len() && 0 <= cc < g1.len() && #[trigger] label(g1, rr, cc) == l;
                            assert(label(grid@, rr, cc) == l);
                        }
                    }
                    grew = true;
                } else {
                    proof {
                        assert(no_move(frontier@, grid@, region));
                    }
                }
            }
            proof {
                if !grew {
                    assert forall|l: usize| l < region + 1 implies sizes@[l as int] >= min_size || #[trigger] no_move(
                        frontier@,
                        grid@,
                        l,
                    ) by {}
                }
            }
            region = region + 1;
        }
        if !grew {
            proof {
                let mx = Seq::new(n as nat, |i: int| min_size);
                assert forall|d: Pos, c: Pos| cov && #[trigger] border(grid@, d, c) implies sizes@[label(
                    grid@,
                    d.0 as int,
                    d.1 as int,
                ) as int] >= min_size by {
                    let l = label(grid@, d.0 as int, d.1 as int);
                    assert(l < n);
                    assert(frontier_covers(f0, g0, s0, mx));
                    assert(frontier_covers(frontier@, grid@, sizes@, mx));
                    if sizes@[l as int] < min_size {
                        assert(no_move(frontier@, grid@, l));
                        if frontier@.contains((c, l)) {
                            let i = choose|i: int| 0 <= i < frontier@.len() && frontier@[i] == (c, l);
                            assert(frontier@[i].1 == l);
                        }
                    }
                }
            }
            break;
        }
    }
}

/// All-zero sizes sum to zero.
pub proof fn lemma_sum_zero(s: Seq<usize>)
    requires
        forall|i: int| 0 <= i < s.len() ==> s[i] == 0,
    ensures
        sum_of(s) == 0,
    decreases s.len(),
{
    if s.len() > 0 {
        lemma_sum_zero(s.drop_last());
    }
}

/// A grid relabelled at one cell whose region keeps another cell, with a
/// label already in use, still uses exactly the labels below n.
pub proof fn lemma_relabel_exact(g: Seq<Vec<usize>>, g2: Seq<Vec<usize>>, n: int, p: Pos, other: Pos, q: Pos)
    requires
        labels_exact(g, n),
        g2.len() == g.len(),
        p.0 < n && p.1 < n,
        other.0 < n && other.1 < n,
        other != p,
        label(g, other.0 as int, other.1 as int) == label(g, p.0 as int, p.1 as int),
        q.0 < n && q.1 < n,
        rows_of(g2) == set_label(g, p, label(g, q.0 as int, q.1 as int)),
    ensures
        labels_exact(g2, n),
{
    let l = label(g, q.0 as int, q.1 as int);
    assert forall|r: int| 0 <= r < n implies (#[trigger] g2[r])@.len() == n by {
        assert(rows_of(g2)[r] == g2[r]@);
        assert(rows_of(g)[r] == g[r]@);
    }
    assert forall|r: int, c: int| 0 <= r < n && 0 <= c < n implies #[trigger] label(g2, r, c) == (if (r, c) == (
    p.0 as int, p.1 as int) { l } else { label(g, r, c) }) by {
        assert(rows_of(g2)[r] == g2[r]@);
        assert(rows_of(g)[r] == g[r]@);
    }
    assert forall|x: usize| x < n implies #[trigger] present(g2, x) by {
        assert(present(g, x));
        let (r, c) = choose|r: int, c: int| 0 <= r < g.len() && 0 <= c < g.len() && #[trigger] label(g, r, c) == x;
        if (r, c) == (p.0 as int, p.1 as int) {
            assert(label(g2, other.0 as int, other.1 as int) == x);
        } else {
            assert(label(g2, r, c) == x);
        }
    }
}

} // verus!
