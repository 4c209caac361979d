use vstd::prelude::*;

use crate::board::{absdiff, count_where, is_solution_k, label, label_set, Pos};
use crate::rng::Dice;

verus! {

/// Up/down/left/right neighbours of (r, c) inside an n x n board, in that
/// order.
pub open spec fn orth_spec(r: usize, c: usize, n: usize) -> Seq<Pos> {
    let a: Seq<Pos> = if r >= 1 { seq![((r - 1) as usize, c)] } else { Seq::empty() };
    let b: Seq<Pos> = if r + 1 < n { seq![((r + 1) as usize, c)] } else { Seq::empty() };
    let d: Seq<Pos> = if c >= 1 { seq![(r, (c - 1) as usize)] } else { Seq::empty() };
    let e: Seq<Pos> = if c + 1 < n { seq![(r, (c + 1) as usize)] } else { Seq::empty() };
    a + b + d + e
}

/// Two cells share a side.
pub open spec fn orth_adj(a: Pos, b: Pos) -> bool {
    ||| a.0 == b.0 && absdiff(a.1 as int, b.1 as int) == 1
    ||| a.1 == b.1 && absdiff(a.0 as int, b.0 as int) == 1
}

/// The neighbours listed by `orth_spec` are exactly the on-board cells
/// sharing a side with (r, c).
pub proof fn lemma_orth_spec(r: usize, c: usize, n: usize)
    requires
        r < n,
        c < n,
    ensures
        forall|p: Pos| orth_spec(r, c, n).contains(p) <==> (p.0 < n && p.1 < n && orth_adj((r, c), p)),
        forall|i: int|
            0 <= i < orth_spec(r, c, n).len() ==> (#[trigger] orth_spec(r, c, n)[i]).0 < n && orth_spec(r, c, n)[i].1
                < n,
        orth_spec(r, c, n).no_duplicates(),
{
    let s = orth_spec(r, c, n);
    let la: int = if r >= 1 { 1 } else { 0 };
    let lb: int = if r + 1 < n { 1 } else { 0 };
    let ld: int = if c >= 1 { 1 } else { 0 };
    assert forall|p: Pos| s.contains(p) <==> (p.0 < n && p.1 < n && orth_adj((r, c), p)) by {
        if p.0 < n && p.1 < n && orth_adj((r, c), p) {
            if p.0 == r {
                if p.1 + 1 == c {
                    assert(s[la + lb] == p);
                } else {
                    assert(p.1 == c + 1);
                    assert(s[la + lb + ld] == p);
                }
            } else {
                assert(p.1 == c);
                if p.0 + 1 == r {
                    assert(s[0] == p);
                } else {
                    assert(s[la] == p);
                }
            }
        }
        if s.contains(p) {
            let i = choose|i: int| 0 <= i < s.len() && s[i] == p;
        }
    }
}

/// Up/down/left/right neighbors of (r, c) inside an n x n board.
pub fn orth_neighbors(r: usize, c: usize, n: usize) -> (v: Vec<Pos>)
    requires
        r < n,
        c < n,
    ensures
        v@ == orth_spec(r, c, n),
{
    let mut v: Vec<Pos> = Vec::with_capacity(4);
    if r >= 1 {
        v.push((r - 1, c));
    }
    if r + 1 < n {
        v.push((r + 1, c));
    }
    if c >= 1 {
        v.push((r, c - 1));
    }
    if c + 1 < n {
        v.push((r, c + 1));
    }
    proof {
        assert(v@ =~= orth_spec(r, c, n));
    }
    v
}

/// `g` with cell `p` relabelled `l`.
pub open spec fn set_label(g: Seq<Vec<usize>>, p: Pos, l: usize) -> Seq<Seq<usize>> {
    g.map_values(|row: Vec<usize>| row@).update(p.0 as int, g[p.0 as int]@.update(p.1 as int, l))
}

/// The rows of `g` as sequences.
pub open spec fn rows_of(g: Seq<Vec<usize>>) -> Seq<Seq<usize>> {
    g.map_values(|row: Vec<usize>| row@)
}

/// Relabel cell (r, c).
pub fn set_cell(grid: &mut Vec<Vec<usize>>, r: usize, c: usize, l: usize)
    requires
        r < old(grid)@.len(),
        c < old(grid)@[r as int]@.len(),
    ensures
        rows_of(final(grid)@) == set_label(old(grid)@, (r, c), l),
        final(grid)@.len() == old(grid)@.len(),
{
    let mut row = grid[r].clone();
    proof {
        assert(row@ =~= grid@[r as int]@);
    }
    row.set(c, l);
    grid.set(r, row);
    proof {
        assert(rows_of(grid@) =~= set_label(old(grid)@, (r, c), l));
    }
}

/// Whether `p` occurs in `s`.
pub fn contains_pos(s: &[Pos], p: Pos) -> (r: bool)
    ensures
        r == s@.contains(p),
{
    let mut k: usize = 0;
    while k < s.len()
        invariant
            0 <= k <= s@.len(),
            forall|i: int| 0 <= i < k ==> s@[i] != p,
        decreases s@.len() - k,
    {
        if s[k].0 == p.0 && s[k].1 == p.1 {
            return true;
        }
        k = k + 1;
    }
    false
}

/// Cell `p` is on the board, in region `reg`, and is not `avoid`.
pub open spec fn in_region(g: Seq<Vec<usize>>, reg: usize, avoid: Pos, p: Pos) -> bool {
    &&& p.0 < g.len()
    &&& p.1 < g.len()
    &&& label(g, p.0 as int, p.1 as int) == reg
    &&& p != avoid
}

/// Step `i` of walk `w` goes to a side neighbour.
pub open spec fn walk_step(w: Seq<Pos>, i: int) -> bool {
    orth_adj(w[i], w[i + 1])
}

/// `w` walks through region `reg` by side steps, never entering `avoid`.
pub open spec fn is_walk(g: Seq<Vec<usize>>, reg: usize, avoid: Pos, w: Seq<Pos>) -> bool {
    &&& w.len() > 0
    &&& forall|i: int| 0 <= i < w.len() ==> in_region(g, reg, avoid, #[trigger] w[i])
    &&& forall|i: int| 0 <= i < w.len() - 1 ==> #[trigger] walk_step(w, i)
}

/// `a` and `b` are joined inside region `reg` without passing `avoid`.
pub open spec fn linked(g: Seq<Vec<usize>>, reg: usize, avoid: Pos, a: Pos, b: Pos) -> bool {
    exists|w: Seq<Pos>| #[trigger] is_walk(g, reg, avoid, w) && w[0] == a && w.last() == b
}

/// The cells of `s` whose label is `reg`, in order.
pub open spec fn same_label(g: Seq<Vec<usize>>, reg: usize, s: Seq<Pos>) -> Seq<Pos>
    decreases s.len(),
{
    if s.len() == 0 {
        Seq::empty()
    } else {
        let t = same_label(g, reg, s.drop_last());
        if label(g, s.last().0 as int, s.last().1 as int) == reg {
            t.push(s.last())
        } else {
            t
        }
    }
}

/// The side neighbours of (r, c) in its own region.
pub open spec fn anchors_of(g: Seq<Vec<usize>>, r: usize, c: usize) -> Seq<Pos> {
    same_label(g, label(g, r as int, c as int), orth_spec(r, c, g.len() as usize))
}

/// Region of (r, c) minus (r, c) is still connected through its anchors:
/// (r, c) has a neighbour in its region, and all such neighbours are
/// joined without passing (r, c).
pub open spec fn contiguous_without(g: Seq<Vec<usize>>, r: usize, c: usize) -> bool {
    let an = anchors_of(g, r, c);
    let reg = label(g, r as int, c as int);
    &&& an.len() > 0
    &&& forall|i: int| 0 <= i < an.len() ==> #[trigger] linked(g, reg, (r, c), an[0], an[i])
}

/// Members of `same_label` carry the label and come from `s`.
pub proof fn lemma_same_label(g: Seq<Vec<usize>>, reg: usize, s: Seq<Pos>)
    ensures
        forall|i: int|
            0 <= i < same_label(g, reg, s).len() ==> label(
                g,
                (#[trigger] same_label(g, reg, s)[i]).0 as int,
                same_label(g, reg, s)[i].1 as int,
            ) == reg && s.contains(same_label(g, reg, s)[i]),
    decreases s.len(),
{
    if s.len() > 0 {
        lemma_same_label(g, reg, s.drop_last());
        let t = same_label(g, reg, s.drop_last());
        assert forall|i: int| 0 <= i < t.len() implies s.contains(#[trigger] t[i]) by {
            assert(s.drop_last().contains(t[i]));
            let j = choose|j: int| 0 <= j < s.drop_last().len() && s.drop_last()[j] == t[i];
            assert(s[j] == t[i]);
        }
        assert(s[s.len() - 1] == s.last());
    }
}

/// The index of cell `p` in a row-major n x n table.
pub open spec fn cell_index(n: int, p: Pos) -> int {
    p.0 * n + p.1
}

/// Row-major indices are in range and tell cells apart.
pub proof fn lemma_cell_index(n: int, p: Pos, q: Pos)
    requires
        p.0 < n,
        p.1 < n,
        q.0 < n,
        q.1 < n,
    ensures
        0 <= cell_index(n, p) < n * n,
        cell_index(n, p) == cell_index(n, q) ==> p == q,
{
    assert(0 <= cell_index(n, p) < n * n) by (nonlinear_arith)
        requires
            p.0 < n,
            p.1 < n,
            0 <= p.0,
            0 <= p.1,
    ;
    if cell_index(n, p) == cell_index(n, q) {
        if p.0 < q.0 {
            assert(p.0 * n + p.1 < q.0 * n) by (nonlinear_arith)
                requires
                    p.0 < q.0,
                    p.1 < n,
            ;
        } else if q.0 < p.0 {
            assert(q.0 * n + q.1 < p.0 * n) by (nonlinear_arith)
                requires
                    q.0 < p.0,
                    q.1 < n,
            ;
        }
    }
}

/// Number of `false` entries.
pub open spec fn num_false(s: Seq<bool>) -> nat
    decreases s.len(),
{
    if s.len() == 0 {
        0
    } else {
        num_false(s.drop_last()) + if s.last() { 0nat } else { 1nat }
    }
}

/// Setting a `false` entry to `true` leaves one `false` fewer.
pub proof fn lemma_num_false_set(s: Seq<bool>, i: int)
    requires
        0 <= i < s.len(),
        !s[i],
    ensures
        num_false(s.update(i, true)) + 1 == num_false(s),
    decreases s.len(),
{
    let t = s.update(i, true);
    if i == s.len() - 1 {
        assert(t.drop_last() =~= s.drop_last());
    } else {
        assert(t.drop_last() =~= s.drop_last().update(i, true));
        lemma_num_false_set(s.drop_last(), i);
    }
}

/// Turning entries `true` never adds `false` ones.
pub proof fn lemma_num_false_mono(s: Seq<bool>, t: Seq<bool>)
    requires
        s.len() == t.len(),
        forall|i: int| 0 <= i < s.len() && s[i] ==> t[i],
    ensures
        num_false(t) <= num_false(s),
    decreases s.len(),
{
    if s.len() > 0 {
        lemma_num_false_mono(s.drop_last(), t.drop_last());
    }
}

/// Extending a walk by a side step into the region.
pub proof fn lemma_walk_push(g: Seq<Vec<usize>>, reg: usize, avoid: Pos, w: Seq<Pos>, q: Pos)
    requires
        is_walk(g, reg, avoid, w),
        in_region(g, reg, avoid, q),
        orth_adj(w.last(), q),
    ensures
        is_walk(g, reg, avoid, w.push(q)),
        w.push(q)[0] == w[0],
        w.push(q).last() == q,
{
    let w2 = w.push(q);
    assert forall|i: int| 0 <= i < w2.len() - 1 implies #[trigger] walk_step(w2, i) by {
        if i < w.len() - 1 {
            assert(walk_step(w, i));
        }
    }
    assert forall|i: int| 0 <= i < w2.len() implies in_region(g, reg, avoid, #[trigger] w2[i]) by {
        if i < w.len() {
            assert(w2[i] == w[i]);
        }
    }
}

/// A closed set of seen cells holds every cell a walk from a seen cell reaches.
pub proof fn lemma_walk_closed(g: Seq<Vec<usize>>, reg: usize, avoid: Pos, seen: Seq<bool>, w: Seq<Pos>, k: int)
    requires
        is_walk(g, reg, avoid, w),
        0 <= k < w.len(),
        seen.len() == g.len() * g.len(),
        seen[cell_index(g.len() as int, w[0])],
        forall|p: Pos, q: Pos|
            p.0 < g.len() && p.1 < g.len() && #[trigger] seen[cell_index(g.len() as int, p)] && in_region(g, reg, avoid, q)
                && #[trigger] orth_adj(p, q) ==> seen[cell_index(g.len() as int, q)],
    ensures
        seen[cell_index(g.len() as int, w[k])],
    decreases k,
{
    if k > 0 {
        lemma_walk_closed(g, reg, avoid, seen, w, k - 1);
        assert(walk_step(w, k - 1));
        assert(in_region(g, reg, avoid, w[k - 1]));
        assert(in_region(g, reg, avoid, w[k]));
    }
}

/// Would `region of (r, c)` remain connected if (r, c) left it?
///
/// Anchor trick: if removing (r, c) splits its region, every fragment
/// must contain one of (r, c)'s own same-region orthogonal neighbors
/// (the "anchors"). So flood-fill from one anchor, skipping (r, c), and
/// check the other anchors are reached.
#[verifier::rlimit(60)]
pub fn stays_contiguous(grid: &Vec<Vec<usize>>, r: usize, c: usize) -> (res: bool)
    requires
        crate::board::is_square(grid@),
        r < grid@.len(),
        c < grid@.len(),
        grid@.len() * grid@.len() < usize::MAX,
    ensures
        res == contiguous_without(grid@, r, c),
{
    let ghost g = grid@;
    let n = grid.len();
    let ghost ni = n as int;
    let ghost avoid: Pos = (r, c);
    proof {
        assert(g[r as int]@.len() == n);
    }
    let region = grid[r][c];
    let nb = orth_neighbors(r, c, n);
    proof {
        lemma_orth_spec(r, c, n);
    }
    let mut anchors: Vec<Pos> = Vec::new();
    let mut k: usize = 0;
    while k < nb.len()
        invariant
            nb@ == orth_spec(r, c, n),
            n == g.len(),
            g == grid@,
            crate::board::is_square(g),
            region == label(g, r as int, c as int),
            0 <= k <= nb@.len(),
            anchors@ == same_label(g, region, nb@.take(k as int)),
            forall|i: int| 0 <= i < nb@.len() ==> (#[trigger] nb@[i]).0 < n && nb@[i].1 < n,
        decreases nb@.len() - k,
    {
        let p = nb[k];
        proof {
            assert(g[p.0 as int]@.len() == n);
            assert(nb@.take(k + 1).drop_last() =~= nb@.take(k as int));
            assert(nb@.take(k + 1).last() == p);
        }
        if grid[p.0][p.1] == region {
            anchors.push(p);
        }
        k = k + 1;
    }
    proof {
        assert(nb@.take(k as int) =~= nb@);
        lemma_same_label(g, region, nb@);
    }
    let ghost an = anchors@;
    assert(an == anchors_of(g, r, c));
    proof {
        assert forall|i: int| 0 <= i < an.len() implies in_region(g, region, avoid, #[trigger] an[i]) && orth_adj(
            avoid,
            an[i],
        ) by {
            assert(nb@.contains(an[i]));
        }
    }
    if anchors.len() == 0 {
        return false;
    }
    if anchors.len() == 1 {
        proof {
            let w = seq![an[0]];
            assert(is_walk(g, region, avoid, w));
            assert(linked(g, region, avoid, an[0], an[0]));
        }
        return true;
    }
    let a0 = anchors[0];
    let mut seen: Vec<bool> = vec![false; n * n];
    let mut stack: Vec<Pos> = vec![a0];
    proof {
        lemma_cell_index(ni, a0, a0);
    }
    seen.set(a0.0 * n + a0.1, true);
    proof {
        let w = seq![a0];
        assert(is_walk(g, region, avoid, w));
        assert forall|p: Pos| p.0 < n && p.1 < n && #[trigger] seen@[cell_index(ni, p)] implies linked(g, region, avoid, a0, p) by {
            lemma_cell_index(ni, p, a0);
        }
        assert(stack@[0] == a0);
        assert forall|p: Pos, q: Pos|
            p.0 < n && p.1 < n && #[trigger] seen@[cell_index(ni, p)] && !stack@.contains(p) && in_region(g, region, avoid, q)
                && #[trigger] orth_adj(p, q) implies seen@[cell_index(ni, q)] by {
            lemma_cell_index(ni, p, a0);
        }
    }
    loop
        invariant
            n == g.len(),
            ni == n,
            g == grid@,
            crate::board::is_square(g),
            n * n < usize::MAX,
            region == label(g, r as int, c as int),
            avoid == (r, c),
            in_region(g, region, avoid, a0),
            seen@.len() == n * n,
            seen@[cell_index(ni, a0)],
            stack@.no_duplicates(),
            forall|i: int|
                0 <= i < stack@.len() ==> in_region(g, region, avoid, #[trigger] stack@[i]) && seen@[cell_index(
                    ni,
                    stack@[i],
                )],
            forall|p: Pos| p.0 < n && p.1 < n && #[trigger] seen@[cell_index(ni, p)] ==> linked(g, region, avoid, a0, p),
            forall|p: Pos, q: Pos|
                p.0 < n && p.1 < n && #[trigger] seen@[cell_index(ni, p)] && !stack@.contains(p) && in_region(
                    g,
                    region,
                    avoid,
                    q,
                ) && #[trigger] orth_adj(p, q) ==> seen@[cell_index(ni, q)],
        ensures
            stack@.len() == 0,
            seen@.len() == n * n,
            seen@[cell_index(ni, a0)],
            forall|p: Pos| p.0 < n && p.1 < n && #[trigger] seen@[cell_index(ni, p)] ==> linked(g, region, avoid, a0, p),
            forall|p: Pos, q: Pos|
                p.0 < n && p.1 < n && #[trigger] seen@[cell_index(ni, p)] && in_region(g, region, avoid, q)
                    && #[trigger] orth_adj(p, q) ==> seen@[cell_index(ni, q)],
        decreases num_false(seen@), stack@.len(),
    {
        let ghost st_b = stack@;
        let top = stack.pop();
        let (y, x) = match top {
            None => {
                break;
            },
            Some(p) => p,
        };
        let ghost yx: Pos = (y, x);
        let ghost stack1 = stack@;
        let ghost nf0 = num_false(seen@);
        proof {
            assert(stack1 == st_b.drop_last());
            assert(yx == st_b.last());
            assert(in_region(g, region, avoid, st_b[st_b.len() - 1]));
            assert(!stack1.contains(yx)) by {
                if stack1.contains(yx) {
                    let ii = choose|ii: int| 0 <= ii < stack1.len() && stack1[ii] == yx;
                    assert(st_b[ii] == st_b[st_b.len() - 1]);
                }
            }
            assert forall|p: Pos, q: Pos|
                p.0 < n && p.1 < n && p != yx && #[trigger] seen@[cell_index(ni, p)] && !stack1.contains(p)
                    && in_region(g, region, avoid, q) && #[trigger] orth_adj(p, q) implies seen@[cell_index(ni, q)] by {
                assert(!st_b.contains(p)) by {
                    if st_b.contains(p) {
                        let ii = choose|ii: int| 0 <= ii < st_b.len() && st_b[ii] == p;
                        assert(stack1[ii] == p);
                    }
                }
            }
            assert forall|i: int| 0 <= i < stack1.len() implies in_region(g, region, avoid, #[trigger] stack1[i]) && seen@[cell_index(
                ni, stack1[i])] by {
                assert(stack1[i] == st_b[i]);
            }
        }
        let nbs = orth_neighbors(y, x, n);
        proof {
            lemma_orth_spec(y, x, n);
        }
        let mut j: usize = 0;
        while j < nbs.len()
            invariant
                nbs@ == orth_spec(y, x, n),
                forall|i: int| 0 <= i < nbs@.len() ==> (#[trigger] nbs@[i]).0 < n && nbs@[i].1 < n,
                forall|p: Pos| nbs@.contains(p) <==> (p.0 < n && p.1 < n && orth_adj(yx, p)),
                n == g.len(),
                ni == n,
                g == grid@,
                crate::board::is_square(g),
                n * n < usize::MAX,
                region == label(g, r as int, c as int),
                avoid == (r, c),
                yx == (y, x),
                y < n,
                x < n,
                in_region(g, region, avoid, yx),
                seen@[cell_index(ni, yx)],
                in_region(g, region, avoid, a0),
                seen@.len() == n * n,
                seen@[cell_index(ni, a0)],
                num_false(seen@) <= nf0,
                num_false(seen@) == nf0 ==> stack@.len() == stack1.len(),
                stack@.no_duplicates(),
                !stack@.contains(yx),
                0 <= j <= nbs@.len(),
                forall|i: int|
                    0 <= i < stack@.len() ==> in_region(g, region, avoid, #[trigger] stack@[i]) && seen@[cell_index(
                        ni,
                        stack@[i],
                    )],
                forall|p: Pos| p.0 < n && p.1 < n && #[trigger] seen@[cell_index(ni, p)] ==> linked(g, region, avoid, a0, p),
                forall|p: Pos, q: Pos|
                    p.0 < n && p.1 < n && p != yx && #[trigger] seen@[cell_index(ni, p)] && !stack@.contains(p)
                        && in_region(g, region, avoid, q) && #[trigger] orth_adj(p, q) ==> seen@[cell_index(ni, q)],
                forall|i: int| 0 <= i < j && in_region(g, region, avoid, #[trigger] nbs@[i]) ==> seen@[cell_index(ni, nbs@[i])],
            decreases nbs@.len() - j,
        {
            let q = nbs[j];
            let (ny, nx) = q;
            proof {
                assert(g[ny as int]@.len() == n);
                lemma_cell_index(ni, q, q);
            }
            let idx = ny * n + nx;
            if grid[ny][nx] == region && !(ny == r && nx == c) && !seen[idx] {
                let ghost s0 = seen@;
                let ghost st0 = stack@;
                seen.set(idx, true);
                stack.push(q);
                proof {
                    lemma_num_false_set(s0, idx as int);
                    assert(in_region(g, region, avoid, q));
                    assert forall|i: int| 0 <= i < stack@.len() implies in_region(g, region, avoid, #[trigger] stack@[i]) && seen@[cell_index(
                        ni, stack@[i])] by {
                        if i < st0.len() {
                            assert(stack@[i] == st0[i]);
                            assert(s0[cell_index(ni, st0[i])]);
                            assert(in_region(g, region, avoid, st0[i]));
                            lemma_cell_index(ni, st0[i], q);
                        } else {
                            assert(stack@[i] == q);
                            assert(idx == cell_index(ni, q));
                        }
                    }
                    assert(nbs@.contains(q));
                    assert(orth_adj(yx, q));
                    // the walk to (y, x) extends to q
                    assert(linked(g, region, avoid, a0, yx));
                    let w = choose|w: Seq<Pos>| #[trigger] is_walk(g, region, avoid, w) && w[0] == a0 && w.last() == yx;
                    lemma_walk_push(g, region, avoid, w, q);
                    assert(is_walk(g, region, avoid, w.push(q)));
                    assert forall|p: Pos| p.0 < n && p.1 < n && #[trigger] seen@[cell_index(ni, p)] implies linked(
                        g,
                        region,
                        avoid,
                        a0,
                        p,
                    ) by {
                        lemma_cell_index(ni, p, q);
                        if cell_index(ni, p) != cell_index(ni, q) {
                            assert(s0[cell_index(ni, p)]);
                        }
                    }
                    assert forall|p: Pos, qq: Pos|
                        p.0 < n && p.1 < n && p != yx && #[trigger] seen@[cell_index(ni, p)] && !stack@.contains(p)
                            && in_region(g, region, avoid, qq) && #[trigger] orth_adj(p, qq) implies seen@[cell_index(ni, qq)] by {
                        lemma_cell_index(ni, p, q);
                        if p != q {
                            assert(s0[cell_index(ni, p)]);
                            assert(!st0.contains(p)) by {
                                if st0.contains(p) {
                                    let ii = choose|ii: int| 0 <= ii < st0.len() && st0[ii] == p;
                                    assert(stack@[ii] == p);
                                }
                            }
                            lemma_cell_index(ni, qq, qq);
                            assert(s0[cell_index(ni, qq)]);
                        } else {
                            assert(stack@[stack@.len() - 1] == q);
                        }
                    }
                    assert(stack@.no_duplicates()) by {
                        assert(!st0.contains(q)) by {
                            if st0.contains(q) {
                                let ii = choose|ii: int| 0 <= ii < st0.len() && st0[ii] == q;
                                assert(s0[cell_index(ni, st0[ii])]);
                            }
                        }
                    }
                    assert(!stack@.contains(yx)) by {
                        assert(q != yx) by {
                            assert(orth_adj(yx, q));
                        }
                        if stack@.contains(yx) {
                            let ii = choose|ii: int| 0 <= ii < stack@.len() && stack@[ii] == yx;
                            if ii < st0.len() {
                                assert(st0[ii] == yx);
                            }
                        }
                    }
                    lemma_cell_index(ni, yx, q);
                    lemma_cell_index(ni, a0, q);
                    assert forall|i: int| 0 <= i < j + 1 && in_region(g, region, avoid, #[trigger] nbs@[i]) implies seen@[cell_index(
                        ni,
                        nbs@[i],
                    )] by {
                        lemma_cell_index(ni, nbs@[i], q);
                        if i < j {
                            assert(s0[cell_index(ni, nbs@[i])]);
                        }
                    }
                }
            }
            j = j + 1;
        }
        proof {
            assert forall|p: Pos, q: Pos|
                p.0 < n && p.1 < n && #[trigger] seen@[cell_index(ni, p)] && !stack@.contains(p) && in_region(g, region, avoid, q)
                    && #[trigger] orth_adj(p, q) implies seen@[cell_index(ni, q)] by {
                if p == yx {
                    assert(nbs@.contains(q));
                    let i = choose|i: int| 0 <= i < nbs@.len() && nbs@[i] == q;
                }
            }
        }
    }
    // did the flood reach every anchor?
    let mut t: usize = 1;
    while t < anchors.len()
        invariant
            an == anchors@,
            1 <= t <= an.len(),
            n == g.len(),
            ni == n,
            seen@.len() == n * n,
            a0 == an[0],
            an == anchors_of(g, r, c),
            g == grid@,
            region == label(g, r as int, c as int),
            avoid == (r, c),
            forall|i: int| 0 <= i < an.len() ==> in_region(g, region, avoid, #[trigger] an[i]),
            forall|i: int| 0 <= i < t ==> #[trigger] linked(g, region, avoid, an[0], an[i]),
            forall|p: Pos| p.0 < n && p.1 < n && #[trigger] seen@[cell_index(ni, p)] ==> linked(g, region, avoid, a0, p),
            forall|p: Pos, q: Pos|
                p.0 < n && p.1 < n && #[trigger] seen@[cell_index(ni, p)] && in_region(g, region, avoid, q)
                    && #[trigger] orth_adj(p, q) ==> seen@[cell_index(ni, q)],
            seen@[cell_index(ni, a0)],
        decreases an.len() - t,
    {
        let p = anchors[t];
        proof {
            assert(in_region(g, region, avoid, an[t as int]));
            lemma_cell_index(ni, p, p);
        }
        if !seen[p.0 * n + p.1] {
            proof {
                assert(!linked(g, region, avoid, a0, p)) by {
                    if linked(g, region, avoid, a0, p) {
                        let w = choose|w: Seq<Pos>| #[trigger] is_walk(g, region, avoid, w) && w[0] == a0 && w.last() == p;
                        lemma_walk_closed(g, region, avoid, seen@, w, w.len() - 1);
                    }
                }
                assert(p == an[t as int]);
                assert(!linked(g, label(g, r as int, c as int), (r, c), an[0], an[t as int]));
            }
            return false;
        }
        proof {
            assert(linked(g, region, avoid, an[0], an[t as int]));
        }
        t = t + 1;
    }
    proof {
        assert(linked(g, region, avoid, an[0], an[0])) by {
            let w = seq![an[0]];
            assert(is_walk(g, region, avoid, w));
        }
    }
    true
}

/// The entries of `kill` that do not occur in `keep`, in order.
pub open spec fn not_in(keep: Seq<Pos>, kill: Seq<Pos>) -> Seq<Pos>
    decreases kill.len(),
{
    if kill.len() == 0 {
        Seq::empty()
    } else {
        let t = not_in(keep, kill.drop_last());
        if keep.contains(kill.last()) {
            t
        } else {
            t.push(kill.last())
        }
    }
}

/// The members of `not_in` are exactly the entries of `kill` not in `keep`.
pub proof fn lemma_not_in(keep: Seq<Pos>, kill: Seq<Pos>)
    ensures
        forall|i: int|
            0 <= i < not_in(keep, kill).len() ==> kill.contains(#[trigger] not_in(keep, kill)[i]) && !keep.contains(
                not_in(keep, kill)[i],
            ),
        forall|p: Pos| kill.contains(p) && !keep.contains(p) ==> #[trigger] not_in(keep, kill).contains(p),
    decreases kill.len(),
{
    if kill.len() > 0 {
        let d = kill.drop_last();
        lemma_not_in(keep, d);
        let t = not_in(keep, d);
        assert forall|i: int| 0 <= i < t.len() implies kill.contains(#[trigger] t[i]) by {
            let j = choose|j: int| 0 <= j < d.len() && d[j] == t[i];
            assert(kill[j] == t[i]);
        }
        assert(kill[kill.len() - 1] == kill.last());
        assert forall|p: Pos| kill.contains(p) && !keep.contains(p) implies #[trigger] not_in(keep, kill).contains(p) by {
            let j = choose|j: int| 0 <= j < kill.len() && kill[j] == p;
            if j < kill.len() - 1 {
                assert(d[j] == p);
                assert(t.contains(p));
                let i = choose|i: int| 0 <= i < t.len() && t[i] == p;
                if !keep.contains(kill.last()) {
                    assert(t.push(kill.last())[i] == p);
                }
            } else {
                assert(t.push(kill.last())[t.len() as int] == p);
            }
        }
    }
}

/// Cell `p` can move to a side neighbour's region: its own region stays
/// connected without it, and some side neighbour lies in another region.
pub open spec fn movable(g: Seq<Vec<usize>>, p: Pos) -> bool {
    &&& contiguous_without(g, p.0, p.1)
    &&& exists|q: Pos|
        q.0 < g.len() && q.1 < g.len() && #[trigger] orth_adj(p, q) && label(g, q.0 as int, q.1 as int) != label(
            g,
            p.0 as int,
            p.1 as int,
        )
}

/// The bulls of `kill` that `keep` lacks.
fn targets_of(keep: &[Pos], kill: &[Pos]) -> (v: Vec<Pos>)
    ensures
        v@ == not_in(keep@, kill@),
{
    let mut v: Vec<Pos> = Vec::new();
    let mut k: usize = 0;
    while k < kill.len()
        invariant
            0 <= k <= kill@.len(),
            v@ == not_in(keep@, kill@.take(k as int)),
        decreases kill@.len() - k,
    {
        proof {
            assert(kill@.take(k + 1).drop_last() =~= kill@.take(k as int));
        }
        if !contains_pos(keep, kill[k]) {
            v.push(kill[k]);
        }
        k = k + 1;
    }
    proof {
        assert(kill@.take(k as int) =~= kill@);
    }
    v
}

/// Edit `grid` so that solution `kill` is no longer valid while `keep`
/// still is; false if no legal edit exists (the grid is then unchanged).
///
/// The edit moves one bull cell of `kill` that is not a bull of `keep`
/// into a side-adjacent region, provided its own region stays connected
/// (see `lemma_kill_keeps` for why that kills `kill` and keeps `keep`).
pub fn kill_solution<R: Dice>(grid: &mut Vec<Vec<usize>>, keep: &[Pos], kill: &[Pos], rng: &mut R) -> (r: bool)
    requires
        crate::board::is_square(old(grid)@),
        old(grid)@.len() * old(grid)@.len() < usize::MAX,
        forall|i: int| 0 <= i < kill@.len() ==> (#[trigger] kill@[i]).0 < old(grid)@.len() && kill@[i].1 < old(grid)@.len(),
    ensures
        final(grid)@.len() == old(grid)@.len(),
        crate::board::is_square(final(grid)@),
        !r ==> final(grid)@ == old(grid)@,
        r ==> exists|p: Pos, q: Pos|
            {
                &&& kill@.contains(p)
                &&& !keep@.contains(p)
                &&& contiguous_without(old(grid)@, p.0, p.1)
                &&& q.0 < old(grid)@.len() && q.1 < old(grid)@.len()
                &&& orth_adj(p, q)
                &&& label(old(grid)@, q.0 as int, q.1 as int) != label(old(grid)@, p.0 as int, p.1 as int)
                &&& rows_of(final(grid)@) == set_label(old(grid)@, p, label(old(grid)@, q.0 as int, q.1 as int))
            },
        crate::connect::regions_connected(old(grid)@) ==> crate::connect::regions_connected(final(grid)@),
        r == exists|p: Pos| kill@.contains(p) && !keep@.contains(p) && #[trigger] movable(old(grid)@, p),
{
    let n = grid.len();
    let ghost g = grid@;

    // Bulls of `kill` that aren't bulls of `keep` — each a valid target.
    let mut targets = targets_of(keep, kill);
    proof {
        lemma_not_in(keep@, kill@);
    }
    let ghost t0 = targets@;
    rng.mix_up(&mut targets);
    proof {
        assert forall|i: int| 0 <= i < targets@.len() implies kill@.contains(#[trigger] targets@[i]) && !keep@.contains(
            targets@[i],
        ) by {
            assert(targets@.to_multiset().contains(targets@[i])) by {
                vstd::seq_lib::to_multiset_contains(targets@, targets@[i]);
            }
            vstd::seq_lib::to_multiset_contains(t0, targets@[i]);
            let j = choose|j: int| 0 <= j < t0.len() && t0[j] == targets@[i];
        }
        assert forall|p: Pos| kill@.contains(p) && !keep@.contains(p) implies targets@.contains(p) by {
            assert(t0.contains(p));
            vstd::seq_lib::to_multiset_contains(t0, p);
            vstd::seq_lib::to_multiset_contains(targets@, p);
        }
    }
    let mut k: usize = 0;
    while k < targets.len()
        invariant
            grid@ == g,
            g == old(grid)@,
            n == g.len(),
            crate::board::is_square(g),
            n * n < usize::MAX,
            forall|i: int| 0 <= i < kill@.len() ==> (#[trigger] kill@[i]).0 < n && kill@[i].1 < n,
            forall|i: int| 0 <= i < targets@.len() ==> kill@.contains(#[trigger] targets@[i]) && !keep@.contains(targets@[i]),
            0 <= k <= targets@.len(),
            forall|p: Pos| kill@.contains(p) && !keep@.contains(p) ==> targets@.contains(p),
            forall|j: int| 0 <= j < k ==> !movable(g, #[trigger] targets@[j]),
        decreases targets@.len() - k,
    {
        let (r, c) = targets[k];
        proof {
            let p = targets@[k as int];
            assert(kill@.contains(p));
            let j = choose|j: int| 0 <= j < kill@.len() && kill@[j] == p;
            assert(kill@[j].0 < n && kill@[j].1 < n);
        }
        if stays_contiguous(grid, r, c) {
            proof {
                assert(g[r as int]@.len() == n);
                assert(targets@[k as int] == (r, c));
            }
            let donor = grid[r][c];
            let mut neighbors = orth_neighbors(r, c, n);
            proof {
                lemma_orth_spec(r, c, n);
            }
            let ghost nb0 = neighbors@;
            rng.mix_up(&mut neighbors);
            proof {
                assert forall|i: int| 0 <= i < neighbors@.len() implies (#[trigger] neighbors@[i]).0 < n && neighbors@[i].1 < n
                    && orth_adj((r, c), neighbors@[i]) by {
                    vstd::seq_lib::to_multiset_contains(neighbors@, neighbors@[i]);
                    vstd::seq_lib::to_multiset_contains(nb0, neighbors@[i]);
                    assert(nb0.contains(neighbors@[i]));
                }
            }
            let mut m: usize = 0;
            while m < neighbors.len()
                invariant
                    grid@ == g,
                    g == old(grid)@,
                    n == g.len(),
                    crate::board::is_square(g),
                    r < n,
                    c < n,
                    kill@.contains((r, c)),
                    !keep@.contains((r, c)),
                    contiguous_without(g, r, c),
                    n * n < usize::MAX,
                    donor == label(g, r as int, c as int),
                    forall|i: int| 0 <= i < neighbors@.len() ==> (#[trigger] neighbors@[i]).0 < n && neighbors@[i].1 < n
                        && orth_adj((r, c), neighbors@[i]),
                    0 <= m <= neighbors@.len(),
                    neighbors@.to_multiset() == nb0.to_multiset(),
                    nb0 == orth_spec(r, c, n),
                    forall|j: int| 0 <= j < m ==> label(g, (#[trigger] neighbors@[j]).0 as int, neighbors@[j].1 as int) == donor,
                decreases neighbors@.len() - m,
            {
                let (nr, nc) = neighbors[m];
                proof {
                    assert(neighbors@[m as int].0 < n);
                    assert(g[nr as int]@.len() == n);
                }
                if grid[nr][nc] != donor {
                    let l = grid[nr][nc];
                    set_cell(grid, r, c, l);
                    proof {
                        let p: Pos = (r, c);
                        let q: Pos = (nr, nc);
                        assert(kill@.contains(p) && !keep@.contains(p));
                        assert(orth_adj(p, q));
                        assert forall|i: int| 0 <= i < grid@.len() implies (#[trigger] grid@[i])@.len() == grid@.len() by {
                            assert(rows_of(grid@)[i] == grid@[i]@);
                            if i == r {
                            } else {
                                assert(rows_of(g)[i] == g[i]@);
                            }
                        }
                        assert(n < usize::MAX) by (nonlinear_arith)
                            requires
                                n * n < usize::MAX,
                        ;
                        if crate::connect::regions_connected(g) {
                            crate::connect::lemma_relabel_connected(g, grid@, p, q);
                        }
                        assert(movable(g, p));
                    }
                    return true;
                }
                m = m + 1;
            }
            proof {
                // every side neighbour lies in the donor region
                assert forall|q: Pos|
                    q.0 < n && q.1 < n && #[trigger] orth_adj((r, c), q) implies label(g, q.0 as int, q.1 as int) == donor by {
                    assert(nb0.contains(q));
                    vstd::seq_lib::to_multiset_contains(nb0, q);
                    vstd::seq_lib::to_multiset_contains(neighbors@, q);
                    let j = choose|j: int| 0 <= j < neighbors@.len() && neighbors@[j] == q;
                    assert(label(g, neighbors@[j].0 as int, neighbors@[j].1 as int) == donor);
                }
                assert(!movable(g, targets@[k as int]));
            }
        }
        k = k + 1;
    }
    proof {
        assert forall|p: Pos| kill@.contains(p) && !keep@.contains(p) implies !#[trigger] movable(g, p) by {
            let j = choose|j: int| 0 <= j < targets@.len() && targets@[j] == p;
            assert(!movable(g, targets@[j]));
        }
    }
    false
}

/// Counts agree when the predicates agree on every bull.
pub proof fn lemma_count_where_same(sol: Seq<Pos>, f: spec_fn(Pos) -> bool, f2: spec_fn(Pos) -> bool)
    requires
        forall|i: int| 0 <= i < sol.len() ==> f(#[trigger] sol[i]) == f2(sol[i]),
    ensures
        count_where(sol, f) == count_where(sol, f2),
    decreases sol.len(),
{
    if sol.len() > 0 {
        let s0 = sol.drop_last();
        assert forall|i: int| 0 <= i < s0.len() implies f(#[trigger] s0[i]) == f2(s0[i]) by {
            assert(s0[i] == sol[i]);
        }
        lemma_count_where_same(s0, f, f2);
        assert(f(sol[sol.len() - 1]) == f2(sol[sol.len() - 1]));
    }
}

/// Losing one qualifying bull, and gaining none, lowers the count.
pub proof fn lemma_count_where_less(sol: Seq<Pos>, f: spec_fn(Pos) -> bool, f2: spec_fn(Pos) -> bool, k: int)
    requires
        0 <= k < sol.len(),
        f(sol[k]),
        !f2(sol[k]),
        forall|i: int| 0 <= i < sol.len() && f2(#[trigger] sol[i]) ==> f(sol[i]),
    ensures
        count_where(sol, f2) < count_where(sol, f),
    decreases sol.len(),
{
    let s0 = sol.drop_last();
    assert forall|i: int| 0 <= i < s0.len() && f2(#[trigger] s0[i]) implies f(s0[i]) by {
        assert(s0[i] == sol[i]);
    }
    if k == sol.len() - 1 {
        lemma_count_where_le(s0, f, f2);
    } else {
        assert(s0[k] == sol[k]);
        lemma_count_where_less(s0, f, f2, k);
        assert(f2(sol[sol.len() - 1]) ==> f(sol[sol.len() - 1]));
    }
}

/// A weaker predicate counts no more.
pub proof fn lemma_count_where_le(sol: Seq<Pos>, f: spec_fn(Pos) -> bool, f2: spec_fn(Pos) -> bool)
    requires
        forall|i: int| 0 <= i < sol.len() && f2(#[trigger] sol[i]) ==> f(sol[i]),
    ensures
        count_where(sol, f2) <= count_where(sol, f),
    decreases sol.len(),
{
    if sol.len() > 0 {
        let s0 = sol.drop_last();
        assert forall|i: int| 0 <= i < s0.len() && f2(#[trigger] s0[i]) implies f(s0[i]) by {
            assert(s0[i] == sol[i]);
        }
        lemma_count_where_le(s0, f, f2);
        assert(f2(sol[sol.len() - 1]) ==> f(sol[sol.len() - 1]));
    }
}

/// The repair step is sound: relabelling a cell that is a bull of
/// solution `kill` but not of solution `keep` (into another existing
/// label) leaves `keep` a solution and stops `kill` being one.
pub proof fn lemma_kill_keeps(
    g: Seq<Vec<usize>>,
    g2: Seq<Vec<usize>>,
    keep: Seq<Pos>,
    kill: Seq<Pos>,
    p: Pos,
    l: usize,
    k: int,
)
    requires
        k >= 1,
        crate::board::is_square(g),
        is_solution_k(g, keep, k),
        is_solution_k(g, kill, k),
        kill.contains(p),
        !keep.contains(p),
        p.0 < g.len(),
        p.1 < g.len(),
        g[p.0 as int]@.len() == g.len(),
        label_set(g).contains(l),
        l != label(g, p.0 as int, p.1 as int),
        g2.len() == g.len(),
        rows_of(g2) == set_label(g, p, l),
    ensures
        is_solution_k(g2, keep, k),
        !is_solution_k(g2, kill, k),
{
    let n = g.len() as int;
    // labels of cells other than p are unchanged
    assert forall|r: int, c: int| 0 <= r < n && 0 <= c < g[r]@.len() && (r, c) != (p.0 as int, p.1 as int) implies label(g2, r, c)
        == label(g, r, c) by {
        assert(rows_of(g2)[r] == g2[r]@);
        assert(rows_of(g)[r] == g[r]@);
    }
    assert(label(g2, p.0 as int, p.1 as int) == l) by {
        assert(rows_of(g2)[p.0 as int] == g2[p.0 as int]@);
    }
    assert forall|r: int| 0 <= r < n implies (#[trigger] g2[r])@.len() == g[r]@.len() by {
        assert(rows_of(g2)[r] == g2[r]@);
        assert(rows_of(g)[r] == g[r]@);
    }
    // the labels of g2 are labels of g
    assert forall|x: usize| label_set(g2).contains(x) implies label_set(g).contains(x) by {
        let (r, c) = choose|r: int, c: int| 0 <= r < g2.len() && 0 <= c < g2[r]@.len() && #[trigger] label(g2, r, c) == x;
        if (r, c) != (p.0 as int, p.1 as int) {
            assert(label(g, r, c) == x);
        }
    }
    // keep: every count is the same as in g
    assert forall|x: usize| label_set(g2).contains(x) implies #[trigger] crate::board::count_label(g2, keep, x) == k by {
        let f = |q: Pos| label(g, q.0 as int, q.1 as int) == x;
        let f2 = |q: Pos| label(g2, q.0 as int, q.1 as int) == x;
        assert forall|i: int| 0 <= i < keep.len() implies f(#[trigger] keep[i]) == f2(keep[i]) by {
            assert(keep[i] != p);
        }
        lemma_count_where_same(keep, f, f2);
        assert(crate::board::count_label(g2, keep, x) == count_where(keep, f2));
        assert(crate::board::count_label(g, keep, x) == count_where(keep, f));
    }
    // kill: its bull on p no longer counts for p's old region
    let x = label(g, p.0 as int, p.1 as int);
    assert(label_set(g).contains(x));
    let f = |q: Pos| label(g, q.0 as int, q.1 as int) == x;
    let f2 = |q: Pos| label(g2, q.0 as int, q.1 as int) == x;
    let kp = choose|i: int| 0 <= i < kill.len() && kill[i] == p;
    assert forall|i: int| 0 <= i < kill.len() && f2(#[trigger] kill[i]) implies f(kill[i]) by {
        if kill[i] != p {
        }
    }
    lemma_count_where_less(kill, f, f2, kp);
    // x is still a label of g2: keep's bull in region x stays there
    assert(label_set(g2).contains(x)) by {
        assert(crate::board::count_label(g, keep, x) == k);
        if forall|i: int| 0 <= i < keep.len() ==> !f(#[trigger] keep[i]) {
            crate::board::lemma_count_where_zero(keep, f);
        }
        let i = choose|i: int| 0 <= i < keep.len() && f(#[trigger] keep[i]);
        assert(keep[i] != p);
        assert(label(g2, keep[i].0 as int, keep[i].1 as int) == x);
    }
    assert(crate::board::count_label(g2, kill, x) == count_where(kill, f2));
    assert(crate::board::count_label(g, kill, x) == count_where(kill, f));
    assert(crate::board::count_label(g2, kill, x) < k);
}

} // verus!
