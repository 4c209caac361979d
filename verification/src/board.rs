use vstd::prelude::*;

use crate::transport::{col_fn, lemma_sum_to_add, lemma_sum_to_const, lemma_sum_to_single, row_fn, sum_to};

verus! {

/// A bull position: (row, col).
pub type Pos = (usize, usize);

/// Region grid, `grid[r][c]` = region label of cell (r, c).
pub type Grid = Vec<Vec<usize>>;

/// Every row has as many cells as the grid has rows.
pub open spec fn is_square(g: Seq<Vec<usize>>) -> bool {
    forall|r: int| 0 <= r < g.len() ==> (#[trigger] g[r])@.len() == g.len()
}

/// The region label of cell (r, c).
pub open spec fn label(g: Seq<Vec<usize>>, r: int, c: int) -> usize {
    g[r]@[c]
}

/// The labels that occur in the grid.
pub open spec fn label_set(g: Seq<Vec<usize>>) -> Set<usize> {
    Set::new(
        |l: usize|
            exists|r: int, c: int| 0 <= r < g.len() && 0 <= c < g[r]@.len() && #[trigger] label(g, r, c) == l,
    )
}

/// A square grid with exactly as many regions as rows.
pub open spec fn is_board(g: Seq<Vec<usize>>) -> bool {
    &&& is_square(g)
    &&& label_set(g).finite()
    &&& label_set(g).len() == g.len()
}

pub open spec fn absdiff(a: int, b: int) -> int {
    if a >= b { a - b } else { b - a }
}

/// Two cells touch when they are within one step, diagonals included.
pub open spec fn touching(a: Pos, b: Pos) -> bool {
    absdiff(a.0 as int, b.0 as int) <= 1 && absdiff(a.1 as int, b.1 as int) <= 1
}

/// `sol` places exactly `k` bulls in every row, every column and every
/// region of the square grid `g`, on distinct cells, no two touching.
pub open spec fn is_solution_k(g: Seq<Vec<usize>>, sol: Seq<Pos>, k: int) -> bool {
    let n = g.len() as int;
    &&& forall|i: int| 0 <= i < sol.len() ==> (#[trigger] sol[i]).0 < n && sol[i].1 < n
    &&& forall|i: int, j: int| 0 <= i < sol.len() && 0 <= j < sol.len() && i != j ==> !touching(#[trigger] sol[i], #[trigger] sol[j])
    &&& forall|r: int| 0 <= r < n ==> #[trigger] count_row(sol, r) == k
    &&& forall|c: int| 0 <= c < n ==> #[trigger] count_col_of(sol, c) == k
    &&& forall|l: usize| label_set(g).contains(l) ==> #[trigger] count_label(g, sol, l) == k
}

/// Number of bulls satisfying `f`.
pub open spec fn count_where(sol: Seq<Pos>, f: spec_fn(Pos) -> bool) -> int
    decreases sol.len(),
{
    if sol.len() == 0 {
        0
    } else {
        count_where(sol.drop_last(), f) + if f(sol.last()) { 1int } else { 0int }
    }
}

/// The bulls of board row `r`.
pub open spec fn in_row(r: int) -> spec_fn(Pos) -> bool {
    |p: Pos| p.0 == r
}

/// The bulls of board column `c`.
pub open spec fn in_col(c: int) -> spec_fn(Pos) -> bool {
    |p: Pos| p.1 == c
}

/// Number of bulls in board row `r`.
pub open spec fn count_row(sol: Seq<Pos>, r: int) -> int {
    count_where(sol, in_row(r))
}

/// Number of bulls in board column `c`.
pub open spec fn count_col_of(sol: Seq<Pos>, c: int) -> int {
    count_where(sol, in_col(c))
}

/// Number of bulls in the region labelled `l`.
pub open spec fn count_label(g: Seq<Vec<usize>>, sol: Seq<Pos>, l: usize) -> int {
    count_where(sol, |p: Pos| label(g, p.0 as int, p.1 as int) == l)
}

/// A count is 1 when exactly one bull qualifies.
pub proof fn lemma_count_where_one(sol: Seq<Pos>, f: spec_fn(Pos) -> bool, k: int)
    requires
        0 <= k < sol.len(),
        f(sol[k]),
        forall|i: int| 0 <= i < sol.len() && i != k ==> !f(#[trigger] sol[i]),
    ensures
        count_where(sol, f) == 1,
    decreases sol.len(),
{
    let s0 = sol.drop_last();
    if k == sol.len() - 1 {
        lemma_count_where_zero(s0, f);
    } else {
        assert forall|i: int| 0 <= i < s0.len() && i != k implies !f(#[trigger] s0[i]) by {
            assert(s0[i] == sol[i]);
        }
        assert(s0[k] == sol[k]);
        lemma_count_where_one(s0, f, k);
        assert(!f(sol[sol.len() - 1]));
    }
}

/// A count is 0 when no bull qualifies.
pub proof fn lemma_count_where_zero(sol: Seq<Pos>, f: spec_fn(Pos) -> bool)
    requires
        forall|i: int| 0 <= i < sol.len() ==> !f(#[trigger] sol[i]),
    ensures
        count_where(sol, f) == 0,
    decreases sol.len(),
{
    if sol.len() > 0 {
        let s0 = sol.drop_last();
        assert forall|i: int| 0 <= i < s0.len() implies !f(#[trigger] s0[i]) by {
            assert(s0[i] == sol[i]);
        }
        lemma_count_where_zero(s0, f);
        assert(!f(sol[sol.len() - 1]));
    }
}

/// Counting over a concatenation adds up.
pub proof fn lemma_count_concat(a: Seq<Pos>, b: Seq<Pos>, f: spec_fn(Pos) -> bool)
    ensures
        count_where(a + b, f) == count_where(a, f) + count_where(b, f),
    decreases b.len(),
{
    if b.len() == 0 {
        assert(a + b =~= a);
    } else {
        assert((a + b).drop_last() =~= a + b.drop_last());
        lemma_count_concat(a, b.drop_last(), f);
    }
}

/// A qualifying bull makes the count positive.
pub proof fn lemma_count_pos(s: Seq<Pos>, f: spec_fn(Pos) -> bool, i: int)
    requires
        0 <= i < s.len(),
        f(s[i]),
    ensures
        count_where(s, f) >= 1,
    decreases s.len(),
{
    lemma_count_nonneg(s.drop_last(), f);
    if i < s.len() - 1 {
        assert(s.drop_last()[i] == s[i]);
        lemma_count_pos(s.drop_last(), f, i);
    }
}

/// Two qualifying bulls make the count at least 2.
pub proof fn lemma_count_two(s: Seq<Pos>, f: spec_fn(Pos) -> bool, i: int, j: int)
    requires
        0 <= i < s.len(),
        0 <= j < s.len(),
        i != j,
        f(s[i]),
        f(s[j]),
    ensures
        count_where(s, f) >= 2,
{
    lemma_count_remove(s, i, f);
    let t = s.remove(i);
    let j2 = if j < i { j } else { j - 1 };
    assert(t[j2] == s[j]);
    lemma_count_pos(t, f, j2);
}

/// A positive count has a qualifying bull.
pub proof fn lemma_count_witness(s: Seq<Pos>, f: spec_fn(Pos) -> bool)
    requires
        count_where(s, f) >= 1,
    ensures
        exists|k: int| 0 <= k < s.len() && f(#[trigger] s[k]),
{
    if !exists|k: int| 0 <= k < s.len() && f(#[trigger] s[k]) {
        lemma_count_where_zero(s, f);
    }
}

/// A test that is the disjoint union of two counts their sum.
pub proof fn lemma_count_split(s: Seq<Pos>, f: spec_fn(Pos) -> bool, f1: spec_fn(Pos) -> bool, f2: spec_fn(Pos) -> bool)
    requires
        forall|i: int| 0 <= i < s.len() ==> (f(#[trigger] s[i]) <==> (f1(s[i]) || f2(s[i]))) && !(f1(s[i]) && f2(s[i])),
    ensures
        count_where(s, f) == count_where(s, f1) + count_where(s, f2),
    decreases s.len(),
{
    if s.len() > 0 {
        let t = s.drop_last();
        assert forall|i: int| 0 <= i < t.len() implies (f(#[trigger] t[i]) <==> (f1(t[i]) || f2(t[i]))) && !(f1(t[i]) && f2(t[i])) by {
            assert(t[i] == s[i]);
        }
        lemma_count_split(t, f, f1, f2);
        assert(f(s[s.len() - 1]) <==> (f1(s[s.len() - 1]) || f2(s[s.len() - 1])));
    }
}

/// A weaker test counts at least as many bulls.
pub proof fn lemma_count_mono(s: Seq<Pos>, f: spec_fn(Pos) -> bool, g: spec_fn(Pos) -> bool)
    requires
        forall|i: int| 0 <= i < s.len() && f(#[trigger] s[i]) ==> g(s[i]),
    ensures
        count_where(s, f) <= count_where(s, g),
    decreases s.len(),
{
    if s.len() > 0 {
        let t = s.drop_last();
        assert forall|i: int| 0 <= i < t.len() && f(#[trigger] t[i]) implies g(t[i]) by {
            assert(t[i] == s[i]);
        }
        lemma_count_mono(t, f, g);
        assert(f(s[s.len() - 1]) ==> g(s[s.len() - 1]));
    }
}

/// Counts are never negative.
pub proof fn lemma_count_nonneg(s: Seq<Pos>, f: spec_fn(Pos) -> bool)
    ensures
        count_where(s, f) >= 0,
    decreases s.len(),
{
    if s.len() > 0 {
        lemma_count_nonneg(s.drop_last(), f);
    }
}

/// Two tests that agree on every bull count alike.
pub proof fn lemma_count_ext(s: Seq<Pos>, f1: spec_fn(Pos) -> bool, f2: spec_fn(Pos) -> bool)
    requires
        forall|i: int| 0 <= i < s.len() ==> f1(#[trigger] s[i]) == f2(s[i]),
    ensures
        count_where(s, f1) == count_where(s, f2),
    decreases s.len(),
{
    if s.len() > 0 {
        let t = s.drop_last();
        assert forall|i: int| 0 <= i < t.len() implies f1(#[trigger] t[i]) == f2(t[i]) by {
            assert(t[i] == s[i]);
        }
        lemma_count_ext(t, f1, f2);
        assert(f1(s[s.len() - 1]) == f2(s[s.len() - 1]));
    }
}

/// Taking one bull out lowers the count by whether it qualifies.
pub proof fn lemma_count_remove(s: Seq<Pos>, j: int, f: spec_fn(Pos) -> bool)
    requires
        0 <= j < s.len(),
    ensures
        count_where(s, f) == count_where(s.remove(j), f) + if f(s[j]) { 1int } else { 0int },
    decreases s.len(),
{
    if j < s.len() - 1 {
        let t = s.drop_last();
        lemma_count_remove(t, j, f);
        assert(s.remove(j).drop_last() =~= t.remove(j));
        assert(s.remove(j).last() == s.last());
        assert(t[j] == s[j]);
    } else {
        assert(s.remove(j) =~= s.drop_last());
    }
}

/// Counts depend only on which bulls there are, not their order.
pub proof fn lemma_count_perm(s1: Seq<Pos>, s2: Seq<Pos>, f: spec_fn(Pos) -> bool)
    requires
        s1.to_multiset() == s2.to_multiset(),
    ensures
        count_where(s1, f) == count_where(s2, f),
    decreases s1.len(),
{
    vstd::seq_lib::to_multiset_len(s1);
    vstd::seq_lib::to_multiset_len(s2);
    if s1.len() > 0 {
        let e = s1.last();
        assert(s1.contains(e)) by {
            assert(s1[s1.len() - 1] == e);
        }
        vstd::seq_lib::to_multiset_contains(s1, e);
        vstd::seq_lib::to_multiset_contains(s2, e);
        let j = choose|j: int| 0 <= j < s2.len() && s2[j] == e;
        let t1 = s1.drop_last();
        let t2 = s2.remove(j);
        assert(s1.remove(s1.len() - 1) =~= t1);
        vstd::seq_lib::to_multiset_remove(s1, s1.len() - 1);
        vstd::seq_lib::to_multiset_remove(s2, j);
        lemma_count_perm(t1, t2, f);
        lemma_count_remove(s2, j, f);
    }
}

/// A solution's bulls are distinct cells.
pub proof fn lemma_solution_distinct(g: Seq<Vec<usize>>, s: Seq<Pos>, k: int)
    requires
        is_solution_k(g, s, k),
    ensures
        s.no_duplicates(),
{
    assert forall|i: int, j: int| 0 <= i < s.len() && 0 <= j < s.len() && i != j implies s[i] != s[j] by {
        assert(!touching(s[i], s[j]));
    }
}

/// Being a solution does not depend on the order of the bulls.
pub proof fn lemma_solution_perm(g: Seq<Vec<usize>>, s1: Seq<Pos>, s2: Seq<Pos>, k: int)
    requires
        is_solution_k(g, s1, k),
        s1.to_multiset() == s2.to_multiset(),
    ensures
        is_solution_k(g, s2, k),
{
    let n = g.len() as int;
    lemma_solution_distinct(g, s1, k);
    s1.lemma_multiset_has_no_duplicates();
    s2.lemma_multiset_has_no_duplicates_conv();
    assert forall|i: int| 0 <= i < s2.len() implies s1.contains(#[trigger] s2[i]) by {
        vstd::seq_lib::to_multiset_contains(s2, s2[i]);
        vstd::seq_lib::to_multiset_contains(s1, s2[i]);
        assert(s2.contains(s2[i]));
    }
    assert forall|i: int| 0 <= i < s2.len() implies (#[trigger] s2[i]).0 < n && s2[i].1 < n by {
        assert(s1.contains(s2[i]));
        let a = choose|a: int| 0 <= a < s1.len() && s1[a] == s2[i];
    }
    assert forall|i: int, j: int| 0 <= i < s2.len() && 0 <= j < s2.len() && i != j implies !touching(
        #[trigger] s2[i],
        #[trigger] s2[j],
    ) by {
        assert(s1.contains(s2[i]));
        assert(s1.contains(s2[j]));
        let a = choose|a: int| 0 <= a < s1.len() && s1[a] == s2[i];
        let b = choose|b: int| 0 <= b < s1.len() && s1[b] == s2[j];
        assert(s2[i] != s2[j]);
    }
    assert forall|r: int| 0 <= r < n implies #[trigger] count_row(s2, r) == k by {
        let f = in_row(r);
        lemma_count_perm(s1, s2, f);
        assert(count_row(s1, r) == k);
    }
    assert forall|c: int| 0 <= c < n implies #[trigger] count_col_of(s2, c) == k by {
        let f = in_col(c);
        lemma_count_perm(s1, s2, f);
        assert(count_col_of(s1, c) == k);
    }
    assert forall|l: usize| label_set(g).contains(l) implies #[trigger] count_label(g, s2, l) == k by {
        let f = |p: Pos| label(g, p.0 as int, p.1 as int) == l;
        lemma_count_perm(s1, s2, f);
        assert(count_label(g, s1, l) == k);
    }
}

/// Bulls without repeats that qualify map one-to-one into a finite set:
/// there are at most as many as the set has members.
pub proof fn lemma_count_inject(x: Seq<Pos>, f: spec_fn(Pos) -> bool, m: spec_fn(Pos) -> usize, t: Set<usize>)
    requires
        x.no_duplicates(),
        t.finite(),
        forall|i: int| 0 <= i < x.len() && f(x[i]) ==> t.contains(m(#[trigger] x[i])),
        forall|i: int, j: int| 0 <= i < x.len() && 0 <= j < x.len() && i != j && f(x[i]) && f(x[j]) ==> m(#[trigger] x[i]) != m(
            #[trigger] x[j],
        ),
    ensures
        count_where(x, f) <= t.len(),
    decreases x.len(),
{
    if x.len() > 0 {
        let y = x.drop_last();
        let e = x.last();
        if f(e) {
            let t2 = t.remove(m(e));
            assert forall|i: int| 0 <= i < y.len() && f(y[i]) implies t2.contains(m(#[trigger] y[i])) by {
                assert(y[i] == x[i]);
                assert(m(x[i]) != m(x[x.len() - 1]));
            }
            assert forall|i: int, j: int| 0 <= i < y.len() && 0 <= j < y.len() && i != j && f(y[i]) && f(y[j]) implies m(
                #[trigger] y[i],
            ) != m(#[trigger] y[j]) by {
                assert(y[i] == x[i] && y[j] == x[j]);
            }
            lemma_count_inject(y, f, m, t2);
            assert(t.contains(m(x[x.len() - 1])));
        } else {
            assert forall|i: int, j: int| 0 <= i < y.len() && 0 <= j < y.len() && i != j && f(y[i]) && f(y[j]) implies m(
                #[trigger] y[i],
            ) != m(#[trigger] y[j]) by {
                assert(y[i] == x[i] && y[j] == x[j]);
            }
            assert forall|i: int| 0 <= i < y.len() && f(y[i]) implies t.contains(m(#[trigger] y[i])) by {
                assert(y[i] == x[i]);
            }
            lemma_count_inject(y, f, m, t);
        }
    }
}

/// A test that picks exactly the bulls of row `r` counts them.
pub proof fn lemma_count_row_ext(s: Seq<Pos>, r: int, f: spec_fn(Pos) -> bool)
    requires
        forall|i: int| 0 <= i < s.len() ==> f(#[trigger] s[i]) == (s[i].0 == r),
    ensures
        count_where(s, f) == count_row(s, r),
{
    lemma_count_ext(s, f, in_row(r));
}

/// A test that picks exactly the bulls of column `c` counts them.
pub proof fn lemma_count_col_ext(s: Seq<Pos>, c: int, f: spec_fn(Pos) -> bool)
    requires
        forall|i: int| 0 <= i < s.len() ==> f(#[trigger] s[i]) == (s[i].1 == c),
    ensures
        count_where(s, f) == count_col_of(s, c),
{
    lemma_count_ext(s, f, in_col(c));
}

/// A test that picks exactly the bulls of region `l` counts them.
pub proof fn lemma_count_label_ext(gr: Seq<Vec<usize>>, s: Seq<Pos>, l: usize, f: spec_fn(Pos) -> bool)
    requires
        forall|i: int| 0 <= i < s.len() ==> f(#[trigger] s[i]) == (label(gr, s[i].0 as int, s[i].1 as int) == l),
    ensures
        count_where(s, f) == count_label(gr, s, l),
{
    let g = |p: Pos| label(gr, p.0 as int, p.1 as int) == l;
    lemma_count_ext(s, f, g);
}

/// The line a cell lies on: its row, or else its column.
pub open spec fn line_of(by_row: bool, p: Pos) -> int {
    if by_row {
        p.0 as int
    } else {
        p.1 as int
    }
}

/// A cell's position along its line.
pub open spec fn pos_in_line(by_row: bool, p: Pos) -> int {
    if by_row {
        p.1 as int
    } else {
        p.0 as int
    }
}

/// Cells of region `a` on line `x` before position `y`.
pub open spec fn reg_line(g: Seq<Vec<usize>>, by_row: bool, a: int, x: int, y: int) -> spec_fn(Pos) -> bool {
    |p: Pos| label(g, p.0 as int, p.1 as int) == a && line_of(by_row, p) == x && pos_in_line(by_row, p) < y
}

/// The cell of region `a` at position `q` of line `x`.
pub open spec fn at_cell(g: Seq<Vec<usize>>, by_row: bool, a: int, x: int, q: int) -> spec_fn(Pos) -> bool {
    |p: Pos| label(g, p.0 as int, p.1 as int) == a && line_of(by_row, p) == x && pos_in_line(by_row, p) == q
}

/// How many bulls of `s` region `a` has on line `x`.
pub open spec fn bulls_tab(g: Seq<Vec<usize>>, by_row: bool, s: Seq<Pos>) -> spec_fn(int, int) -> int {
    |a: int, x: int| count_where(s, reg_line(g, by_row, a, x, g.len() as int))
}

/// The bulls of region `a`.
pub open spec fn region_is(g: Seq<Vec<usize>>, a: int) -> spec_fn(Pos) -> bool {
    |p: Pos| label(g, p.0 as int, p.1 as int) == a
}

/// The bulls on line `x`.
pub open spec fn line_is(by_row: bool, x: int) -> spec_fn(Pos) -> bool {
    |p: Pos| line_of(by_row, p) == x
}

/// Summed over the lines, a region's bulls per line are its bulls.
pub proof fn lemma_bulls_by_line(g: Seq<Vec<usize>>, by_row: bool, s: Seq<Pos>, a: int)
    requires
        forall|i: int| 0 <= i < s.len() ==> (#[trigger] s[i]).0 < g.len() && s[i].1 < g.len(),
    ensures
        sum_to(g.len() as int, row_fn(bulls_tab(g, by_row, s), a)) == count_where(s, region_is(g, a)),
    decreases s.len(),
{
    let n = g.len() as int;
    if s.len() == 0 {
        lemma_sum_to_const(n, 0, row_fn(bulls_tab(g, by_row, s), a));
    } else {
        let d = s.drop_last();
        let p = s.last();
        assert forall|i: int| 0 <= i < d.len() implies (#[trigger] d[i]).0 < g.len() && d[i].1 < g.len() by {
            assert(d[i] == s[i]);
        }
        lemma_bulls_by_line(g, by_row, d, a);
        assert(s[s.len() - 1] == p);
        let one = |x: int| if reg_line(g, by_row, a, x, n)(p) { 1int } else { 0int };
        lemma_sum_to_add(n, row_fn(bulls_tab(g, by_row, d), a), one, row_fn(bulls_tab(g, by_row, s), a));
        lemma_sum_to_single(n, one, line_of(by_row, p), if region_is(g, a)(p) { 1int } else { 0int });
    }
}

/// Summed over the regions, a line's bulls per region are its bulls.
pub proof fn lemma_bulls_by_region(g: Seq<Vec<usize>>, by_row: bool, s: Seq<Pos>, x: int)
    requires
        forall|i: int| 0 <= i < s.len() ==> (#[trigger] s[i]).0 < g.len() && s[i].1 < g.len(),
        forall|r: int, c: int| 0 <= r < g.len() && 0 <= c < g.len() ==> #[trigger] label(g, r, c) < g.len(),
    ensures
        sum_to(g.len() as int, col_fn(bulls_tab(g, by_row, s), x)) == count_where(s, line_is(by_row, x)),
    decreases s.len(),
{
    let n = g.len() as int;
    if s.len() == 0 {
        lemma_sum_to_const(n, 0, col_fn(bulls_tab(g, by_row, s), x));
    } else {
        let d = s.drop_last();
        let p = s.last();
        assert forall|i: int| 0 <= i < d.len() implies (#[trigger] d[i]).0 < g.len() && d[i].1 < g.len() by {
            assert(d[i] == s[i]);
        }
        lemma_bulls_by_region(g, by_row, d, x);
        assert(s[s.len() - 1] == p);
        let one = |a: int| if reg_line(g, by_row, a, x, n)(p) { 1int } else { 0int };
        lemma_sum_to_add(n, col_fn(bulls_tab(g, by_row, d), x), one, col_fn(bulls_tab(g, by_row, s), x));
        assert(label(g, p.0 as int, p.1 as int) < n);
        lemma_sum_to_single(n, one, label(g, p.0 as int, p.1 as int) as int, if line_is(by_row, x)(p) { 1int } else { 0int });
    }
}

/// A board with a solution placing `k >= 1` bulls per row, column and
/// region uses every label below its side: the bulls number `k` per row,
/// and only `k` per label that occurs.
pub proof fn lemma_solution_all_labels(g: Seq<Vec<usize>>, s: Seq<Pos>, k: int)
    requires
        is_square(g),
        forall|r: int, c: int| 0 <= r < g.len() && 0 <= c < g.len() ==> #[trigger] label(g, r, c) < g.len(),
        g.len() <= usize::MAX,
        k >= 1,
        is_solution_k(g, s, k),
    ensures
        forall|l: usize| l < g.len() ==> #[trigger] label_set(g).contains(l),
{
    let n = g.len() as int;
    let y = bulls_tab(g, true, s);
    let per_region = |a: int| count_where(s, region_is(g, a));
    let per_row = |x: int| count_where(s, line_is(true, x));
    assert forall|a: int| 0 <= a < n implies #[trigger] crate::transport::row_sums(y, n)(a) == per_region(a) by {
        lemma_bulls_by_line(g, true, s, a);
    }
    assert forall|x: int| 0 <= x < n implies #[trigger] crate::transport::col_sums(y, n)(x) == per_row(x) by {
        lemma_bulls_by_region(g, true, s, x);
    }
    crate::transport::lemma_sum_to_swap(n, n, y);
    crate::transport::lemma_sum_to_ext(n, crate::transport::row_sums(y, n), per_region);
    crate::transport::lemma_sum_to_ext(n, crate::transport::col_sums(y, n), per_row);
    assert forall|x: int| 0 <= x < n implies #[trigger] per_row(x) == k by {
        lemma_count_ext(s, line_is(true, x), in_row(x));
        assert(count_row(s, x) == k);
    }
    lemma_sum_to_const(n, k, per_row);
    assert forall|l: usize| l < g.len() implies #[trigger] label_set(g).contains(l) by {
        if !label_set(g).contains(l) {
            let l0 = l as int;
            let cap = |a: int| if a == l0 { 0int } else { k };
            assert forall|a: int| 0 <= a < n implies #[trigger] per_region(a) <= cap(a) by {
                let f = |p: Pos| label(g, p.0 as int, p.1 as int) == a as usize;
                assert(a as usize as int == a);
                if a == l0 {
                    assert forall|i: int| 0 <= i < s.len() implies !region_is(g, a)(#[trigger] s[i]) by {
                        if region_is(g, a)(s[i]) {
                            assert(label_set(g).contains(l));
                        }
                    }
                    lemma_count_where_zero(s, region_is(g, a));
                } else {
                    lemma_count_ext(s, region_is(g, a), f);
                    if label_set(g).contains(a as usize) {
                        assert(count_label(g, s, a as usize) == k);
                    } else {
                        assert forall|i: int| 0 <= i < s.len() implies !f(#[trigger] s[i]) by {
                            if f(s[i]) {
                                assert(label_set(g).contains(a as usize));
                            }
                        }
                        lemma_count_where_zero(s, f);
                    }
                }
            }
            crate::transport::lemma_sum_to_le(n, per_region, cap);
            let one = |a: int| if a == l0 { k } else { 0int };
            lemma_sum_to_single(n, one, l0, k);
            lemma_sum_to_add(n, cap, one, |a: int| k);
            lemma_sum_to_const(n, k, |a: int| k);
        }
    }
}

} // verus!
