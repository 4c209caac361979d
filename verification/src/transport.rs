//! Finite sums over index ranges, and transports: how `k` units per
//! source can be shipped to sinks needing `k` units each along capped
//! links.

use vstd::prelude::*;

verus! {

/// `f(0) + f(1) + ... + f(n - 1)`.
pub open spec fn sum_to(n: int, f: spec_fn(int) -> int) -> int
    decreases n,
{
    if n <= 0 {
        0
    } else {
        sum_to(n - 1, f) + f(n - 1)
    }
}

/// Sums of functions that agree on the range agree.
pub proof fn lemma_sum_to_ext(n: int, f: spec_fn(int) -> int, g: spec_fn(int) -> int)
    requires
        forall|i: int| 0 <= i < n ==> #[trigger] f(i) == g(i),
    ensures
        sum_to(n, f) == sum_to(n, g),
    decreases n,
{
    if n > 0 {
        lemma_sum_to_ext(n - 1, f, g);
    }
}

/// Sums are monotone.
pub proof fn lemma_sum_to_le(n: int, f: spec_fn(int) -> int, g: spec_fn(int) -> int)
    requires
        forall|i: int| 0 <= i < n ==> #[trigger] f(i) <= g(i),
    ensures
        sum_to(n, f) <= sum_to(n, g),
    decreases n,
{
    if n > 0 {
        lemma_sum_to_le(n - 1, f, g);
    }
}

/// Sums add up.
pub proof fn lemma_sum_to_add(n: int, f: spec_fn(int) -> int, g: spec_fn(int) -> int, h: spec_fn(int) -> int)
    requires
        forall|i: int| 0 <= i < n ==> #[trigger] h(i) == f(i) + g(i),
    ensures
        sum_to(n, h) == sum_to(n, f) + sum_to(n, g),
    decreases n,
{
    if n > 0 {
        lemma_sum_to_add(n - 1, f, g, h);
    }
}

/// A sum of a constant.
pub proof fn lemma_sum_to_const(n: int, c: int, f: spec_fn(int) -> int)
    requires
        n >= 0,
        forall|i: int| 0 <= i < n ==> #[trigger] f(i) == c,
    ensures
        sum_to(n, f) == n * c,
    decreases n,
{
    if n > 0 {
        lemma_sum_to_const(n - 1, c, f);
        assert(n * c == (n - 1) * c + c) by (nonlinear_arith);
    } else {
        assert(n * c == 0) by (nonlinear_arith)
            requires
                n == 0,
        ;
    }
}

/// A sum of non-negative terms is at least each of them, and non-negative.
pub proof fn lemma_sum_to_nonneg(n: int, f: spec_fn(int) -> int)
    requires
        forall|i: int| 0 <= i < n ==> #[trigger] f(i) >= 0,
    ensures
        sum_to(n, f) >= 0,
        forall|i: int| 0 <= i < n ==> #[trigger] f(i) <= sum_to(n, f),
    decreases n,
{
    if n > 0 {
        lemma_sum_to_nonneg(n - 1, f);
    }
}

/// Splitting a range in two.
pub proof fn lemma_sum_to_split(n: int, m: int, f: spec_fn(int) -> int, g: spec_fn(int) -> int)
    requires
        n >= 0,
        m >= 0,
        forall|i: int| 0 <= i < m ==> #[trigger] g(i) == f(n + i),
    ensures
        sum_to(n + m, f) == sum_to(n, f) + sum_to(m, g),
    decreases m,
{
    if m > 0 {
        lemma_sum_to_split(n, m - 1, f, g);
        assert(g(m - 1) == f(n + m - 1));
    }
}

/// A sum with one non-zero term.
pub proof fn lemma_sum_to_single(n: int, f: spec_fn(int) -> int, x0: int, c: int)
    requires
        0 <= x0 < n,
        forall|x: int| 0 <= x < n ==> #[trigger] f(x) == (if x == x0 { c } else { 0 }),
    ensures
        sum_to(n, f) == c,
    decreases n,
{
    if x0 < n - 1 {
        lemma_sum_to_single(n - 1, f, x0, c);
    } else {
        lemma_sum_to_const(n - 1, 0, f);
    }
}

/// Terms at most `c` that add up to `n * c` all equal `c`.
pub proof fn lemma_sum_to_all_max(n: int, f: spec_fn(int) -> int, c: int)
    requires
        n >= 0,
        forall|i: int| 0 <= i < n ==> #[trigger] f(i) <= c,
        sum_to(n, f) == n * c,
    ensures
        forall|i: int| 0 <= i < n ==> #[trigger] f(i) == c,
    decreases n,
{
    if n > 0 {
        let cf = |i: int| c;
        lemma_sum_to_le(n - 1, f, cf);
        lemma_sum_to_const(n - 1, c, cf);
        assert(n * c == (n - 1) * c + c) by (nonlinear_arith);
        lemma_sum_to_all_max(n - 1, f, c);
    }
}

/// Row `a` of a table, as a function of the column.
pub open spec fn row_fn(f: spec_fn(int, int) -> int, a: int) -> spec_fn(int) -> int {
    |x: int| f(a, x)
}

/// Column `x` of a table, as a function of the row.
pub open spec fn col_fn(f: spec_fn(int, int) -> int, x: int) -> spec_fn(int) -> int {
    |a: int| f(a, x)
}

/// The sums of the rows of a table over its first `m` columns.
pub open spec fn row_sums(f: spec_fn(int, int) -> int, m: int) -> spec_fn(int) -> int {
    |a: int| sum_to(m, row_fn(f, a))
}

/// The sums of the columns of a table over its first `n` rows.
pub open spec fn col_sums(f: spec_fn(int, int) -> int, n: int) -> spec_fn(int) -> int {
    |x: int| sum_to(n, col_fn(f, x))
}

/// The order of a double sum does not matter.
pub proof fn lemma_sum_to_swap(n: int, m: int, f: spec_fn(int, int) -> int)
    requires
        n >= 0,
        m >= 0,
    ensures
        sum_to(n, row_sums(f, m)) == sum_to(m, col_sums(f, n)),
    decreases n,
{
    if n > 0 {
        lemma_sum_to_swap(n - 1, m, f);
        let cols = col_sums(f, n);
        let cols1 = col_sums(f, n - 1);
        let last = row_fn(f, n - 1);
        assert forall|x: int| 0 <= x < m implies #[trigger] cols(x) == cols1(x) + last(x) by {
            assert(cols(x) == sum_to(n, col_fn(f, x)));
            assert(sum_to(n, col_fn(f, x)) == sum_to(n - 1, col_fn(f, x)) + col_fn(f, x)(n - 1));
        }
        lemma_sum_to_add(m, cols1, last, cols);
        assert(sum_to(n, row_sums(f, m)) == sum_to(n - 1, row_sums(f, m)) + row_sums(f, m)(n - 1));
        assert(row_sums(f, m)(n - 1) == sum_to(m, last));
    } else {
        lemma_sum_to_const(m, 0, col_sums(f, 0));
    }
}

/// A list's sum is the sum of its entries.
pub proof fn lemma_sum_of_to(xs: Seq<usize>)
    ensures
        crate::regions::sum_of(xs) == sum_to(xs.len() as int, |i: int| xs[i] as int),
    decreases xs.len(),
{
    if xs.len() > 0 {
        let d = xs.drop_last();
        lemma_sum_of_to(d);
        lemma_sum_to_ext(d.len() as int, |i: int| d[i] as int, |i: int| xs[i] as int);
    }
}

/// The entries of an n x n table, as a function.
pub open spec fn table_fn(t: Seq<Vec<usize>>) -> spec_fn(int, int) -> int {
    |a: int, x: int| t[a]@[x] as int
}

/// `y` ships `k` units out of every one of `n` sources and into every one
/// of `n` sinks, never more over a link than its capacity `caps(a, x)`
/// or `k`.
pub open spec fn is_transport(n: int, caps: spec_fn(int, int) -> int, k: int, y: spec_fn(int, int) -> int) -> bool {
    &&& forall|a: int, x: int| 0 <= a < n && 0 <= x < n ==> 0 <= #[trigger] y(a, x) <= caps(a, x) && y(a, x) <= k
    &&& forall|a: int| 0 <= a < n ==> #[trigger] sum_to(n, row_fn(y, a)) == k
    &&& forall|x: int| 0 <= x < n ==> #[trigger] sum_to(n, col_fn(y, x)) == k
}

/// Some transport fits the capacities.
pub open spec fn transport_exists(n: int, caps: spec_fn(int, int) -> int, k: int) -> bool {
    exists|y: spec_fn(int, int) -> int| #[trigger] is_transport(n, caps, k, y)
}

/// Capacities that agree on the table admit the same transports.
pub proof fn lemma_transport_ext(n: int, c1: spec_fn(int, int) -> int, c2: spec_fn(int, int) -> int, k: int)
    requires
        forall|a: int, x: int| 0 <= a < n && 0 <= x < n ==> #[trigger] c1(a, x) == c2(a, x),
    ensures
        transport_exists(n, c1, k) == transport_exists(n, c2, k),
{
    if transport_exists(n, c1, k) {
        let y = choose|y: spec_fn(int, int) -> int| #[trigger] is_transport(n, c1, k, y);
        assert(is_transport(n, c2, k, y));
    }
    if transport_exists(n, c2, k) {
        let y = choose|y: spec_fn(int, int) -> int| #[trigger] is_transport(n, c2, k, y);
        assert(is_transport(n, c1, k, y));
    }
}

} // verus!
