//! Counting facts behind the completeness of the Algorithm M search: how a
//! solution that extends the search path spreads its remaining bulls over
//! the columns.

use vstd::prelude::*;

use crate::board::{
    count_col_of, count_label, count_row, count_where, is_solution_k, label, label_set, lemma_count_concat, lemma_count_ext,
    lemma_count_pos, lemma_count_where_zero, Pos,
};
use crate::double::{count_cov, id_labels, lemma_count_cov_where, lemma_id_labels};
use crate::solver::{cell_of, covers, lemma_cell_of, lemma_cell_of_id, sol_of, MAX_SIDE};

verus! {

/// The option (matrix row) of cell `p` on an n x n board.
pub open spec fn opt_of(n: int, p: Pos) -> int {
    p.0 * n + p.1
}

/// Whether the option of a cell provides column `h`.
pub open spec fn cover_test(g: Seq<Vec<usize>>, h: int) -> spec_fn(Pos) -> bool {
    |p: Pos| covers(g, id_labels(g.len() as int), opt_of(g.len() as int, p), h)
}

/// Every label below n occurs on the n x n board `g`.
pub open spec fn all_labels(g: Seq<Vec<usize>>) -> bool {
    forall|l: usize| l < g.len() ==> #[trigger] label_set(g).contains(l)
}

/// The usual shape of a board given to the solver.
pub open spec fn board_ok(g: Seq<Vec<usize>>) -> bool {
    &&& 0 < g.len() <= MAX_SIDE
    &&& crate::board::is_square(g)
    &&& forall|r: int, c: int| 0 <= r < g.len() && 0 <= c < g.len() ==> #[trigger] label(g, r, c) < g.len()
    &&& all_labels(g)
}

/// The option of an in-range cell, and back.
pub proof fn lemma_opt_of(n: int, p: Pos)
    requires
        0 < n <= MAX_SIDE,
        p.0 < n,
        p.1 < n,
    ensures
        0 <= opt_of(n, p) < n * n,
        cell_of(n, opt_of(n, p)) == p,
        opt_of(n, p) / n == p.0,
        opt_of(n, p) % n == p.1,
{
    lemma_cell_of(n, p.0 as int, p.1 as int);
    lemma_cell_of_id(n, opt_of(n, p));
}

/// The cell of an option, and back.
pub proof fn lemma_of_opt(n: int, o: int)
    requires
        0 < n <= MAX_SIDE,
        0 <= o < n * n,
    ensures
        opt_of(n, cell_of(n, o)) == o,
        cell_of(n, o).0 < n,
        cell_of(n, o).1 < n,
{
    lemma_cell_of_id(n, o);
}

/// Which columns the option of an in-range cell provides.
pub proof fn lemma_cover_test(g: Seq<Vec<usize>>, h: int, p: Pos)
    requires
        board_ok(g),
        p.0 < g.len(),
        p.1 < g.len(),
    ensures
        cover_test(g, h)(p) <==> (h == 1 + p.0 || h == 1 + g.len() + p.1 || h == 1 + 2 * g.len() + label(
            g,
            p.0 as int,
            p.1 as int,
        )),
{
    let n = g.len() as int;
    lemma_opt_of(n, p);
    lemma_id_labels(n, label(g, p.0 as int, p.1 as int));
}

/// A solution extending the cells of the placed options `pl` by `x` gives
/// every column `k` bulls: those of `pl` and those of `x`.
pub proof fn lemma_extra_count(g: Seq<Vec<usize>>, k: int, pl: Seq<usize>, x: Seq<Pos>, h: int)
    requires
        board_ok(g),
        forall|i: int| 0 <= i < pl.len() ==> #[trigger] pl[i] < g.len() * g.len(),
        is_solution_k(g, sol_of(g.len() as int, pl) + x, k),
        1 <= h <= 3 * g.len(),
    ensures
        count_where(x, cover_test(g, h)) + count_cov(g, pl, h) == k,
{
    let n = g.len() as int;
    let c = sol_of(n, pl);
    let s = c + x;
    let ch = cover_test(g, h);
    assert forall|i: int| 0 <= i < pl.len() implies (covers(g, id_labels(n), #[trigger] pl[i] as int, h) == ch(
        cell_of(n, pl[i] as int),
    )) by {
        lemma_of_opt(n, pl[i] as int);
    }
    lemma_count_cov_where(g, pl, h, ch);
    lemma_count_concat(c, x, ch);
    assert(s.subrange(0, c.len() as int) =~= c);
    if h <= n {
        let r = h - 1;
        assert forall|i: int| 0 <= i < s.len() implies ch(#[trigger] s[i]) == (s[i].0 == r) by {
            lemma_cover_test(g, h, s[i]);
        }
        crate::board::lemma_count_row_ext(s, r, ch);
        assert(count_row(s, r) == k);
    } else if h <= 2 * n {
        let cc = h - 1 - n;
        assert forall|i: int| 0 <= i < s.len() implies ch(#[trigger] s[i]) == (s[i].1 == cc) by {
            lemma_cover_test(g, h, s[i]);
        }
        crate::board::lemma_count_col_ext(s, cc, ch);
        assert(count_col_of(s, cc) == k);
    } else {
        let l = (h - 1 - 2 * n) as usize;
        assert forall|i: int| 0 <= i < s.len() implies ch(#[trigger] s[i]) == (label(g, s[i].0 as int, s[i].1 as int) == l) by {
            lemma_cover_test(g, h, s[i]);
        }
        crate::board::lemma_count_label_ext(g, s, l, ch);
        assert(label_set(g).contains(l));
        assert(count_label(g, s, l) == k);
    }
    assert(count_where(c, ch) == count_cov(g, pl, h));
}

/// With every column already full, nothing can be added: the only solution
/// extending the placed options is theirs.
pub proof fn lemma_full_no_extra(g: Seq<Vec<usize>>, k: int, pl: Seq<usize>, x: Seq<Pos>)
    requires
        board_ok(g),
        forall|i: int| 0 <= i < pl.len() ==> #[trigger] pl[i] < g.len() * g.len(),
        is_solution_k(g, sol_of(g.len() as int, pl) + x, k),
        forall|h: int| 1 <= h <= 3 * g.len() ==> #[trigger] count_cov(g, pl, h) == k,
    ensures
        x.len() == 0,
{
    if x.len() > 0 {
        let n = g.len() as int;
        let s = sol_of(n, pl) + x;
        let e = x[0];
        assert(s[sol_of(n, pl).len() as int] == e);
        let h = 1 + e.0 as int;
        lemma_cover_test(g, h, e);
        lemma_count_pos(x, cover_test(g, h), 0);
        lemma_extra_count(g, k, pl, x, h);
        assert(count_cov(g, pl, h) == k);
    }
}

/// A column that some extra cell provides is not yet full.
pub proof fn lemma_extra_column_open(g: Seq<Vec<usize>>, k: int, pl: Seq<usize>, x: Seq<Pos>, j: int, h: int)
    requires
        board_ok(g),
        forall|i: int| 0 <= i < pl.len() ==> #[trigger] pl[i] < g.len() * g.len(),
        is_solution_k(g, sol_of(g.len() as int, pl) + x, k),
        0 <= j < x.len(),
        1 <= h <= 3 * g.len(),
        cover_test(g, h)(x[j]),
    ensures
        count_cov(g, pl, h) < k,
{
    lemma_count_pos(x, cover_test(g, h), j);
    lemma_extra_count(g, k, pl, x, h);
}

/// A column that still needs bulls is provided by some extra cell.
pub proof fn lemma_extra_provides(g: Seq<Vec<usize>>, k: int, pl: Seq<usize>, x: Seq<Pos>, h: int) -> (j: int)
    requires
        board_ok(g),
        forall|i: int| 0 <= i < pl.len() ==> #[trigger] pl[i] < g.len() * g.len(),
        is_solution_k(g, sol_of(g.len() as int, pl) + x, k),
        1 <= h <= 3 * g.len(),
        count_cov(g, pl, h) < k,
    ensures
        0 <= j < x.len(),
        cover_test(g, h)(x[j]),
{
    lemma_extra_count(g, k, pl, x, h);
    if forall|i: int| 0 <= i < x.len() ==> !cover_test(g, h)(#[trigger] x[i]) {
        lemma_count_where_zero(x, cover_test(g, h));
    }
    choose|i: int| 0 <= i < x.len() && cover_test(g, h)(x[i])
}

} // verus!
