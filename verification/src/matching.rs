use vstd::prelude::*;

use crate::grid::num_false;

verus! {

/// A bipartite graph as a table of n rows, each at least n wide:
/// `t[a][x]` for `x < n` when `a` may take `x`.
pub open spec fn wide_table(t: Seq<Vec<bool>>) -> bool {
    forall|a: int| 0 <= a < t.len() ==> (#[trigger] t[a])@.len() >= t.len()
}

/// `f` assigns every `a` its own `x` along an edge: a perfect matching.
pub open spec fn is_perfect_matching(t: Seq<Vec<bool>>, f: Seq<usize>) -> bool {
    &&& f.len() == t.len()
    &&& forall|a: int| 0 <= a < f.len() ==> (#[trigger] f[a]) < t.len() && t[a]@[f[a] as int]
    &&& forall|a: int, b: int| 0 <= a < f.len() && 0 <= b < f.len() && a != b ==> f[a] != f[b]
}

/// `t` has a perfect matching.
pub open spec fn has_perfect_matching(t: Seq<Vec<bool>>) -> bool {
    exists|f: Seq<usize>| #[trigger] is_perfect_matching(t, f)
}

/// `a` is matched somewhere in `m`.
pub open spec fn is_matched(m: Seq<usize>, a: usize) -> bool {
    exists|x: int| 0 <= x < m.len() && m[x] == a
}

/// Every matched slot of `m` is an edge of `t`.
pub open spec fn valid_match(t: Seq<Vec<bool>>, m: Seq<usize>) -> bool {
    &&& m.len() == t.len()
    &&& forall|x: int|
        0 <= x < m.len() && #[trigger] m[x] != usize::MAX ==> m[x] < t.len() && t[m[x] as int]@[x]
}

/// How many slots of `m` hold `b`.
pub open spec fn count_val(m: Seq<usize>, b: usize) -> nat
    decreases m.len(),
{
    if m.len() == 0 {
        0
    } else {
        count_val(m.drop_last(), b) + if m.last() == b {
            1nat
        } else {
            0nat
        }
    }
}

/// Every `a` holds at most one slot of `m`.
pub open spec fn one_slot_each(m: Seq<usize>) -> bool {
    forall|b: usize| b != usize::MAX ==> #[trigger] count_val(m, b) <= 1
}

/// Overwriting one slot moves one count.
pub proof fn lemma_count_val_update(m: Seq<usize>, i: int, v: usize, b: usize)
    requires
        0 <= i < m.len(),
    ensures
        count_val(m.update(i, v), b) + (if m[i] == b { 1int } else { 0int }) == count_val(m, b) + (if v == b {
            1int
        } else {
            0int
        }),
    decreases m.len(),
{
    let u = m.update(i, v);
    if i == m.len() - 1 {
        assert(u.drop_last() =~= m.drop_last());
    } else {
        assert(u.drop_last() =~= m.drop_last().update(i, v));
        lemma_count_val_update(m.drop_last(), i, v, b);
    }
}

/// A value held at some slot is counted.
pub proof fn lemma_count_val_pos(m: Seq<usize>, i: int)
    requires
        0 <= i < m.len(),
    ensures
        count_val(m, m[i]) >= 1,
    decreases m.len(),
{
    if i < m.len() - 1 {
        assert(m.drop_last()[i] == m[i]);
        lemma_count_val_pos(m.drop_last(), i);
    }
}

/// A value held at two slots is counted twice.
pub proof fn lemma_count_val_two(m: Seq<usize>, i: int, j: int)
    requires
        0 <= i < m.len(),
        0 <= j < m.len(),
        i != j,
        m[i] == m[j],
    ensures
        count_val(m, m[i]) >= 2,
    decreases m.len(),
{
    let d = m.drop_last();
    if i == m.len() - 1 {
        assert(d[j] == m[j]);
        lemma_count_val_pos(d, j);
    } else if j == m.len() - 1 {
        assert(d[i] == m[i]);
        lemma_count_val_pos(d, i);
    } else {
        assert(d[i] == m[i]);
        assert(d[j] == m[j]);
        lemma_count_val_two(d, i, j);
    }
}

/// A counted value is held at some slot.
pub proof fn lemma_count_val_witness(m: Seq<usize>, b: usize)
    requires
        count_val(m, b) >= 1,
    ensures
        exists|i: int| 0 <= i < m.len() && m[i] == b,
    decreases m.len(),
{
    if m.last() != b {
        lemma_count_val_witness(m.drop_last(), b);
        let i = choose|i: int| 0 <= i < m.drop_last().len() && m.drop_last()[i] == b;
        assert(m[i] == b);
    } else {
        assert(m[m.len() - 1] == b);
    }
}

/// A value held nowhere is not counted.
pub proof fn lemma_count_val_zero(m: Seq<usize>, b: usize)
    requires
        forall|i: int| 0 <= i < m.len() ==> m[i] != b,
    ensures
        count_val(m, b) == 0,
{
    if count_val(m, b) >= 1 {
        lemma_count_val_witness(m, b);
    }
}

/// Hall's obstruction: if `a` is unmatched, every neighbour of `a` is seen,
/// and every seen slot is matched to someone whose neighbours are all
/// seen, then `a` and the owners of the seen slots are one more than the
/// slots they all crowd into, and no perfect matching exists.
pub proof fn lemma_no_perfect_matching(t: Seq<Vec<bool>>, m: Seq<usize>, seen: Seq<bool>, a: usize)
    requires
        wide_table(t),
        valid_match(t, m),
        seen.len() == t.len(),
        a < t.len(),
        one_slot_each(m),
        forall|x: int| 0 <= x < m.len() ==> m[x] != a,
        forall|x: int| 0 <= x < t.len() && #[trigger] t[a as int]@[x] ==> seen[x],
        forall|x: int|
            0 <= x < t.len() && #[trigger] seen[x] ==> m[x] != usize::MAX && forall|y: int|
                0 <= y < t.len() && #[trigger] t[m[x] as int]@[y] ==> seen[y],
    ensures
        !has_perfect_matching(t),
{
    let n = t.len() as int;
    let xs = Set::new(|x: int| 0 <= x < n && seen[x]);
    vstd::set_lib::lemma_int_range(0, n);
    assert(xs.subset_of(vstd::set_lib::set_int_range(0, n)));
    vstd::set_lib::lemma_len_subset(xs, vstd::set_lib::set_int_range(0, n));
    let g = |x: int| m[x] as int;
    assert(vstd::relations::injective_on(g, xs)) by {
        assert forall|x1: int, x2: int| xs.contains(x1) && xs.contains(x2) && g(x1) == g(x2) implies x1 == x2 by {
            if x1 != x2 {
                lemma_count_val_two(m, x1, x2);
                assert(count_val(m, m[x1]) <= 1);
            }
        }
    }
    let xm = xs.map(g);
    vstd::set_lib::lemma_map_size(xs, xm, g);
    assert(!xm.contains(a as int));
    let ss = xm.insert(a as int);
    assert(ss.len() == xs.len() + 1);
    if has_perfect_matching(t) {
        let f = choose|f: Seq<usize>| #[trigger] is_perfect_matching(t, f);
        let h = |b: int| f[b] as int;
        assert forall|b: int| ss.contains(b) implies 0 <= b < n by {
            if b != a as int {
                let x = choose|x: int| xs.contains(x) && b == g(x);
                assert(m[x] != usize::MAX);
            }
        }
        assert(vstd::relations::injective_on(h, ss)) by {
            assert forall|b1: int, b2: int| ss.contains(b1) && ss.contains(b2) && h(b1) == h(b2) implies b1 == b2 by {}
        }
        let img = ss.map(h);
        vstd::set_lib::lemma_map_size(ss, img, h);
        assert(img.subset_of(xs)) by {
            assert forall|y: int| img.contains(y) implies xs.contains(y) by {
                let b = choose|b: int| ss.contains(b) && y == h(b);
                assert(t[b]@[f[b] as int]);
                if b != a as int {
                    let x = choose|x: int| xs.contains(x) && b == g(x);
                    assert(seen[x]);
                    assert(t[m[x] as int]@[f[b] as int]);
                }
            }
        }
        vstd::set_lib::lemma_len_subset(img, xs);
    }
}

/// Find `a` a partner along an augmenting path, visiting only slots not
/// yet `seen`; true when `a` got one.
fn augment(a: usize, touch: &Vec<Vec<bool>>, seen: &mut Vec<bool>, matched: &mut Vec<usize>) -> (r: bool)
    requires
        wide_table(touch@),
        a < touch@.len(),
        old(seen)@.len() == touch@.len(),
        valid_match(touch@, old(matched)@),
        touch@.len() < usize::MAX,
        one_slot_each(old(matched)@),
        forall|x: int| 0 <= x < old(matched)@.len() && old(matched)@[x] == a ==> old(seen)@[x],
    ensures
        final(seen)@.len() == old(seen)@.len(),
        forall|x: int| 0 <= x < old(seen)@.len() && old(seen)@[x] ==> final(seen)@[x],
        valid_match(touch@, final(matched)@),
        forall|x: int| 0 <= x < old(seen)@.len() && old(seen)@[x] ==> #[trigger] final(matched)@[x] == old(matched)@[x],
        !r ==> final(matched)@ == old(matched)@,
        r ==> exists|x: int| 0 <= x < touch@.len() && !old(seen)@[x] && final(matched)@[x] == a,
        r ==> forall|b: usize| b < touch@.len() && is_matched(old(matched)@, b) ==> #[trigger] is_matched(final(matched)@, b),
        r ==> count_val(final(matched)@, a) == count_val(old(matched)@, a) + 1,
        r ==> forall|b: usize| b != a && b != usize::MAX ==> #[trigger] count_val(final(matched)@, b) == count_val(old(matched)@, b),
        !r ==> forall|x: int| 0 <= x < touch@.len() && #[trigger] touch@[a as int]@[x] ==> final(seen)@[x],
        !r ==> forall|x: int|
            0 <= x < touch@.len() && #[trigger] final(seen)@[x] && !old(seen)@[x] ==> final(matched)@[x] != usize::MAX
                && forall|y: int| 0 <= y < touch@.len() && #[trigger] touch@[final(matched)@[x] as int]@[y] ==> final(seen)@[y],
    decreases num_false(old(seen)@),
{
    let n = touch.len();
    let mut x: usize = 0;
    while x < n
        invariant
            n == touch@.len(),
            wide_table(touch@),
            a < n,
            n < usize::MAX,
            0 <= x <= n,
            seen@.len() == n,
            old(seen)@.len() == n,
            forall|y: int| 0 <= y < n && old(seen)@[y] ==> seen@[y],
            matched@ == old(matched)@,
            valid_match(touch@, matched@),
            one_slot_each(old(matched)@),
            forall|y: int| 0 <= y < n && old(matched)@[y] == a ==> old(seen)@[y],
            forall|y: int| 0 <= y < x && #[trigger] touch@[a as int]@[y] ==> seen@[y],
            forall|y: int|
                0 <= y < n && #[trigger] seen@[y] && !old(seen)@[y] ==> matched@[y] != usize::MAX && forall|z: int|
                    0 <= z < n && #[trigger] touch@[matched@[y] as int]@[z] ==> seen@[z],
        decreases n - x,
    {
        proof {
            assert(touch@[a as int]@.len() >= n);
        }
        if touch[a][x] && !seen[x] {
            let ghost s0 = seen@;
            seen.set(x, true);
            proof {
                crate::grid::lemma_num_false_set(s0, x as int);
            }
            let b = matched[x];
            let mut ok = b == usize::MAX;
            let ghost m0 = matched@;
            let ghost s1 = seen@;
            if !ok {
                proof {
                    assert(b < n);
                    crate::grid::lemma_num_false_mono(old(seen)@, s0);
                    assert forall|y: int| 0 <= y < matched@.len() && matched@[y] == b implies seen@[y] by {
                        if y != x {
                            lemma_count_val_two(matched@, x as int, y);
                        }
                    }
                }
                ok = augment(b, touch, seen, matched);
            }
            if ok {
                let ghost m1 = matched@;
                matched.set(x, a);
                proof {
                    assert(b != a) by {
                        if b == a {
                            assert(old(seen)@[x as int]);
                        }
                    }
                    assert(m1[x as int] == b) by {
                        if b != usize::MAX {
                            assert(s1[x as int]);
                        }
                    }
                    lemma_count_val_update(m1, x as int, a, a);
                    assert forall|c: usize| c != a && c != usize::MAX implies #[trigger] count_val(matched@, c) == count_val(old(matched)@, c) by {
                        lemma_count_val_update(m1, x as int, a, c);
                        if b == usize::MAX {
                            assert(m1 == m0);
                        } else {
                            if c == b {
                                assert(count_val(m1, b) == count_val(m0, b) + 1);
                            } else {
                                assert(count_val(m1, c) == count_val(m0, c));
                            }
                        }
                    }
                    if b != usize::MAX {
                        assert(count_val(m1, a) == count_val(m0, a));
                    }
                    assert(!old(seen)@[x as int]);
                    assert(matched@[x as int] == a);
                    assert forall|bb: usize| bb < n && is_matched(old(matched)@, bb) implies #[trigger] is_matched(matched@, bb) by {
                        let y = choose|y: int| 0 <= y < n && old(matched)@[y] == bb;
                        if b == usize::MAX {
                            if y != x {
                                assert(matched@[y] == bb);
                            } else {
                                assert(old(matched)@[y] == b);
                            }
                        } else {
                            assert(is_matched(m1, bb));
                            let y1 = choose|y1: int| 0 <= y1 < n && m1[y1] == bb;
                            if y1 != x {
                                assert(matched@[y1] == bb);
                            } else {
                                assert(m1[x as int] == m0[x as int]);
                                assert(bb == b);
                                let y2 = choose|y2: int| 0 <= y2 < n && !s0.update(x as int, true)[y2] && m1[y2] == b;
                                assert(y2 != x);
                                assert(matched@[y2] == bb);
                            }
                        }
                    }
                    assert(valid_match(touch@, matched@)) by {
                        assert forall|y: int| 0 <= y < n && #[trigger] matched@[y] != usize::MAX implies matched@[y] < n
                            && touch@[matched@[y] as int]@[y] by {
                            if y != x {
                                assert(matched@[y] == m1[y]);
                            }
                        }
                    }
                }
                return true;
            }
            proof {
                assert(matched@ == old(matched)@);
                assert(seen@[x as int]);
            }
        }
        x = x + 1;
    }
    false
}

/// Maximum bipartite matching between regions and rows (or columns)
/// via augmenting paths; true if a perfect matching exists.
/// `touch[region][x]` = region has a cell in row/col x.
pub fn perfect_matching(touch: &Vec<Vec<bool>>) -> (r: bool)
    requires
        wide_table(touch@),
        touch@.len() < usize::MAX,
    ensures
        r == has_perfect_matching(touch@),
{
    let n = touch.len();
    let mut matched: Vec<usize> = vec![usize::MAX; n];
    let mut a: usize = 0;
    proof {
        assert forall|x: int| 0 <= x < matched@.len() && #[trigger] matched@[x] != usize::MAX implies matched@[x] < n
            && touch@[matched@[x] as int]@[x] by {}
        assert forall|b: usize| b != usize::MAX implies #[trigger] count_val(matched@, b) <= 1 by {
            lemma_count_val_zero(matched@, b);
        }
    }
    while a < n
        invariant
            n == touch@.len(),
            wide_table(touch@),
            n < usize::MAX,
            0 <= a <= n,
            valid_match(touch@, matched@),
            forall|b: usize| b < a ==> #[trigger] is_matched(matched@, b),
            one_slot_each(matched@),
            forall|x: int| 0 <= x < matched@.len() && matched@[x] != usize::MAX ==> matched@[x] < a,
        decreases n - a,
    {
        let mut seen: Vec<bool> = vec![false; n];
        let ghost m0 = matched@;
        let ok = augment(a, touch, &mut seen, &mut matched);
        if !ok {
            proof {
                lemma_no_perfect_matching(touch@, matched@, seen@, a);
            }
            return false;
        }
        proof {
            lemma_count_val_zero(m0, a);
            assert forall|b: usize| b != usize::MAX implies #[trigger] count_val(matched@, b) <= 1 by {
                if b != a {
                    assert(count_val(matched@, b) == count_val(m0, b));
                }
            }
            assert forall|x: int| 0 <= x < matched@.len() && matched@[x] != usize::MAX implies matched@[x] < a + 1 by {
                let c = matched@[x];
                if c != a {
                    lemma_count_val_pos(matched@, x);
                    assert(count_val(matched@, c) == count_val(m0, c));
                    lemma_count_val_witness(m0, c);
                }
            }
            assert forall|b: usize| b < a + 1 implies #[trigger] is_matched(matched@, b) by {
                if b == a {
                    assert(is_matched(matched@, a));
                }
            }
        }
        a = a + 1;
    }
    proof {
        let m = matched@;
        let fu = Seq::new(n as nat, |b: int| (choose|x: int| 0 <= x < m.len() && m[x] == b as usize) as usize);
        assert forall|b: int| 0 <= b < fu.len() implies (#[trigger] fu[b]) < n && touch@[b]@[fu[b] as int] by {
            assert(is_matched(m, b as usize));
        }
        assert forall|b1: int, b2: int| 0 <= b1 < fu.len() && 0 <= b2 < fu.len() && b1 != b2 implies fu[b1] != fu[b2] by {
            assert(is_matched(m, b1 as usize));
            assert(is_matched(m, b2 as usize));
        }
        assert(is_perfect_matching(touch@, fu));
    }
    true
}

} // verus!
