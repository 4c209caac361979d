//! Connected regions: every two cells of one region are joined by side
//! steps inside it.

use vstd::prelude::*;

use crate::board::{label, Pos};
use crate::grid::{
    anchors_of, contiguous_without, in_region, is_walk, lemma_orth_spec, linked, orth_adj, orth_spec, rows_of, same_label,
    set_label, walk_step,
};
use crate::regions::UNASSIGNED;

verus! {

/// A cell off every board of side `g.len()`: walks that avoid it avoid
/// nothing.
pub open spec fn nowhere(g: Seq<Vec<usize>>) -> Pos {
    (g.len() as usize, g.len() as usize)
}

/// Every region is connected: any two cells with one label (other than
/// the unassigned marker) are joined by side steps through cells of that
/// label.
pub open spec fn regions_connected(g: Seq<Vec<usize>>) -> bool {
    forall|a: Pos, b: Pos|
        a.0 < g.len() && a.1 < g.len() && b.0 < g.len() && b.1 < g.len() && #[trigger] label(g, a.0 as int, a.1 as int)
            == #[trigger] label(g, b.0 as int, b.1 as int) && label(g, a.0 as int, a.1 as int) != UNASSIGNED ==> linked(
            g,
            label(g, a.0 as int, a.1 as int),
            nowhere(g),
            a,
            b,
        )
}

/// A single cell of the region is a walk.
pub proof fn lemma_walk_one(g: Seq<Vec<usize>>, reg: usize, avoid: Pos, a: Pos)
    requires
        in_region(g, reg, avoid, a),
    ensures
        is_walk(g, reg, avoid, seq![a]),
        linked(g, reg, avoid, a, a),
{
    assert(is_walk(g, reg, avoid, seq![a]));
}

/// A walk backwards is a walk.
pub proof fn lemma_walk_rev(g: Seq<Vec<usize>>, reg: usize, avoid: Pos, w: Seq<Pos>)
    requires
        is_walk(g, reg, avoid, w),
    ensures
        is_walk(g, reg, avoid, w.reverse()),
        w.reverse()[0] == w.last(),
        w.reverse().last() == w[0],
{
    let r = w.reverse();
    assert forall|i: int| 0 <= i < r.len() - 1 implies #[trigger] walk_step(r, i) by {
        let j = w.len() - 2 - i;
        assert(walk_step(w, j));
        assert(r[i] == w[j + 1]);
        assert(r[i + 1] == w[j]);
    }
    assert forall|i: int| 0 <= i < r.len() implies in_region(g, reg, avoid, #[trigger] r[i]) by {
        assert(r[i] == w[w.len() - 1 - i]);
    }
}

/// Two walks meeting end to start make one walk.
pub proof fn lemma_walk_join(g: Seq<Vec<usize>>, reg: usize, avoid: Pos, w1: Seq<Pos>, w2: Seq<Pos>)
    requires
        is_walk(g, reg, avoid, w1),
        is_walk(g, reg, avoid, w2),
        w1.last() == w2[0],
    ensures
        is_walk(g, reg, avoid, w1 + w2.drop_first()),
        (w1 + w2.drop_first())[0] == w1[0],
        (w1 + w2.drop_first()).last() == w2.last(),
{
    let w = w1 + w2.drop_first();
    let l1 = w1.len() as int;
    assert forall|i: int| 0 <= i < w.len() - 1 implies #[trigger] walk_step(w, i) by {
        if i < l1 - 1 {
            assert(walk_step(w1, i));
        } else {
            let j = i - l1 + 1;
            assert(walk_step(w2, j));
            if i == l1 - 1 {
                assert(w[i] == w1.last());
            } else {
                assert(w[i] == w2[j]);
            }
            assert(w[i + 1] == w2[j + 1]);
        }
    }
    assert forall|i: int| 0 <= i < w.len() implies in_region(g, reg, avoid, #[trigger] w[i]) by {
        if i < l1 {
            assert(w[i] == w1[i]);
        } else {
            assert(w[i] == w2[i - l1 + 1]);
        }
    }
    if w2.len() == 1 {
        assert(w.last() == w1.last());
    }
}

/// Linked cells chain.
pub proof fn lemma_linked_trans(g: Seq<Vec<usize>>, reg: usize, avoid: Pos, a: Pos, b: Pos, c: Pos)
    requires
        linked(g, reg, avoid, a, b),
        linked(g, reg, avoid, b, c),
    ensures
        linked(g, reg, avoid, a, c),
{
    let w1 = choose|w: Seq<Pos>| #[trigger] is_walk(g, reg, avoid, w) && w[0] == a && w.last() == b;
    let w2 = choose|w: Seq<Pos>| #[trigger] is_walk(g, reg, avoid, w) && w[0] == b && w.last() == c;
    lemma_walk_join(g, reg, avoid, w1, w2);
}

/// Linking goes both ways.
pub proof fn lemma_linked_sym(g: Seq<Vec<usize>>, reg: usize, avoid: Pos, a: Pos, b: Pos)
    requires
        linked(g, reg, avoid, a, b),
    ensures
        linked(g, reg, avoid, b, a),
{
    let w = choose|w: Seq<Pos>| #[trigger] is_walk(g, reg, avoid, w) && w[0] == a && w.last() == b;
    lemma_walk_rev(g, reg, avoid, w);
}

/// A walk stays a walk on a grid that labels its cells the same, and that
/// avoids a cell the walk does not enter.
pub proof fn lemma_walk_frame(
    g1: Seq<Vec<usize>>,
    g2: Seq<Vec<usize>>,
    reg: usize,
    av1: Pos,
    av2: Pos,
    w: Seq<Pos>,
)
    requires
        is_walk(g1, reg, av1, w),
        g2.len() == g1.len(),
        forall|i: int| 0 <= i < w.len() ==> #[trigger] label(g2, w[i].0 as int, w[i].1 as int) == label(g1, w[i].0 as int, w[i].1 as int),
        forall|i: int| 0 <= i < w.len() ==> #[trigger] w[i] != av2,
    ensures
        is_walk(g2, reg, av2, w),
{
    assert forall|i: int| 0 <= i < w.len() implies in_region(g2, reg, av2, #[trigger] w[i]) by {
        assert(in_region(g1, reg, av1, w[i]));
    }
}

/// The side neighbours of `p` in its region are its anchors.
pub proof fn lemma_anchor_member(g: Seq<Vec<usize>>, p: Pos, x: Pos)
    requires
        p.0 < g.len(),
        p.1 < g.len(),
        x.0 < g.len(),
        x.1 < g.len(),
        g.len() <= usize::MAX,
        orth_adj(p, x),
        label(g, x.0 as int, x.1 as int) == label(g, p.0 as int, p.1 as int),
    ensures
        anchors_of(g, p.0, p.1).contains(x),
{
    lemma_orth_spec(p.0, p.1, g.len() as usize);
    lemma_same_label_member(g, label(g, p.0 as int, p.1 as int), orth_spec(p.0, p.1, g.len() as usize), x);
}

/// A listed cell with the label is kept by `same_label`.
pub proof fn lemma_same_label_member(g: Seq<Vec<usize>>, reg: usize, s: Seq<Pos>, x: Pos)
    requires
        s.contains(x),
        label(g, x.0 as int, x.1 as int) == reg,
    ensures
        same_label(g, reg, s).contains(x),
    decreases s.len(),
{
    if s.last() == x {
        let t = same_label(g, reg, s.drop_last());
        assert(same_label(g, reg, s) == t.push(x));
        assert(t.push(x)[t.len() as int] == x);
    } else {
        let i = choose|i: int| 0 <= i < s.len() && s[i] == x;
        assert(s.drop_last()[i] == x);
        lemma_same_label_member(g, reg, s.drop_last(), x);
        let t = same_label(g, reg, s.drop_last());
        let k = choose|k: int| 0 <= k < t.len() && t[k] == x;
        if label(g, s.last().0 as int, s.last().1 as int) == reg {
            assert(t.push(s.last())[k] == x);
        }
    }
}

/// A walk in region `reg` through `p` can be rerouted around `p` when the
/// region minus `p` stays connected.
pub proof fn lemma_reroute(g: Seq<Vec<usize>>, p: Pos, w: Seq<Pos>)
    requires
        contiguous_without(g, p.0, p.1),
        is_walk(g, label(g, p.0 as int, p.1 as int), nowhere(g), w),
        w[0] != p,
        w.last() != p,
        p.0 < g.len(),
        p.1 < g.len(),
        g.len() < usize::MAX,
    ensures
        linked(g, label(g, p.0 as int, p.1 as int), p, w[0], w.last()),
    decreases w.len(),
{
    let reg = label(g, p.0 as int, p.1 as int);
    let nw = nowhere(g);
    if forall|i: int| 0 <= i < w.len() ==> #[trigger] w[i] != p {
        lemma_walk_frame(g, g, reg, nw, p, w);
    } else {
        let i = choose|i: int| 0 <= i < w.len() && #[trigger] w[i] == p;
        // the part before p, and the part after it
        let pre = w.subrange(0, i);
        let post = w.subrange(i + 1, w.len() as int);
        assert(i > 0 && i < w.len() - 1);
        assert(walk_step(w, i - 1));
        assert(walk_step(w, i));
        let x = w[i - 1];
        let y = w[i + 1];
        assert(in_region(g, reg, nw, x) && in_region(g, reg, nw, y));
        assert(is_walk(g, reg, nw, pre)) by {
            assert forall|j: int| 0 <= j < pre.len() - 1 implies #[trigger] walk_step(pre, j) by {
                assert(walk_step(w, j));
            }
        }
        assert(is_walk(g, reg, nw, post)) by {
            assert forall|j: int| 0 <= j < post.len() - 1 implies #[trigger] walk_step(post, j) by {
                assert(walk_step(w, i + 1 + j));
            }
        }
        // x and y are anchors of p, linked around p
        assert(orth_adj(p, x)) by {
            assert(orth_adj(x, p));
        }
        lemma_anchor_member(g, p, x);
        lemma_anchor_member(g, p, y);
        let an = anchors_of(g, p.0, p.1);
        let ix = choose|k: int| 0 <= k < an.len() && an[k] == x;
        let iy = choose|k: int| 0 <= k < an.len() && an[k] == y;
        assert(linked(g, reg, p, an[0], an[ix]));
        assert(linked(g, reg, p, an[0], an[iy]));
        lemma_linked_sym(g, reg, p, an[0], x);
        lemma_linked_trans(g, reg, p, x, an[0], y);
        // the pieces before and after p, each rerouted in turn
        lemma_reroute(g, p, pre);
        lemma_reroute(g, p, post);
        lemma_linked_trans(g, reg, p, w[0], x, y);
        lemma_linked_trans(g, reg, p, w[0], y, w.last());
    }
}

/// Moving a cell `p` whose region stays connected without it into the
/// region of a side neighbour `q` keeps every region connected.
pub proof fn lemma_relabel_connected(g0: Seq<Vec<usize>>, g1: Seq<Vec<usize>>, p: Pos, q: Pos)
    requires
        regions_connected(g0),
        contiguous_without(g0, p.0, p.1),
        p.0 < g0.len() && p.1 < g0.len(),
        q.0 < g0.len() && q.1 < g0.len(),
        g0.len() < usize::MAX,
        forall|r: int| 0 <= r < g0.len() ==> (#[trigger] g0[r])@.len() == g0.len(),
        orth_adj(p, q),
        label(g0, q.0 as int, q.1 as int) != label(g0, p.0 as int, p.1 as int),
        g1.len() == g0.len(),
        rows_of(g1) == set_label(g0, p, label(g0, q.0 as int, q.1 as int)),
    ensures
        regions_connected(g1),
{
    let n = g0.len() as int;
    let la = label(g0, p.0 as int, p.1 as int);
    let lb = label(g0, q.0 as int, q.1 as int);
    let nw = nowhere(g0);
    assert(nowhere(g1) == nw);
    // labels after the move
    assert forall|x: Pos| x.0 < n && x.1 < n implies #[trigger] label(g1, x.0 as int, x.1 as int) == (if x == p {
        lb
    } else {
        label(g0, x.0 as int, x.1 as int)
    }) by {
        assert(rows_of(g1)[x.0 as int] == g1[x.0 as int]@);
        if x.0 != p.0 {
            assert(set_label(g0, p, lb)[x.0 as int] == g0[x.0 as int]@);
        }
    }
    assert forall|a: Pos, b: Pos|
        a.0 < n && a.1 < n && b.0 < n && b.1 < n && #[trigger] label(g1, a.0 as int, a.1 as int) == #[trigger] label(
            g1,
            b.0 as int,
            b.1 as int,
        ) && label(g1, a.0 as int, a.1 as int) != UNASSIGNED implies linked(
        g1,
        label(g1, a.0 as int, a.1 as int),
        nowhere(g1),
        a,
        b,
    ) by {
        let l = label(g1, a.0 as int, a.1 as int);
        if a != p && b != p {
            assert(label(g0, a.0 as int, a.1 as int) == l);
            assert(label(g0, b.0 as int, b.1 as int) == l);
            let w = choose|w: Seq<Pos>| #[trigger] is_walk(g0, l, nw, w) && w[0] == a && w.last() == b;
            if l == la {
                lemma_reroute(g0, p, w);
                let w2 = choose|w2: Seq<Pos>| #[trigger] is_walk(g0, l, p, w2) && w2[0] == a && w2.last() == b;
                assert forall|i: int| 0 <= i < w2.len() implies #[trigger] label(g1, w2[i].0 as int, w2[i].1 as int) == label(
                    g0,
                    w2[i].0 as int,
                    w2[i].1 as int,
                ) by {
                    assert(in_region(g0, l, p, w2[i]));
                }
                lemma_walk_frame(g0, g1, l, p, nw, w2);
            } else {
                assert forall|i: int| 0 <= i < w.len() implies #[trigger] label(g1, w[i].0 as int, w[i].1 as int) == label(
                    g0,
                    w[i].0 as int,
                    w[i].1 as int,
                ) by {
                    assert(in_region(g0, l, nw, w[i]));
                }
                lemma_walk_frame(g0, g1, l, nw, nw, w);
            }
        } else {
            // one end is p, now in q's region; go through q
            assert(l == lb);
            let other = if a == p { b } else { a };
            let wp = seq![p];
            lemma_walk_one(g1, lb, nw, p);
            if other == p {
            } else {
                assert(label(g0, other.0 as int, other.1 as int) == lb);
                let w = choose|w: Seq<Pos>| #[trigger] is_walk(g0, lb, nw, w) && w[0] == q && w.last() == other;
                assert forall|i: int| 0 <= i < w.len() implies #[trigger] label(g1, w[i].0 as int, w[i].1 as int) == label(
                    g0,
                    w[i].0 as int,
                    w[i].1 as int,
                ) by {
                    assert(in_region(g0, lb, nw, w[i]));
                }
                lemma_walk_frame(g0, g1, lb, nw, nw, w);
                assert(is_walk(g1, lb, nw, seq![p, q])) by {
                    assert(walk_step(seq![p, q], 0));
                }
                lemma_walk_join(g1, lb, nw, seq![p, q], w);
                // p to other, and back
                if a == p {
                } else {
                    lemma_linked_sym(g1, lb, nw, p, other);
                }
            }
        }
    }
}

/// Cell `c` has a side neighbour labelled `l`.
pub open spec fn touches_region(g: Seq<Vec<usize>>, c: Pos, l: usize) -> bool {
    exists|d: Pos| d.0 < g.len() && d.1 < g.len() && #[trigger] orth_adj(c, d) && label(g, d.0 as int, d.1 as int) == l
}

/// Every frontier move offers a cell next to its region.
pub open spec fn frontier_adj(f: Seq<(Pos, usize)>, g: Seq<Vec<usize>>) -> bool {
    forall|i: int| 0 <= i < f.len() ==> #[trigger] touches_region(g, f[i].0, f[i].1)
}

/// Labelling an unassigned cell with a region it touches, or with a
/// label not used yet, keeps every region connected.
pub proof fn lemma_assign_connected(g0: Seq<Vec<usize>>, g1: Seq<Vec<usize>>, p: Pos, l: usize)
    requires
        regions_connected(g0),
        p.0 < g0.len() && p.1 < g0.len(),
        label(g0, p.0 as int, p.1 as int) == UNASSIGNED,
        l != UNASSIGNED,
        g0.len() < usize::MAX,
        g1.len() == g0.len(),
        forall|x: Pos| x.0 < g0.len() && x.1 < g0.len() ==> #[trigger] label(g1, x.0 as int, x.1 as int) == (if x == p {
            l
        } else {
            label(g0, x.0 as int, x.1 as int)
        }),
        touches_region(g0, p, l) || !crate::regions::present(g0, l),
    ensures
        regions_connected(g1),
{
    let n = g0.len() as int;
    let nw = nowhere(g0);
    assert(nowhere(g1) == nw);
    assert forall|a: Pos, b: Pos|
        a.0 < n && a.1 < n && b.0 < n && b.1 < n && #[trigger] label(g1, a.0 as int, a.1 as int) == #[trigger] label(
            g1,
            b.0 as int,
            b.1 as int,
        ) && label(g1, a.0 as int, a.1 as int) != UNASSIGNED implies linked(
        g1,
        label(g1, a.0 as int, a.1 as int),
        nowhere(g1),
        a,
        b,
    ) by {
        let lab = label(g1, a.0 as int, a.1 as int);
        if a != p && b != p {
            assert(label(g0, a.0 as int, a.1 as int) == lab);
            assert(label(g0, b.0 as int, b.1 as int) == lab);
            let w = choose|w: Seq<Pos>| #[trigger] is_walk(g0, lab, nw, w) && w[0] == a && w.last() == b;
            assert forall|i: int| 0 <= i < w.len() implies #[trigger] label(g1, w[i].0 as int, w[i].1 as int) == label(
                g0,
                w[i].0 as int,
                w[i].1 as int,
            ) by {
                assert(in_region(g0, lab, nw, w[i]));
            }
            lemma_walk_frame(g0, g1, lab, nw, nw, w);
        } else {
            assert(lab == l);
            let other = if a == p { b } else { a };
            assert(label(g1, p.0 as int, p.1 as int) == l);
            lemma_walk_one(g1, l, nw, p);
            if other != p {
                assert(label(g0, other.0 as int, other.1 as int) == l);
                assert(crate::regions::present(g0, l)) by {
                    assert(label(g0, other.0 as int, other.1 as int) == l);
                }
                let d = choose|d: Pos| d.0 < g0.len() && d.1 < g0.len() && #[trigger] orth_adj(p, d) && label(
                    g0,
                    d.0 as int,
                    d.1 as int,
                ) == l;
                let w = choose|w: Seq<Pos>| #[trigger] is_walk(g0, l, nw, w) && w[0] == d && w.last() == other;
                assert forall|i: int| 0 <= i < w.len() implies #[trigger] label(g1, w[i].0 as int, w[i].1 as int) == label(
                    g0,
                    w[i].0 as int,
                    w[i].1 as int,
                ) by {
                    assert(in_region(g0, l, nw, w[i]));
                }
                lemma_walk_frame(g0, g1, l, nw, nw, w);
                assert(is_walk(g1, l, nw, seq![p, d])) by {
                    assert(walk_step(seq![p, d], 0));
                }
                lemma_walk_join(g1, l, nw, seq![p, d], w);
                if a != p {
                    lemma_linked_sym(g1, l, nw, p, other);
                }
            }
        }
    }
}

/// Frontier moves keep touching their regions while only unassigned
/// cells get labelled.
pub proof fn lemma_frontier_keep(f: Seq<(Pos, usize)>, g0: Seq<Vec<usize>>, g1: Seq<Vec<usize>>)
    requires
        frontier_adj(f, g0),
        g1.len() == g0.len(),
        forall|i: int| 0 <= i < f.len() ==> (#[trigger] f[i]).1 != UNASSIGNED,
        forall|x: Pos|
            x.0 < g0.len() && x.1 < g0.len() && label(g0, x.0 as int, x.1 as int) != UNASSIGNED ==> #[trigger] label(
                g1,
                x.0 as int,
                x.1 as int,
            ) == label(g0, x.0 as int, x.1 as int),
    ensures
        frontier_adj(f, g1),
{
    assert forall|i: int| 0 <= i < f.len() implies #[trigger] touches_region(g1, f[i].0, f[i].1) by {
        assert(touches_region(g0, f[i].0, f[i].1));
        let d = choose|d: Pos| d.0 < g0.len() && d.1 < g0.len() && #[trigger] orth_adj(f[i].0, d) && label(
            g0,
            d.0 as int,
            d.1 as int,
        ) == f[i].1;
        assert(label(g1, d.0 as int, d.1 as int) == f[i].1);
    }
}

/// With no cell assigned, every region is (vacuously) connected.
pub proof fn lemma_blank_connected(g: Seq<Vec<usize>>)
    requires
        forall|x: Pos| x.0 < g.len() && x.1 < g.len() ==> #[trigger] label(g, x.0 as int, x.1 as int) == UNASSIGNED,
    ensures
        regions_connected(g),
{
}

} // verus!
