use vstd::prelude::*;

use crate::cell::Cell;

verus! {

/// The two neighbours of a node in one circular doubly linked list.
#[derive(Clone, Copy, Debug, PartialEq, Eq, Structural)]
pub struct Link {
    pub prev: Cell,
    pub next: Cell,
}

/// Stores 'pointers' to all the nodes: a lookup table holding several
/// circular doubly linked lists at once, node `k` at `data[k]`.
#[derive(Debug)]
pub struct LList {
    pub data: Vec<Link>,
}

/// Walks one circular list starting from (and stopping at) `head`.
pub struct Cursor {
    head: Cell,
    curr: Cell,
}

// ------------------------------------------------------------------ model

/// Successor of `d[k]`.
pub open spec fn nx(d: Seq<Link>, k: int) -> int {
    d[k].next.0 as int
}

/// Predecessor of `d[k]`.
pub open spec fn pv(d: Seq<Link>, k: int) -> int {
    d[k].prev.0 as int
}

pub open spec fn set_next(d: Seq<Link>, k: int, v: int) -> Seq<Link> {
    d.update(k, Link { prev: d[k].prev, next: Cell(v as usize) })
}

pub open spec fn set_prev(d: Seq<Link>, k: int, v: int) -> Seq<Link> {
    d.update(k, Link { prev: Cell(v as usize), next: d[k].next })
}

/// Every link of every node names a node of the table.
pub open spec fn links_in_bounds(d: Seq<Link>) -> bool {
    forall|k: int| 0 <= k < d.len() ==> (#[trigger] d[k]).prev.0 < d.len() && d[k].next.0 < d.len()
}

/// `a <-> b <-> c` becomes `a <-> c`; `b` keeps its own links.
pub open spec fn remove_spec(d: Seq<Link>, b: int) -> Seq<Link> {
    let a = pv(d, b);
    let c = nx(d, b);
    set_prev(set_next(d, a, c), c, a)
}

/// Relinks `b` between the nodes its own links still name.
pub open spec fn restore_spec(d: Seq<Link>, b: int) -> Seq<Link> {
    let a = pv(d, b);
    let c = nx(d, b);
    set_prev(set_next(d, a, b), c, b)
}

/// `a <-> c` becomes `a <-> b <-> c`.
pub open spec fn insert_spec(d: Seq<Link>, a: int, b: int) -> Seq<Link> {
    let c = nx(d, a);
    set_prev(set_next(set_prev(set_next(d, a, b), b, a), b, c), c, b)
}

/// Both neighbours of `b` point back at `b`.
pub open spec fn linked_at(d: Seq<Link>, b: int) -> bool {
    &&& 0 <= b < d.len()
    &&& 0 <= pv(d, b) < d.len()
    &&& 0 <= nx(d, b) < d.len()
    &&& nx(d, pv(d, b)) == b
    &&& pv(d, nx(d, b)) == b
}

/// The element after position `i` of the circular sequence `s`.
pub open spec fn succ(s: Seq<usize>, i: int) -> usize {
    if i + 1 < s.len() { s[i + 1] } else { s[0] }
}

/// The element before position `i` of the circular sequence `s`.
pub open spec fn pred(s: Seq<usize>, i: int) -> usize {
    if i > 0 { s[i - 1] } else { s[s.len() - 1] }
}

/// `s` lists, in order, the members of one circular list in `d`.
pub open spec fn ring_ok(d: Seq<Link>, s: Seq<usize>) -> bool {
    &&& s.len() > 0
    &&& s.no_duplicates()
    &&& forall|i: int| 0 <= i < s.len() ==> (#[trigger] s[i]) < d.len()
    &&& forall|i: int|
        0 <= i < s.len() ==> {
            &&& (#[trigger] d[s[i] as int]).next.0 == succ(s, i)
            &&& d[s[i] as int].prev.0 == pred(s, i)
        }
}

/// The node reached from `start` after `t` steps along `next` links.
pub open spec fn walk(d: Seq<Link>, start: int, t: nat) -> int
    decreases t,
{
    if t == 0 {
        start
    } else {
        nx(d, walk(d, start, (t - 1) as nat))
    }
}

/// Position of `i` steps after position `p` in a ring of length `len`.
pub open spec fn rot(p: int, i: int, len: int) -> int {
    if p + i < len { p + i } else { p + i - len }
}

// ----------------------------------------------------------------- lemmas

/// What `remove_spec` writes: `a.next = c`, then `c.prev = a`.
pub proof fn lemma_remove_values(d: Seq<Link>, b: int)
    requires
        0 <= b < d.len(),
        0 <= pv(d, b) < d.len(),
        0 <= nx(d, b) < d.len(),
    ensures
        ({
            let a = pv(d, b);
            let c = nx(d, b);
            let d2 = remove_spec(d, b);
            &&& d2.len() == d.len()
            &&& forall|x: int| 0 <= x < d.len() && x != a && x != c ==> #[trigger] d2[x] == d[x]
            &&& d2[a].next.0 == c
            &&& d2[c].prev.0 == a
            &&& a != c ==> d2[a].prev == d[a].prev && d2[c].next == d[c].next
        }),
{
}

/// What `restore_spec` writes: `a.next = b`, then `c.prev = b`.
pub proof fn lemma_restore_values(d: Seq<Link>, b: int)
    requires
        0 <= b < d.len(),
        b <= usize::MAX,
        0 <= pv(d, b) < d.len(),
        0 <= nx(d, b) < d.len(),
    ensures
        ({
            let a = pv(d, b);
            let c = nx(d, b);
            let d2 = restore_spec(d, b);
            &&& d2.len() == d.len()
            &&& forall|x: int| 0 <= x < d.len() && x != a && x != c ==> #[trigger] d2[x] == d[x]
            &&& d2[a].next.0 == b
            &&& d2[c].prev.0 == b
            &&& a != c ==> d2[a].prev == d[a].prev && d2[c].next == d[c].next
        }),
{
}

/// Removing the member at position `k` (not the head) leaves a ring of
/// the remaining members in the same order.
#[verifier::rlimit(40)]
pub proof fn lemma_ring_remove(d: Seq<Link>, s: Seq<usize>, k: int)
    requires
        ring_ok(d, s),
        0 < k < s.len(),
    ensures
        ring_ok(remove_spec(d, s[k] as int), s.remove(k)),
        remove_spec(d, s[k] as int).len() == d.len(),
        forall|x: int|
            0 <= x < d.len() && x != s[k - 1] && x != succ(s, k) ==> #[trigger] remove_spec(d, s[k] as int)[x] == d[x],
        linked_at(d, s[k] as int),
{
    let b = s[k] as int;
    let d2 = remove_spec(d, b);
    let s2 = s.remove(k);
    let len = s.len() as int;
    assert(s[k] < d.len());
    assert(pv(d, b) == s[k - 1]);
    assert(nx(d, b) == succ(s, k));
    lemma_remove_values(d, b);
    let a = s[k - 1] as int;
    let c = succ(s, k) as int;
    assert forall|i: int| 0 <= i < s2.len() implies {
        &&& (#[trigger] s2[i]) < d2.len()
        &&& d2[s2[i] as int].next.0 == succ(s2, i)
        &&& d2[s2[i] as int].prev.0 == pred(s2, i)
    } by {
        let ii = if i < k { i } else { i + 1 };
        assert(s2[i] == s[ii]);
        assert(s[ii] < d.len());
        let e = s2[i] as int;
        // next pointer
        if i == k - 1 {
            assert(e == a);
            if k < s2.len() {
                assert(s2[k] == s[k + 1]);
            }
        } else {
            let nii = if ii + 1 < len { ii + 1 } else { 0 };
            assert(d[e].next.0 == s[nii]);
            if e == c {
                assert(d2[e].next == d[e].next || a == c);
            }
            if i + 1 < s2.len() {
                assert(s2[i + 1] == s[nii]);
            } else {
                assert(ii == len - 1);
                assert(nii == 0);
            }
        }
        // prev pointer
        if ii == k + 1 || (k == len - 1 && i == 0) {
            assert(e == c);
            if i > 0 {
                assert(s2[i - 1] == s[k - 1]);
            } else {
                assert(s2[s2.len() - 1] == s[k - 1]);
            }
        } else {
            let pii = if ii > 0 { ii - 1 } else { len - 1 };
            assert(d[e].prev.0 == s[pii]);
            assert(e != c);
            if i > 0 {
                assert(s2[i - 1] == s[pii]);
            } else {
                assert(pii == len - 1);
                assert(s2[s2.len() - 1] == s[len - 1]);
            }
        }
    }
    assert(s2.no_duplicates()) by {
        assert forall|i: int, j: int| 0 <= i < s2.len() && 0 <= j < s2.len() && i != j implies s2[i] != s2[j] by {
            let ii = if i < k { i } else { i + 1 };
            let jj = if j < k { j } else { j + 1 };
            assert(s2[i] == s[ii]);
            assert(s2[j] == s[jj]);
        }
    }
}

/// A ring stays a ring when the table changes only outside it.
pub proof fn lemma_ring_frame(d: Seq<Link>, d2: Seq<Link>, s: Seq<usize>)
    requires
        ring_ok(d, s),
        d2.len() >= d.len(),
        forall|i: int| 0 <= i < s.len() ==> d2[#[trigger] s[i] as int] == d[s[i] as int],
    ensures
        ring_ok(d2, s),
{
    assert forall|i: int| 0 <= i < s.len() implies {
        &&& (#[trigger] s[i]) < d2.len()
        &&& d2[s[i] as int].next.0 == succ(s, i)
        &&& d2[s[i] as int].prev.0 == pred(s, i)
    } by {
        assert(d2[s[i] as int] == d[s[i] as int]);
    }
}

/// Removing a node and then restoring it gives back the same table.
pub proof fn lemma_remove_restore(d: Seq<Link>, b: int)
    requires
        linked_at(d, b),
    ensures
        restore_spec(remove_spec(d, b), b) =~= d,
        remove_spec(d, b)[b] == d[b],
        linked_at(d, b),
{
    lemma_remove_values(d, b);
    let d2 = remove_spec(d, b);
    let a = pv(d, b);
    let c = nx(d, b);
    if a == b {
        assert(c == b);
    }
    if c == b {
        assert(a == b);
    }
    assert(d2[b] == d[b]);
    assert(pv(d2, b) == a && nx(d2, b) == c);
    lemma_restore_values(d2, b);
    let d3 = restore_spec(d2, b);
    assert forall|x: int| 0 <= x < d.len() implies d3[x] == d[x] by {
        if x == a {
            assert(d[x].next.0 == b);
        }
        if x == c {
            assert(d[x].prev.0 == b);
        }
    }
}

/// Restoring a node whose links name two ring neighbours puts it back
/// between them.
#[verifier::rlimit(40)]
pub proof fn lemma_ring_restore(d: Seq<Link>, s: Seq<usize>, k: int, b: int)
    requires
        ring_ok(d, s),
        0 < k <= s.len(),
        0 <= b < d.len(),
        b <= usize::MAX,
        !s.contains(b as usize),
        pv(d, b) == s[k - 1],
        nx(d, b) == (if k < s.len() { s[k] } else { s[0] }),
    ensures
        ring_ok(restore_spec(d, b), s.insert(k, b as usize)),
        restore_spec(d, b).len() == d.len(),
        forall|x: int|
            0 <= x < d.len() && x != s[k - 1] && x != nx(d, b) ==> #[trigger] restore_spec(d, b)[x] == d[x],
        restore_spec(d, b)[b] == d[b],
{
    let d2 = restore_spec(d, b);
    let s2 = s.insert(k, b as usize);
    let len = s.len() as int;
    let a = s[k - 1] as int;
    let c = nx(d, b);
    assert(s[k - 1] < d.len());
    assert(s[0] < d.len());
    if k < len {
        assert(s[k] < d.len());
    }
    lemma_restore_values(d, b);
    assert(a != b);
    assert(c != b);
    assert forall|i: int| 0 <= i < s2.len() implies {
        &&& (#[trigger] s2[i]) < d2.len()
        &&& d2[s2[i] as int].next.0 == succ(s2, i)
        &&& d2[s2[i] as int].prev.0 == pred(s2, i)
    } by {
        if i == k {
            assert(s2[i] == b);
            if k + 1 < s2.len() {
                assert(s2[k + 1] == s[k]);
            }
            assert(s2[k - 1] == s[k - 1]);
        } else {
            let ii = if i < k { i } else { i - 1 };
            assert(s2[i] == s[ii]);
            assert(s[ii] < d.len());
            let e = s[ii] as int;
            let nii = if ii + 1 < len { ii + 1 } else { 0 };
            let pii = if ii > 0 { ii - 1 } else { len - 1 };
            assert(d[e].next.0 == s[nii]);
            assert(d[e].prev.0 == s[pii]);
            // next pointer
            if ii == k - 1 {
                assert(e == a);
                assert(s2[k] == b);
            } else {
                if e == c {
                    assert(a != c);
                }
                if i + 1 < s2.len() {
                    let j = i + 1;
                    let jj = if j < k { j } else { j - 1 };
                    assert(s2[j] == s[jj]);
                } else {
                    assert(ii == len - 1);
                    assert(s2[0] == s[0] || k == 0);
                }
            }
            // prev pointer
            if e == c {
                if i > 0 {
                    assert(s2[i - 1] == b || k == len);
                } else {
                    assert(k == len);
                    assert(s2[s2.len() - 1] == b);
                }
                if k == len {
                    assert(c == s[0]);
                    assert(ii == 0);
                }
            } else {
                if i > 0 {
                    let j = i - 1;
                    let jj = if j < k { j } else { j - 1 };
                    assert(s2[j] == s[jj]);
                    assert(j != k);
                } else {
                    assert(ii == 0);
                    assert(k < len);
                    assert(s2[s2.len() - 1] == s[len - 1]);
                }
            }
        }
    }
    assert(s2.no_duplicates()) by {
        assert forall|i: int, j: int| 0 <= i < s2.len() && 0 <= j < s2.len() && i != j implies s2[i] != s2[j] by {
            if i != k && j != k {
                let ii = if i < k { i } else { i - 1 };
                let jj = if j < k { j } else { j - 1 };
                assert(s2[i] == s[ii]);
                assert(s2[j] == s[jj]);
            } else if i == k {
                let jj = if j < k { j } else { j - 1 };
                assert(s2[j] == s[jj]);
            } else {
                let ii = if i < k { i } else { i - 1 };
                assert(s2[i] == s[ii]);
            }
        }
    }
}

/// Two rings through the same table that start at the same node agree.
pub proof fn lemma_ring_unique(d: Seq<Link>, s1: Seq<usize>, s2: Seq<usize>)
    requires
        ring_ok(d, s1),
        ring_ok(d, s2),
        s1[0] == s2[0],
    ensures
        s1 == s2,
{
    let m = if s1.len() < s2.len() { s1.len() as int } else { s2.len() as int };
    assert forall|i: int| 0 <= i < m implies s1[i] == s2[i] by {
        lemma_ring_prefix(d, s1, s2, i);
    }
    if s1.len() < s2.len() {
        lemma_ring_prefix(d, s1, s2, m - 1);
        assert(d[s1[m - 1] as int].next.0 == s1[0]);
        assert(d[s2[m - 1] as int].next.0 == s2[m]);
        assert(s2[m] == s2[0]);
    } else if s2.len() < s1.len() {
        lemma_ring_prefix(d, s1, s2, m - 1);
        assert(d[s2[m - 1] as int].next.0 == s2[0]);
        assert(d[s1[m - 1] as int].next.0 == s1[m]);
        assert(s1[m] == s1[0]);
    }
    assert(s1 =~= s2);
}

proof fn lemma_ring_prefix(d: Seq<Link>, s1: Seq<usize>, s2: Seq<usize>, i: int)
    requires
        ring_ok(d, s1),
        ring_ok(d, s2),
        s1[0] == s2[0],
        0 <= i < s1.len(),
        i < s2.len(),
    ensures
        s1[i] == s2[i],
    decreases i,
{
    if i > 0 {
        lemma_ring_prefix(d, s1, s2, i - 1);
        assert(d[s1[i - 1] as int].next.0 == s1[i]);
        assert(d[s2[i - 1] as int].next.0 == s2[i]);
    }
}

/// `insert_spec` is a restore of `b` once `b`'s own links name `a` and `c`.
pub proof fn lemma_ring_insert(d: Seq<Link>, s: Seq<usize>, k: int, b: int)
    requires
        ring_ok(d, s),
        0 <= k < s.len(),
        0 <= b < d.len(),
        b <= usize::MAX,
        !s.contains(b as usize),
    ensures
        ring_ok(insert_spec(d, s[k] as int, b), s.insert(k + 1, b as usize)),
        insert_spec(d, s[k] as int, b).len() == d.len(),
        forall|x: int|
            0 <= x < d.len() && x != s[k] && x != succ(s, k) && x != b ==> #[trigger] insert_spec(d, s[k] as int, b)[x] == d[x],
{
    let a = s[k] as int;
    let c = nx(d, a);
    assert(s[k] < d.len());
    assert(c == succ(s, k));
    if k + 1 < s.len() {
        assert(s[k + 1] < d.len());
    } else {
        assert(s[0] < d.len());
    }
    let d1 = d.update(b, Link { prev: Cell(a as usize), next: Cell(c as usize) });
    assert forall|i: int| 0 <= i < s.len() implies d1[#[trigger] s[i] as int] == d[s[i] as int] by {
        assert(s[i] != b);
    }
    lemma_ring_frame(d, d1, s);
    assert(a != b);
    assert(c != b);
    lemma_ring_restore(d1, s, k + 1, b);
    assert(insert_spec(d, a, b) =~= restore_spec(d1, b));
}

// ------------------------------------------------------- batches of links

/// Removes the nodes of `s` one after another, first to last.
pub open spec fn remove_all(d: Seq<Link>, s: Seq<usize>) -> Seq<Link>
    decreases s.len(),
{
    if s.len() == 0 {
        d
    } else {
        remove_spec(remove_all(d, s.drop_last()), s.last() as int)
    }
}

/// Restores the nodes of `s` one after another, first to last.
pub open spec fn restore_all(d: Seq<Link>, s: Seq<usize>) -> Seq<Link>
    decreases s.len(),
{
    if s.len() == 0 {
        d
    } else {
        restore_spec(restore_all(d, s.drop_last()), s.last() as int)
    }
}

/// Restoring `a` and then the nodes of `u` is restoring `[a] + u`.
pub proof fn lemma_restore_all_front(d: Seq<Link>, a: usize, u: Seq<usize>)
    ensures
        restore_all(d, seq![a] + u) == restore_all(restore_spec(d, a as int), u),
    decreases u.len(),
{
    if u.len() == 0 {
        assert((seq![a] + u).drop_last() =~= Seq::<usize>::empty());
        assert(restore_all(d, Seq::<usize>::empty()) == d);
    } else {
        lemma_restore_all_front(d, a, u.drop_last());
        assert((seq![a] + u).drop_last() =~= seq![a] + u.drop_last());
    }
}

/// Dancing links: removing nodes one after another and then restoring them
/// in reverse order gives back the same table, provided each node is still
/// linked when its turn to be removed comes.
pub proof fn lemma_remove_all_restore_all(d: Seq<Link>, s: Seq<usize>)
    requires
        forall|i: int| 0 <= i < s.len() ==> linked_at(remove_all(d, s.take(i)), #[trigger] s[i] as int),
    ensures
        restore_all(remove_all(d, s), s.reverse()) == d,
    decreases s.len(),
{
    if s.len() > 0 {
        let s0 = s.drop_last();
        let b = s.last();
        assert forall|i: int| 0 <= i < s0.len() implies linked_at(remove_all(d, s0.take(i)), #[trigger] s0[i] as int) by {
            assert(s0.take(i) =~= s.take(i));
            assert(s0[i] == s[i]);
        }
        lemma_remove_all_restore_all(d, s0);
        assert(s.take(s0.len() as int) =~= s0);
        assert(linked_at(remove_all(d, s0), s[s0.len() as int] as int));
        lemma_remove_restore(remove_all(d, s0), b as int);
        assert(s.reverse() =~= seq![b] + s0.reverse());
        lemma_restore_all_front(remove_all(d, s), b, s0.reverse());
    }
}

/// Links never leave a colour class (in a dancing-links matrix: a column).
pub open spec fn closed(d: Seq<Link>, cm: Seq<Cell>) -> bool {
    &&& cm.len() == d.len()
    &&& d.len() <= usize::MAX
    &&& links_in_bounds(d)
    &&& forall|k: int|
        0 <= k < d.len() ==> cm[(#[trigger] d[k]).prev.0 as int] == cm[k] && cm[d[k].next.0 as int] == cm[k]
}

/// Each node of `s` is linked at the moment it is removed.
pub open spec fn removals_ok(d: Seq<Link>, s: Seq<usize>) -> bool {
    forall|q: int| 0 <= q < s.len() ==> #[trigger] linked_at(remove_all(d, s.take(q)), s[q] as int)
}

/// No two nodes of `s` share a colour.
pub open spec fn distinct_colours(cm: Seq<Cell>, s: Seq<usize>) -> bool {
    forall|i: int, j: int|
        0 <= i < s.len() && 0 <= j < s.len() && i != j ==> cm[#[trigger] s[i] as int] != cm[#[trigger] s[j] as int]
}

pub proof fn lemma_closed_remove(d: Seq<Link>, cm: Seq<Cell>, b: int)
    requires
        closed(d, cm),
        0 <= b < d.len(),
    ensures
        closed(remove_spec(d, b), cm),
        forall|x: int| 0 <= x < d.len() && cm[x] != cm[b] ==> #[trigger] remove_spec(d, b)[x] == d[x],
{
    assert(d[b].prev.0 < d.len() && d[b].next.0 < d.len());
    lemma_remove_values(d, b);
    let d2 = remove_spec(d, b);
    assert forall|k: int| 0 <= k < d2.len() implies cm[(#[trigger] d2[k]).prev.0 as int] == cm[k] && cm[d2[k].next.0 as int] == cm[k]
        && d2[k].prev.0 < d2.len() && d2[k].next.0 < d2.len() by {
        assert(d[k].prev.0 < d.len());
    }
}

pub proof fn lemma_closed_restore(d: Seq<Link>, cm: Seq<Cell>, b: int)
    requires
        closed(d, cm),
        0 <= b < d.len(),
    ensures
        closed(restore_spec(d, b), cm),
        forall|x: int| 0 <= x < d.len() && cm[x] != cm[b] ==> #[trigger] restore_spec(d, b)[x] == d[x],
{
    assert(d[b].prev.0 < d.len() && d[b].next.0 < d.len());
    lemma_restore_values(d, b);
    let d2 = restore_spec(d, b);
    assert forall|k: int| 0 <= k < d2.len() implies cm[(#[trigger] d2[k]).prev.0 as int] == cm[k] && cm[d2[k].next.0 as int] == cm[k]
        && d2[k].prev.0 < d2.len() && d2[k].next.0 < d2.len() by {
        assert(d[k].prev.0 < d.len());
    }
}

/// Batches keep links within colours, and leave other colours untouched.
pub proof fn lemma_closed_remove_all(d: Seq<Link>, cm: Seq<Cell>, s: Seq<usize>)
    requires
        closed(d, cm),
        forall|i: int| 0 <= i < s.len() ==> #[trigger] s[i] < d.len(),
    ensures
        closed(remove_all(d, s), cm),
        remove_all(d, s).len() == d.len(),
        forall|x: int|
            0 <= x < d.len() && (forall|i: int| 0 <= i < s.len() ==> cm[#[trigger] s[i] as int] != cm[x])
                ==> #[trigger] remove_all(d, s)[x] == d[x],
    decreases s.len(),
{
    if s.len() > 0 {
        let s0 = s.drop_last();
        assert forall|i: int| 0 <= i < s0.len() implies #[trigger] s0[i] < d.len() by {
            assert(s0[i] == s[i]);
        }
        lemma_closed_remove_all(d, cm, s0);
        let b = s.last() as int;
        assert(s[s.len() - 1] < d.len());
        lemma_closed_remove(remove_all(d, s0), cm, b);
        assert forall|x: int|
            0 <= x < d.len() && (forall|i: int| 0 <= i < s.len() ==> cm[#[trigger] s[i] as int] != cm[x])
                implies #[trigger] remove_all(d, s)[x] == d[x] by {
            assert forall|i: int| 0 <= i < s0.len() implies cm[#[trigger] s0[i] as int] != cm[x] by {
                assert(s0[i] == s[i]);
            }
            assert(cm[s[s.len() - 1] as int] != cm[x]);
        }
    }
}

pub proof fn lemma_closed_restore_all(d: Seq<Link>, cm: Seq<Cell>, s: Seq<usize>)
    requires
        closed(d, cm),
        forall|i: int| 0 <= i < s.len() ==> #[trigger] s[i] < d.len(),
    ensures
        closed(restore_all(d, s), cm),
        restore_all(d, s).len() == d.len(),
        forall|x: int|
            0 <= x < d.len() && (forall|i: int| 0 <= i < s.len() ==> cm[#[trigger] s[i] as int] != cm[x])
                ==> #[trigger] restore_all(d, s)[x] == d[x],
    decreases s.len(),
{
    if s.len() > 0 {
        let s0 = s.drop_last();
        assert forall|i: int| 0 <= i < s0.len() implies #[trigger] s0[i] < d.len() by {
            assert(s0[i] == s[i]);
        }
        lemma_closed_restore_all(d, cm, s0);
        let b = s.last() as int;
        assert(s[s.len() - 1] < d.len());
        lemma_closed_restore(restore_all(d, s0), cm, b);
        assert forall|x: int|
            0 <= x < d.len() && (forall|i: int| 0 <= i < s.len() ==> cm[#[trigger] s[i] as int] != cm[x])
                implies #[trigger] restore_all(d, s)[x] == d[x] by {
            assert forall|i: int| 0 <= i < s0.len() implies cm[#[trigger] s0[i] as int] != cm[x] by {
                assert(s0[i] == s[i]);
            }
            assert(cm[s[s.len() - 1] as int] != cm[x]);
        }
    }
}

/// Relinking and unlinking in different colours commute.
pub proof fn lemma_commute_one(d: Seq<Link>, cm: Seq<Cell>, a: int, b: int)
    requires
        closed(d, cm),
        0 <= a < d.len(),
        0 <= b < d.len(),
        cm[a] != cm[b],
    ensures
        restore_spec(remove_spec(d, a), b) =~= remove_spec(restore_spec(d, b), a),
{
    lemma_closed_remove(d, cm, a);
    lemma_closed_restore(d, cm, b);
    let da = remove_spec(d, a);
    let db = restore_spec(d, b);
    assert(d[a].prev.0 < d.len() && d[a].next.0 < d.len());
    assert(d[b].prev.0 < d.len() && d[b].next.0 < d.len());
    assert(da[b] == d[b]);
    assert(db[a] == d[a]);
    assert(da[d[b].prev.0 as int] == d[d[b].prev.0 as int]);
    assert(da[d[b].next.0 as int] == d[d[b].next.0 as int]);
    assert(db[d[a].prev.0 as int] == d[d[a].prev.0 as int]);
    assert(db[d[a].next.0 as int] == d[d[a].next.0 as int]);
    lemma_remove_values(d, a);
    lemma_restore_values(d, b);
    lemma_remove_values(db, a);
    lemma_restore_values(da, b);
}

pub proof fn lemma_commute_all(d: Seq<Link>, cm: Seq<Cell>, a: int, s: Seq<usize>)
    requires
        closed(d, cm),
        0 <= a < d.len(),
        forall|i: int| 0 <= i < s.len() ==> #[trigger] s[i] < d.len() && cm[s[i] as int] != cm[a],
    ensures
        restore_all(remove_spec(d, a), s) == remove_spec(restore_all(d, s), a),
    decreases s.len(),
{
    if s.len() > 0 {
        let s0 = s.drop_last();
        let e = s.last() as int;
        assert forall|i: int| 0 <= i < s0.len() implies #[trigger] s0[i] < d.len() && cm[s0[i] as int] != cm[a] by {
            assert(s0[i] == s[i]);
        }
        assert(s[s.len() - 1] < d.len() && cm[s[s.len() - 1] as int] != cm[a]);
        lemma_commute_all(d, cm, a, s0);
        lemma_closed_restore_all(d, cm, s0);
        lemma_commute_one(restore_all(d, s0), cm, a, e);
    }
}

pub proof fn lemma_remove_all_push(d: Seq<Link>, s: Seq<usize>, b: usize)
    ensures
        remove_all(d, s.push(b)) == remove_spec(remove_all(d, s), b as int),
        restore_all(d, s.push(b)) == restore_spec(restore_all(d, s), b as int),
{
    assert(s.push(b).drop_last() =~= s);
}

/// Undoing a batch of removals in distinct colours, in the same order,
/// gives back the table.
pub proof fn lemma_block_roundtrip(d: Seq<Link>, cm: Seq<Cell>, s: Seq<usize>)
    requires
        closed(d, cm),
        forall|i: int| 0 <= i < s.len() ==> #[trigger] s[i] < d.len(),
        distinct_colours(cm, s),
        removals_ok(d, s),
    ensures
        restore_all(remove_all(d, s), s) == d,
    decreases s.len(),
{
    if s.len() > 0 {
        let s0 = s.drop_last();
        let b = s.last() as int;
        assert(s[s.len() - 1] < d.len());
        assert forall|i: int| 0 <= i < s0.len() implies #[trigger] s0[i] < d.len() by {
            assert(s0[i] == s[i]);
        }
        assert(distinct_colours(cm, s0)) by {
            assert forall|i: int, j: int| 0 <= i < s0.len() && 0 <= j < s0.len() && i != j implies cm[#[trigger] s0[i] as int]
                != cm[#[trigger] s0[j] as int] by {
                assert(s0[i] == s[i] && s0[j] == s[j]);
            }
        }
        assert(removals_ok(d, s0)) by {
            assert forall|q: int| 0 <= q < s0.len() implies #[trigger] linked_at(remove_all(d, s0.take(q)), s0[q] as int) by {
                assert(s0.take(q) =~= s.take(q));
                assert(linked_at(remove_all(d, s.take(q)), s[q] as int));
            }
        }
        lemma_block_roundtrip(d, cm, s0);
        // b was linked just before its removal; the earlier removals in the
        // batch are in other colours, so it is linked in `d` too
        assert(s.take(s.len() - 1) =~= s0);
        assert(linked_at(remove_all(d, s0), b));
        lemma_closed_remove_all(d, cm, s0);
        assert forall|i: int| 0 <= i < s0.len() implies cm[#[trigger] s0[i] as int] != cm[b] by {
            assert(s0[i] == s[i]);
        }
        let r = remove_all(d, s0);
        assert(d[b].prev.0 < d.len() && d[b].next.0 < d.len());
        assert(r[b] == d[b]);
        assert(cm[d[b].prev.0 as int] == cm[b]);
        assert(cm[d[b].next.0 as int] == cm[b]);
        assert(r[d[b].prev.0 as int] == d[d[b].prev.0 as int]);
        assert(r[d[b].next.0 as int] == d[d[b].next.0 as int]);
        assert(linked_at(d, b));
        // restore_all(remove(r, b), s0) == remove(restore_all(r, s0), b) == remove(d, b)
        lemma_closed_remove_all(d, cm, s0);
        assert forall|i: int| 0 <= i < s0.len() implies #[trigger] s0[i] < r.len() && cm[s0[i] as int] != cm[b] by {
            assert(s0[i] == s[i]);
        }
        lemma_commute_all(r, cm, b, s0);
        lemma_remove_restore(d, b);
        assert(remove_all(d, s) == remove_spec(r, b));
        assert(restore_all(remove_all(d, s), s) == restore_spec(restore_all(remove_spec(r, b), s0), b));
    }
}

/// Batches compose.
pub proof fn lemma_remove_all_concat(d: Seq<Link>, a: Seq<usize>, b: Seq<usize>)
    ensures
        remove_all(d, a + b) == remove_all(remove_all(d, a), b),
        restore_all(d, a + b) == restore_all(restore_all(d, a), b),
    decreases b.len(),
{
    if b.len() == 0 {
        assert(a + b =~= a);
    } else {
        let b0 = b.drop_last();
        lemma_remove_all_concat(d, a, b0);
        assert((a + b).drop_last() =~= a + b0);
        assert((a + b).last() == b.last());
    }
}

// ------------------------------------------------------------- operations

impl LList {
    pub open spec fn view(&self) -> Seq<Link> {
        self.data@
    }

    pub fn with_capacity(cap: usize) -> (r: LList)
        ensures
            r.data@ == Seq::<Link>::empty(),
    {
        LList { data: Vec::with_capacity(cap) }
    }

    /// The links of node `i`.
    pub fn index(&self, i: Cell) -> (r: &Link)
        requires
            i.0 < self.data@.len(),
        ensures
            *r == self.data@[i.0 as int],
    {
        &self.data[i.0]
    }

    /// Make a new node, alone in its own list.
    pub fn alloc_node(&mut self) -> (cell: Cell)
        requires
            old(self).data@.len() < usize::MAX,
        ensures
            cell.0 == old(self).data@.len(),
            final(self).data@ == old(self).data@.push(Link { prev: cell, next: cell }),
    {
        let cell = Cell(self.data.len());
        self.data.push(Link { prev: cell, next: cell });
        cell
    }

    /// Inserts `b` into `a <-> c` to get `a <-> b <-> c`.
    pub fn insert(&mut self, a: Cell, b: Cell)
        requires
            a.0 < old(self).data@.len(),
            b.0 < old(self).data@.len(),
            links_in_bounds(old(self).data@),
        ensures
            final(self).data@ == insert_spec(old(self).data@, a.0 as int, b.0 as int),
    {
        let c = self.data[a.0].next;
        self.data[a.0].next = b;
        self.data[b.0].prev = a;
        self.data[b.0].next = c;
        self.data[c.0].prev = b;
    }

    /// Removes `b` from `a <-> b <-> c` to get `a <-> c`.
    pub fn remove(&mut self, b: Cell)
        requires
            b.0 < old(self).data@.len(),
            links_in_bounds(old(self).data@),
        ensures
            final(self).data@ == remove_spec(old(self).data@, b.0 as int),
    {
        let a = self.data[b.0].prev;
        let c = self.data[b.0].next;
        self.data[a.0].next = c;
        self.data[c.0].prev = a;
    }

    /// Restores previously removed `b` to get `a <-> b <-> c`.
    pub fn restore(&mut self, b: Cell)
        requires
            b.0 < old(self).data@.len(),
            links_in_bounds(old(self).data@),
        ensures
            final(self).data@ == restore_spec(old(self).data@, b.0 as int),
    {
        let a = self.data[b.0].prev;
        let c = self.data[b.0].next;
        self.data[a.0].next = b;
        self.data[c.0].prev = b;
    }

    /// Create a cursor that walks the circular list through `head`.
    pub fn cursor(&self, head: Cell) -> (r: Cursor)
        ensures
            r.head() == head.0,
            r.curr() == head.0,
    {
        Cursor { head, curr: head }
    }
}

impl Cursor {
    pub closed spec fn head(&self) -> usize {
        self.head.0
    }

    pub closed spec fn curr(&self) -> usize {
        self.curr.0
    }

    /// Step forward; `None` once the walk is back at the head.
    pub fn next(&mut self, list: &LList) -> (r: Option<Cell>)
        requires
            old(self).curr() < list.data@.len(),
        ensures
            final(self).head() == old(self).head(),
            final(self).curr() == list.data@[old(self).curr() as int].next.0,
            r == (if final(self).curr() == final(self).head() {
                None
            } else {
                Some(Cell(final(self).curr()))
            }),
    {
        self.curr = list.data[self.curr.0].next;
        if self.curr == self.head {
            return None;
        }
        Some(self.curr)
    }

    /// Step backward; `None` once the walk is back at the head.
    pub fn prev(&mut self, list: &LList) -> (r: Option<Cell>)
        requires
            old(self).curr() < list.data@.len(),
        ensures
            final(self).head() == old(self).head(),
            final(self).curr() == list.data@[old(self).curr() as int].prev.0,
            r == (if final(self).curr() == final(self).head() {
                None
            } else {
                Some(Cell(final(self).curr()))
            }),
    {
        self.curr = list.data[self.curr.0].prev;
        if self.curr == self.head {
            return None;
        }
        Some(self.curr)
    }
}

} // verus!
