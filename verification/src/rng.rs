use vstd::prelude::*;

verus! {

/// Increment of the SplitMix64 state.
pub const GOLDEN: u64 = 0x9E37_79B9_7F4A_7C15;

/// The SplitMix64 state after one step.
pub open spec fn step(s: u64) -> u64 {
    vstd::wrapping::u64_specs::wrapping_add(s, GOLDEN)
}

/// The SplitMix64 output for a (stepped) state.
pub open spec fn mix(s: u64) -> u64 {
    let z1 = vstd::wrapping::u64_specs::wrapping_mul(s ^ (s >> 30u64), 0xBF58_476D_1CE4_E5B9u64);
    let z2 = vstd::wrapping::u64_specs::wrapping_mul(z1 ^ (z1 >> 27u64), 0x94D0_49BB_1331_11EBu64);
    z2 ^ (z2 >> 31u64)
}

/// The value `below(k)` draws from state `s`.
pub open spec fn below_val(s: u64, k: usize) -> usize {
    (mix(step(s)) % (k as u64)) as usize
}

/// Small deterministic RNG (SplitMix64) so we need no external crates
/// and runs are reproducible from a seed.
pub struct SplitMix(u64);

impl SplitMix {
    /// The current state.
    pub closed spec fn state(&self) -> u64 {
        self.0
    }

    pub fn new(seed: u64) -> (r: SplitMix)
        ensures
            r.state() == seed,
    {
        SplitMix(seed)
    }

    /// Next 64-bit output.
    pub fn next(&mut self) -> (r: u64)
        ensures
            final(self).state() == step(old(self).state()),
            r == mix(final(self).state()),
    {
        self.0 = self.0.wrapping_add(GOLDEN);
        let mut z = self.0;
        z = (z ^ (z >> 30)).wrapping_mul(0xBF58_476D_1CE4_E5B9);
        z = (z ^ (z >> 27)).wrapping_mul(0x94D0_49BB_1331_11EB);
        z ^ (z >> 31)
    }

    /// Uniform integer in `0..k` (modulo bias is negligible for our k).
    pub fn below(&mut self, k: usize) -> (r: usize)
        requires
            k > 0,
        ensures
            final(self).state() == step(old(self).state()),
            r == below_val(old(self).state(), k),
            r < k,
    {
        let x = self.next();
        (x % k as u64) as usize
    }

    /// Uniform integer in `lo..=hi`.
    pub fn range(&mut self, bounds: (usize, usize)) -> (r: usize)
        requires
            bounds.0 <= bounds.1 < usize::MAX,
        ensures
            final(self).state() == step(old(self).state()),
            r == bounds.0 + below_val(old(self).state(), (bounds.1 - bounds.0 + 1) as usize),
            bounds.0 <= r <= bounds.1,
    {
        let (lo, hi) = bounds;
        lo + self.below(hi - lo + 1)
    }
}

/// `s` with positions `i` and `j` exchanged.
pub open spec fn swap_spec<T>(s: Seq<T>, i: int, j: int) -> Seq<T> {
    s.update(i, s[j]).update(j, s[i])
}

/// Fisher-Yates from position `i` down to 1, drawing from state `st`:
/// the shuffled sequence and the final state.
pub open spec fn shuffle_spec<T>(s: Seq<T>, st: u64, i: int) -> (Seq<T>, u64)
    decreases i,
{
    if i <= 0 {
        (s, st)
    } else {
        let j = below_val(st, (i + 1) as usize) as int;
        shuffle_spec(swap_spec(s, i, j), step(st), i - 1)
    }
}

/// Fisher-Yates shuffle.
pub fn shuffle<T: Copy>(items: &mut Vec<T>, rng: &mut SplitMix)
    ensures
        (final(items)@, final(rng).state()) == shuffle_spec(old(items)@, old(rng).state(), old(items)@.len() - 1),
        final(items)@.to_multiset() == old(items)@.to_multiset(),
        final(items)@.len() == old(items)@.len(),
{
    let len = items.len();
    let mut i = len;
    while i > 1
        invariant
            items@.len() == len,
            0 <= i <= len,
            len <= 1 ==> i == len,
            len > 1 ==> i >= 1,
            shuffle_spec(items@, rng.state(), i - 1) == shuffle_spec(old(items)@, old(rng).state(), len - 1),
        decreases i,
    {
        i = i - 1;
        let ghost s0 = items@;
        let ghost st0 = rng.state();
        let j = rng.below(i + 1);
        let a = items[i];
        let b = items[j];
        items.set(i, b);
        items.set(j, a);
        proof {
            assert(items@ =~= swap_spec(s0, i as int, j as int));
            assert(shuffle_spec(s0, st0, i as int) == shuffle_spec(items@, rng.state(), i - 1));
        }
    }
    proof {
        lemma_shuffle_perm(old(items)@, old(rng).state(), len - 1);
    }
}

/// Exchanging two entries keeps the multiset of entries.
pub proof fn lemma_swap_perm<T>(s: Seq<T>, i: int, j: int)
    requires
        0 <= i < s.len(),
        0 <= j < s.len(),
    ensures
        swap_spec(s, i, j).to_multiset() == s.to_multiset(),
        swap_spec(s, i, j).len() == s.len(),
{
    broadcast use vstd::multiset::group_multiset_axioms;
    let s1 = s.update(i, s[j]);
    vstd::seq_lib::to_multiset_update(s, i, s[j]);
    vstd::seq_lib::to_multiset_update(s1, j, s[i]);
    let m = s.to_multiset();
    vstd::seq_lib::to_multiset_contains(s, s[i]);
    vstd::seq_lib::to_multiset_contains(s, s[j]);
    assert(s1[j] == s[j]);
    let lhs = m.insert(s[j]).remove(s[i]).insert(s[i]).remove(s[j]);
    assert forall|x: T| lhs.count(x) == m.count(x) by {}
    assert(lhs =~= m);
}

/// Shuffling only reorders: the result holds the same entries.
pub proof fn lemma_shuffle_perm<T>(s: Seq<T>, st: u64, i: int)
    requires
        i < s.len(),
        s.len() <= usize::MAX,
    ensures
        shuffle_spec(s, st, i).0.to_multiset() == s.to_multiset(),
        shuffle_spec(s, st, i).0.len() == s.len(),
    decreases i,
{
    if i > 0 {
        let j = below_val(st, (i + 1) as usize) as int;
        assert(0 <= j < i + 1) by {
            assert((i + 1) as usize as u64 > 0);
        }
        lemma_swap_perm(s, i, j);
        lemma_shuffle_perm(swap_spec(s, i, j), step(st), i - 1);
    }
}

/// A source of random choices, as the region growers and the repair step
/// use it.
pub trait Dice {
    /// A number in `lo..=hi`.
    fn pick(&mut self, lo: usize, hi: usize) -> (r: usize)
        requires
            lo <= hi < usize::MAX,
        ensures
            lo <= r <= hi,
    ;

    /// Put the items in a random order.
    fn mix_up<T: Copy>(&mut self, items: &mut Vec<T>)
        ensures
            final(items)@.len() == old(items)@.len(),
            final(items)@.to_multiset() == old(items)@.to_multiset(),
    ;
}

impl Dice for SplitMix {
    fn pick(&mut self, lo: usize, hi: usize) -> (r: usize)
        ensures
            final(self).state() == step(old(self).state()),
            r == lo + below_val(old(self).state(), (hi - lo + 1) as usize),
    {
        self.range((lo, hi))
    }

    fn mix_up<T: Copy>(&mut self, items: &mut Vec<T>)
        ensures
            (final(items)@, final(self).state()) == shuffle_spec(
                old(items)@,
                old(self).state(),
                old(items)@.len() - 1,
            ),
    {
        shuffle(items, self);
    }
}

} // verus!
