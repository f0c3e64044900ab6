use vstd::prelude::*;

verus! {

/// One round of xorshift32 on a 32-bit state.
pub open spec fn xorshift32(x: u32) -> u32 {
    let a = x ^ (x << 13);
    let b = a ^ (a >> 17);
    b ^ (b << 5)
}

/// Deterministic, non-cryptographic generator (xorshift32).
pub struct SimpleRng {
    pub state: u32,
}

impl SimpleRng {
    /// A generator whose state is `seed`.
    pub fn new(seed: u32) -> (rng: Self)
        ensures
            rng.state == seed,
    {
        SimpleRng { state: seed }
    }

    /// Advances the state by one round and returns the new state.
    pub fn next(&mut self) -> (x: u32)
        ensures
            x == xorshift32(old(self).state),
            final(self).state == x,
    {
        let mut x: u32 = self.state;
        x ^= x << 13;
        x ^= x >> 17;
        x ^= x << 5;
        self.state = x;
        x
    }

    /// A value in `min..max`, drawn with one round.
    pub fn gen_from_range(&mut self, min: u32, max: u32) -> (x: u32)
        requires
            min < max,
        ensures
            final(self).state == xorshift32(old(self).state),
            x == min + xorshift32(old(self).state) % ((max - min) as u32),
            min <= x < max,
    {
        min + (self.next() % (max - min))
    }
}

/// The state reached from `x` after `n` rounds.
pub open spec fn state_after(x: u32, n: nat) -> u32
    decreases n,
{
    if n == 0 {
        x
    } else {
        xorshift32(state_after(x, (n - 1) as nat))
    }
}

/// `s` with the items at `i` and `j` exchanged.
pub open spec fn swapped<T>(s: Seq<T>, i: int, j: int) -> Seq<T> {
    s.update(i, s[j]).update(j, s[i])
}

/// The first `k` steps of a Fisher-Yates shuffle of `a`, driven by the
/// generator started at state `x`: step `k` draws once and exchanges
/// position `a.len() - k` with the draw reduced modulo `a.len() - k + 1`.
pub open spec fn shuffled<T>(a: Seq<T>, x: u32, k: nat) -> Seq<T>
    decreases k,
{
    if k == 0 {
        a
    } else {
        let i = a.len() - k;
        swapped(shuffled(a, x, (k - 1) as nat), i, (state_after(x, k) as int) % (i + 1))
    }
}

/// `s` holds the items of `base`, each once, in some order.
pub open spec fn is_arrangement<T>(s: Seq<T>, base: Seq<T>) -> bool {
    &&& s.len() == base.len()
    &&& forall|i: int, j: int| 0 <= i < j < s.len() ==> s[i] != s[j]
    &&& forall|k: int| 0 <= k < base.len() ==> s.contains(#[trigger] base[k])
    &&& forall|k: int| 0 <= k < s.len() ==> base.contains(#[trigger] s[k])
}

/// Exchanging two positions keeps an arrangement an arrangement.
pub proof fn lemma_swapped_arrangement<T>(s: Seq<T>, base: Seq<T>, i: int, j: int)
    requires
        is_arrangement(s, base),
        0 <= i < s.len(),
        0 <= j < s.len(),
    ensures
        is_arrangement(swapped(s, i, j), base),
{
    let t = swapped(s, i, j);
    assert forall|k: int| 0 <= k < base.len() implies t.contains(#[trigger] base[k]) by {
        let w = choose|w: int| 0 <= w < s.len() && s[w] == base[k];
        let w2 = if w == i {
            j
        } else if w == j {
            i
        } else {
            w
        };
        assert(t[w2] == base[k]);
    }
    assert forall|k: int| 0 <= k < t.len() implies base.contains(#[trigger] t[k]) by {}
}

/// Every prefix of the shuffle is an arrangement of what was shuffled.
pub proof fn lemma_shuffled_arrangement<T>(a: Seq<T>, x: u32, k: nat)
    requires
        is_arrangement(a, a),
        k < a.len(),
    ensures
        is_arrangement(shuffled(a, x, k), a),
    decreases k,
{
    if k > 0 {
        lemma_shuffled_arrangement(a, x, (k - 1) as nat);
        let i = a.len() - k;
        lemma_swapped_arrangement(
            shuffled(a, x, (k - 1) as nat),
            a,
            i,
            (state_after(x, k) as int) % (i + 1),
        );
    }
}

/// The digits `1..=9` in ascending order.
pub open spec fn digits() -> Seq<u8> {
    Seq::new(9, |i: int| (i + 1) as u8)
}

/// The cell indices `0..81` in ascending order.
pub open spec fn cell_indices() -> Seq<usize> {
    Seq::new(81, |i: int| i as usize)
}

/// A shuffled row of the digits `1..=9` (Fisher-Yates, eight draws).
pub fn generate_unique_array(rng: &mut SimpleRng) -> (array: [u8; 9])
    ensures
        array@ == shuffled(digits(), old(rng).state, 8),
        final(rng).state == state_after(old(rng).state, 8),
        is_arrangement(array@, digits()),
{
    let mut array: [u8; 9] = [1, 2, 3, 4, 5, 6, 7, 8, 9];
    let mut i: usize = 8;
    while i > 0
        invariant
            i <= 8,
            array@ == shuffled(digits(), old(rng).state, (8 - i) as nat),
            rng.state == state_after(old(rng).state, (8 - i) as nat),
        decreases i,
    {
        let draw: u32 = rng.next();
        let j: usize = (draw % (i as u32 + 1)) as usize;
        let at_i: u8 = array[i];
        let at_j: u8 = array[j];
        array[i] = at_j;
        array[j] = at_i;
        i -= 1;
    }
    proof {
        lemma_shuffled_arrangement(digits(), old(rng).state, 8);
    }
    array
}

/// The first `count` cell indices of a shuffle of `0..81` (Fisher-Yates,
/// eighty draws).
pub fn generate_random_indices(rng: &mut SimpleRng, count: usize) -> (indices: Vec<usize>)
    requires
        count <= 81,
    ensures
        indices@ == shuffled(cell_indices(), old(rng).state, 80).take(count as int),
        final(rng).state == state_after(old(rng).state, 80),
        forall|k: int| 0 <= k < indices.len() ==> indices[k] < 81,
        forall|i: int, j: int| 0 <= i < j < indices.len() ==> indices[i] != indices[j],
{
    let mut all: Vec<usize> = Vec::new();
    let mut n: usize = 0;
    while n < 81
        invariant
            n <= 81,
            all.len() == n,
            forall|k: int| 0 <= k < n ==> all[k] == k,
        decreases 81 - n,
    {
        all.push(n);
        n += 1;
    }
    let mut i: usize = 80;
    while i > 0
        invariant
            i <= 80,
            all.len() == 81,
            all@ == shuffled(cell_indices(), old(rng).state, (80 - i) as nat),
            rng.state == state_after(old(rng).state, (80 - i) as nat),
        decreases i,
    {
        let draw: u32 = rng.next();
        let j: usize = (draw % (i as u32 + 1)) as usize;
        let at_i: usize = all[i];
        let at_j: usize = all[j];
        all.set(i, at_j);
        all.set(j, at_i);
        i -= 1;
    }
    proof {
        lemma_shuffled_arrangement(cell_indices(), old(rng).state, 80);
        let full = shuffled(cell_indices(), old(rng).state, 80);
        assert forall|k: int| 0 <= k < 81 implies (#[trigger] full[k]) < 81 by {}
    }
    all.truncate(count);
    all
}

} // verus!
