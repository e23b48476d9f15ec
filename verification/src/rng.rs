//! Seeded pseudo-random number generator (xoshiro256\*\*).
//!
//! Seed any `u64`; the state is expanded with splitmix64 to avoid the
//! all-zero trap.  Every draw is a function of the state alone, so two
//! generators built from the same seed produce the same stream.
use vstd::prelude::*;

verus! {

broadcast use vstd::seq_lib::group_to_multiset_ensures;

/// The splitmix64 increment.
pub const SPLITMIX_GAMMA: u64 = 0x9e3779b97f4a7c15u64;

/// The most draws one call of [`Rng::next_usize`] makes before it keeps the
/// last value.  The bound exists only to give the rejection loop a measure;
/// reaching it would take longer than the generator can be run.
pub const MAX_DRAWS: u64 = 0xffff_ffff_ffff_ffffu64;

/// The four state words `(s0, s1, s2, s3)`.
pub type RngState = (u64, u64, u64, u64);

/// Rotate `x` left by `k` bits (`0 < k < 64`).
pub open spec fn rotl(x: u64, k: u64) -> u64 {
    (x << k) | (x >> (64u64 - k))
}

/// The splitmix64 output function.
pub open spec fn splitmix_mix(z: u64) -> u64 {
    let z1 = (z ^ (z >> 30u64)).wrapping_mul(0xbf58476d1ce4e5b9u64);
    let z2 = (z1 ^ (z1 >> 27u64)).wrapping_mul(0x94d049bb133111ebu64);
    z2 ^ (z2 >> 31u64)
}

/// The state a seed expands to: four successive splitmix64 outputs.
pub open spec fn seeded_state(seed: u64) -> RngState {
    let x1 = seed.wrapping_add(SPLITMIX_GAMMA);
    let x2 = x1.wrapping_add(SPLITMIX_GAMMA);
    let x3 = x2.wrapping_add(SPLITMIX_GAMMA);
    let x4 = x3.wrapping_add(SPLITMIX_GAMMA);
    (splitmix_mix(x1), splitmix_mix(x2), splitmix_mix(x3), splitmix_mix(x4))
}

/// The output xoshiro256** draws in state `s`.
pub open spec fn xoshiro_output(s: RngState) -> u64 {
    rotl(s.1.wrapping_mul(5u64), 7u64).wrapping_mul(9u64)
}

/// The state xoshiro256** moves to from state `s`.
pub open spec fn xoshiro_next(s: RngState) -> RngState {
    let t = s.1 << 17u64;
    let s2 = s.2 ^ s.0;
    let s3 = s.3 ^ s.1;
    let s1 = s.1 ^ s2;
    let s0 = s.0 ^ s3;
    (s0, s1, s2 ^ t, rotl(s3, 45u64))
}

/// The state after `k` draws from `s`.
pub open spec fn rng_advance(s: RngState, k: nat) -> RngState
    decreases k,
{
    if k == 0 {
        s
    } else {
        xoshiro_next(rng_advance(s, (k - 1) as nat))
    }
}

/// The output of draw number `j` (counting from 0) starting in state `s`.
pub open spec fn draw_output(s: RngState, j: nat) -> u64 {
    xoshiro_output(rng_advance(s, j))
}

/// Low 64 bits of `x * n`.
pub open spec fn lemire_low(x: u64, n: usize) -> int {
    (x as int * n as int) % 0x1_0000_0000_0000_0000int
}

/// High 64 bits of `x * n`: the candidate result in `[0, n)`.
pub open spec fn lemire_high(x: u64, n: usize) -> int {
    (x as int * n as int) / 0x1_0000_0000_0000_0000int
}

/// Draws whose low half falls below this bound are rejected.
pub open spec fn lemire_threshold(n: usize) -> int {
    (0x1_0000_0000_0000_0000int - n as int) % (n as int)
}

/// Draw number `k` (counting from 1) is the one [`Rng::next_usize`] keeps
/// for the bound `n`: every earlier draw was rejected, and this one is
/// accepted or the last allowed.
pub open spec fn kept_draw(s: RngState, n: usize, k: nat) -> bool {
    &&& 1 <= k <= MAX_DRAWS
    &&& forall|j: nat| j < k - 1 ==> lemire_low(#[trigger] draw_output(s, j), n) < lemire_threshold(n)
    &&& (lemire_low(draw_output(s, (k - 1) as nat), n) >= lemire_threshold(n) || k == MAX_DRAWS)
}

/// The value [`Rng::chance_below`] returns for `threshold` from state `s`
/// (the state it leaves is `xoshiro_next(s)`).
pub open spec fn chance_hit(s: RngState, threshold: u64) -> bool {
    (xoshiro_output(s) >> 11u64) < threshold
}

/// The value [`Rng::next_usize`] returns for the bound `n` from state `s`,
/// and the state it leaves.
pub open spec fn usize_draw(s: RngState, n: usize) -> (usize, RngState) {
    let k = choose|k: nat| #[trigger] kept_draw(s, n, k);
    (lemire_high(draw_output(s, (k - 1) as nat), n) as usize, rng_advance(s, k))
}

/// Only one draw is kept.
proof fn lemma_kept_draw_unique(s: RngState, n: usize, k1: nat, k2: nat)
    requires
        kept_draw(s, n, k1),
        kept_draw(s, n, k2),
    ensures
        k1 == k2,
{
    if k1 < k2 {
        assert(lemire_low(draw_output(s, (k1 - 1) as nat), n) < lemire_threshold(n));
    } else if k2 < k1 {
        assert(lemire_low(draw_output(s, (k2 - 1) as nat), n) < lemire_threshold(n));
    }
}

/// Fisher-Yates from position `i` down to 1, starting in state `s`: the
/// shuffled sequence and the state left.
pub open spec fn fisher_yates<T>(v: Seq<T>, s: RngState, i: int) -> (Seq<T>, RngState)
    decreases i,
{
    if i < 1 {
        (v, s)
    } else {
        let (j, s2) = usize_draw(s, (i + 1) as usize);
        fisher_yates(v.update(i, v[j as int]).update(j as int, v[i]), s2, i - 1)
    }
}

/// The seeded pseudo-random number generator.
#[derive(Clone, Debug)]
pub struct Rng {
    s0: u64,
    s1: u64,
    s2: u64,
    s3: u64,
}

impl View for Rng {
    type V = RngState;

    closed spec fn view(&self) -> RngState {
        (self.s0, self.s1, self.s2, self.s3)
    }
}

fn splitmix_mix_exec(z: u64) -> (r: u64)
    ensures
        r == splitmix_mix(z),
{
    let z1 = (z ^ (z >> 30)).wrapping_mul(0xbf58476d1ce4e5b9u64);
    let z2 = (z1 ^ (z1 >> 27)).wrapping_mul(0x94d049bb133111ebu64);
    z2 ^ (z2 >> 31)
}

fn rotl_exec(x: u64, k: u64) -> (r: u64)
    requires
        0 < k < 64,
    ensures
        r == rotl(x, k),
{
    (x << k) | (x >> (64 - k))
}

impl Rng {
    /// Create a new generator from a 64-bit seed.
    pub fn new(seed: u64) -> (r: Self)
        ensures
            r@ == seeded_state(seed),
    {
        let x1 = seed.wrapping_add(SPLITMIX_GAMMA);
        let x2 = x1.wrapping_add(SPLITMIX_GAMMA);
        let x3 = x2.wrapping_add(SPLITMIX_GAMMA);
        let x4 = x3.wrapping_add(SPLITMIX_GAMMA);
        Rng {
            s0: splitmix_mix_exec(x1),
            s1: splitmix_mix_exec(x2),
            s2: splitmix_mix_exec(x3),
            s3: splitmix_mix_exec(x4),
        }
    }

    /// Return the next raw 64-bit integer.
    pub fn next_u64(&mut self) -> (r: u64)
        ensures
            r == xoshiro_output(old(self)@),
            final(self)@ == xoshiro_next(old(self)@),
    {
        let result = rotl_exec(self.s1.wrapping_mul(5), 7).wrapping_mul(9);
        let t = self.s1 << 17;
        self.s2 = self.s2 ^ self.s0;
        self.s3 = self.s3 ^ self.s1;
        self.s1 = self.s1 ^ self.s2;
        self.s0 = self.s0 ^ self.s3;
        self.s2 = self.s2 ^ t;
        self.s3 = rotl_exec(self.s3, 45);
        result
    }

    /// The upper 53 bits of the next draw: the numerator of a uniform
    /// fraction in `[0, 1)` with denominator 2^53.
    pub fn next_unit(&mut self) -> (r: u64)
        ensures
            r == xoshiro_output(old(self)@) >> 11u64,
            r < 0x20_0000_0000_0000u64,
            final(self)@ == xoshiro_next(old(self)@),
    {
        let x = self.next_u64();
        assert(x >> 11u64 < 0x20_0000_0000_0000u64) by (bit_vector);
        x >> 11
    }

    /// `true` with probability `threshold / 2^53`: the next unit fraction
    /// falls below `threshold / 2^53`.
    pub fn chance_below(&mut self, threshold: u64) -> (r: bool)
        ensures
            r == ((xoshiro_output(old(self)@) >> 11u64) < threshold),
            final(self)@ == xoshiro_next(old(self)@),
    {
        self.next_unit() < threshold
    }

    /// Uniform integer in `[0, n)` (Lemire's multiply-and-reject method).
    pub fn next_usize(&mut self, n: usize) -> (r: usize)
        requires
            n > 0,
        ensures
            r < n,
            exists|k: nat|
                #![trigger rng_advance(old(self)@, k)]
                1 <= k <= MAX_DRAWS && final(self)@ == rng_advance(old(self)@, k) && r
                    == lemire_high(draw_output(old(self)@, (k - 1) as nat), n) && (forall|j: nat|
                    j < k - 1 ==> lemire_low(#[trigger] draw_output(old(self)@, j), n)
                        < lemire_threshold(n)) && (lemire_low(
                    draw_output(old(self)@, (k - 1) as nat),
                    n,
                ) >= lemire_threshold(n) || k == MAX_DRAWS),
            (r, final(self)@) == usize_draw(old(self)@, n),
    {
        let ghost s_start = self@;
        let n64 = n as u64;
        let mut x = self.next_u64();
        proof {
            assert(rng_advance(s_start, 1) == xoshiro_next(rng_advance(s_start, 0)));
        }
        let mut m: u128 = mul_wide(x, n64);
        let mut lo = m as u64;
        let ghost mut k: nat = 1;
        proof {
            lemma_split_wide(x, n64, m);
        }
        if lo < n64 {
            let threshold = 0u64.wrapping_sub(n64) % n64;
            let mut draws: u64 = 1;
            while lo < threshold && draws < MAX_DRAWS
                invariant
                    n > 0,
                    n64 == n,
                    threshold == lemire_threshold(n),
                    draws == k,
                    1 <= k <= MAX_DRAWS,
                    self@ == rng_advance(s_start, k),
                    x == draw_output(s_start, (k - 1) as nat),
                    m == x as int * n as int,
                    lo == lemire_low(x, n),
                    forall|j: nat|
                        j < k - 1 ==> lemire_low(#[trigger] draw_output(s_start, j), n)
                            < lemire_threshold(n),
                decreases MAX_DRAWS - draws,
            {
                let ghost prev = k;
                x = self.next_u64();
                m = mul_wide(x, n64);
                lo = m as u64;
                proof {
                    lemma_split_wide(x, n64, m);
                    k = k + 1;
                    assert(rng_advance(s_start, k) == xoshiro_next(rng_advance(s_start, prev)));
                    assert forall|j: nat| j < k - 1 implies lemire_low(
                        #[trigger] draw_output(s_start, j),
                        n,
                    ) < lemire_threshold(n) by {
                        if j == prev - 1 {
                        }
                    }
                }
                draws = draws + 1;
            }
        } else {
            proof {
                lemma_threshold_below(n);
            }
        }
        proof {
            lemma_high_below(x, n);
            lemma_split_wide(x, n64, m);
            assert(kept_draw(s_start, n, k));
            let k2 = choose|k2: nat| #[trigger] kept_draw(s_start, n, k2);
            lemma_kept_draw_unique(s_start, n, k, k2);
        }
        let r = (m >> 64) as usize;
        r
    }

    /// Shuffle a vector in place (Fisher-Yates): for each position from the
    /// last down to 1, swap it with a position drawn uniformly up to it.
    pub fn shuffle<T>(&mut self, v: &mut Vec<T>)
        ensures
            final(v)@.len() == old(v)@.len(),
            final(v)@.to_multiset() == old(v)@.to_multiset(),
            (final(v)@, final(self)@) == fisher_yates(old(v)@, old(self)@, old(v)@.len() - 1),
    {
        let len = v.len();
        if len < 2 {
            return;
        }
        let mut i: usize = len - 1;
        while i >= 1
            invariant
                v@.len() == len,
                i < len,
                v@.to_multiset() == old(v)@.to_multiset(),
                fisher_yates(v@, self@, i as int) == fisher_yates(old(v)@, old(self)@, len - 1),
            decreases i,
        {
            let ghost v0 = v@;
            let ghost s0 = self@;
            let j = self.next_usize(i + 1);
            swap_in_vec(v, i, j);
            proof {
                assert(fisher_yates(v0, s0, i as int) == fisher_yates(v@, self@, i - 1));
            }
            i = i - 1;
        }
    }
}

/// Swap two positions of a vector.
pub fn swap_in_vec<T>(v: &mut Vec<T>, i: usize, j: usize)
    requires
        i < old(v)@.len(),
        j < old(v)@.len(),
    ensures
        final(v)@ == old(v)@.update(i as int, old(v)@[j as int]).update(j as int, old(v)@[i as int]),
        final(v)@.to_multiset() == old(v)@.to_multiset(),
{
    if i == j {
        proof {
            assert(old(v)@.update(i as int, old(v)@[j as int]).update(j as int, old(v)@[i as int])
                =~= old(v)@);
        }
        return;
    }
    let (lo, hi) = if i < j {
        (i, j)
    } else {
        (j, i)
    };
    let ghost s0 = v@;
    let e_hi = v.remove(hi);
    let ghost s1 = v@;
    let e_lo = v.remove(lo);
    let ghost s2 = v@;
    v.insert(lo, e_hi);
    let ghost s3 = v@;
    v.insert(hi, e_lo);
    proof {
        assert(v@ =~= s0.update(i as int, s0[j as int]).update(j as int, s0[i as int]));
        assert(s1 == s0.remove(hi as int));
        assert(s2 == s1.remove(lo as int));
        assert(s3 == s2.insert(lo as int, e_hi));
        assert(v@ == s3.insert(hi as int, e_lo));
        assert(s1.to_multiset() == s0.to_multiset().remove(e_hi));
        assert(s2.to_multiset() == s1.to_multiset().remove(e_lo));
        assert(s3.to_multiset() == s2.to_multiset().insert(e_hi));
        assert(v@.to_multiset() == s3.to_multiset().insert(e_lo));
        broadcast use vstd::multiset::group_multiset_properties;
        assert(v@.to_multiset() =~= s0.to_multiset());
    }
}

fn mul_wide(x: u64, n: u64) -> (m: u128)
    ensures
        m == x as int * n as int,
{
    proof {
        assert(x as int * n as int <= 0xffff_ffff_ffff_ffff * 0xffff_ffff_ffff_ffff) by (nonlinear_arith)
            requires
                x <= 0xffff_ffff_ffff_ffff,
                n <= 0xffff_ffff_ffff_ffff,
        ;
    }
    (x as u128) * (n as u128)
}

proof fn lemma_split_wide(x: u64, n: u64, m: u128)
    requires
        m == x as int * n as int,
    ensures
        (m as u64) as int == m as int % 0x1_0000_0000_0000_0000int,
        (m >> 64u128) as int == m as int / 0x1_0000_0000_0000_0000int,
{
    assert((m as u64) as int == m as int % 0x1_0000_0000_0000_0000int) by (bit_vector);
    assert((m >> 64u128) as int == m as int / 0x1_0000_0000_0000_0000int) by (bit_vector);
}

proof fn lemma_high_below(x: u64, n: usize)
    requires
        n > 0,
    ensures
        0 <= lemire_high(x, n) < n,
{
    assert(0 <= (x as int * n as int) / 0x1_0000_0000_0000_0000int < n) by (nonlinear_arith)
        requires
            0 <= x < 0x1_0000_0000_0000_0000int,
            n > 0,
    ;
}

/// A draw below `n` is below `n`.
pub proof fn lemma_usize_draw_below(s: RngState, n: usize)
    requires
        n > 0,
    ensures
        usize_draw(s, n).0 < n,
{
    let k = choose|k: nat| #[trigger] kept_draw(s, n, k);
    lemma_high_below(draw_output(s, (k - 1) as nat), n);
}

proof fn lemma_threshold_below(n: usize)
    requires
        n > 0,
    ensures
        lemire_threshold(n) < n,
{
}

} // verus!
