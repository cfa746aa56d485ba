//! Deterministic PRNG: xorshift64* with a central-limit Gaussian.
//!
//! Weight init and sampling both flow through this, so a (seed, history)
//! pair fully determines the model: every output below is a spec function of
//! the state it started from.

use vstd::prelude::*;
use crate::fixed::{Fx, ONE, fmul, fmul_spec, pow32};

verus! {

/// Substitute state used when the caller's seed is zero (xorshift would
/// stay at zero forever).
pub const ZERO_SEED_REPLACEMENT: u64 = 0x9E37_79B9_7F4A_7C15;

/// xorshift64* output multiplier.
pub const XORSHIFT_MUL: u64 = 0x2545_F491_4F6C_DD1D;

/// The xorshift64 state transition.
pub open spec fn xorshift(x: u64) -> u64 {
    let a = x ^ (x >> 12u64);
    let b = a ^ (a << 25u64);
    b ^ (b >> 27u64)
}

/// The xorshift64* output for a freshly advanced state.
pub open spec fn xorshift_output(state: u64) -> u64 {
    vstd::wrapping::u64_specs::wrapping_mul(state, XORSHIFT_MUL)
}

/// The uniform [0, 1) Q32.32 draw produced from a freshly advanced state.
pub open spec fn unit_of(state: u64) -> i64 {
    (xorshift_output(state) / 0x1_0000_0000) as i64
}

/// State after `k` transitions.
pub open spec fn advance(s: u64, k: nat) -> u64
    decreases k,
{
    if k == 0 { s } else { xorshift(advance(s, (k - 1) as nat)) }
}

/// -6 plus the first `k` uniform draws from state `s`.
pub open spec fn gauss_partial(s: u64, k: nat) -> int
    decreases k,
{
    if k == 0 {
        -6 * ONE
    } else {
        gauss_partial(s, (k - 1) as nat) + unit_of(advance(s, k))
    }
}

/// The CLT Gaussian drawn from state `s` (consumes 12 transitions).
pub open spec fn gauss_of(s: u64) -> i64 {
    gauss_partial(s, 12) as i64
}

/// The xorshift transition maps non-zero states to non-zero states.
pub proof fn lemma_xorshift_nonzero(x: u64)
    requires
        x != 0,
    ensures
        xorshift(x) != 0,
{
    let a = x ^ (x >> 12u64);
    let b = a ^ (a << 25u64);
    let c = b ^ (b >> 27u64);
    assert(a != 0) by (bit_vector)
        requires
            x != 0,
            a == x ^ (x >> 12u64),
    ;
    assert(b != 0) by (bit_vector)
        requires
            a != 0,
            b == a ^ (a << 25u64),
    ;
    assert(c != 0) by (bit_vector)
        requires
            b != 0,
            c == b ^ (b >> 27u64),
    ;
}

/// A non-zero state stays non-zero for any number of transitions.
pub proof fn lemma_advance_nonzero(s: u64, k: nat)
    requires
        s != 0,
    ensures
        advance(s, k) != 0,
    decreases k,
{
    if k > 0 {
        lemma_advance_nonzero(s, (k - 1) as nat);
        lemma_xorshift_nonzero(advance(s, (k - 1) as nat));
    }
}

proof fn lemma_unit_range(state: u64)
    ensures
        0 <= unit_of(state) < pow32(),
{
    assert(xorshift_output(state) / 0x1_0000_0000 < 0x1_0000_0000) by (nonlinear_arith)
        requires
            xorshift_output(state) < 0x1_0000_0000_0000_0000,
    ;
}

proof fn lemma_gauss_partial_range(s: u64, k: nat)
    ensures
        -6 * ONE <= gauss_partial(s, k) <= -6 * ONE + k * pow32(),
    decreases k,
{
    if k > 0 {
        lemma_gauss_partial_range(s, (k - 1) as nat);
        lemma_unit_range(advance(s, k));
    }
}

/// The Gaussian draw lies in [-6, 6] (Q32.32).
pub proof fn lemma_gauss_range(s: u64)
    ensures
        -6 * ONE <= gauss_of(s) <= 6 * ONE,
{
    lemma_gauss_partial_range(s, 12);
}

/// xorshift64* state. Never zero when built with `Rng::new`.
#[derive(Clone, Copy)]
pub struct Rng(pub u64);

impl Rng {
    /// Seed the generator; a zero seed is replaced by a fixed non-zero one.
    pub fn new(seed: u64) -> (r: Self)
        ensures
            r.0 == (if seed == 0 { ZERO_SEED_REPLACEMENT } else { seed }),
            r.0 != 0,
    {
        Self(if seed == 0 { ZERO_SEED_REPLACEMENT } else { seed })
    }

    /// Advance the state and return the xorshift64* output.
    #[inline]
    pub fn next_u64(&mut self) -> (r: u64)
        ensures
            final(self).0 == xorshift(old(self).0),
            r == xorshift_output(final(self).0),
            old(self).0 != 0 ==> final(self).0 != 0,
    {
        let mut x = self.0;
        x ^= x >> 12;
        x ^= x << 25;
        x ^= x >> 27;
        self.0 = x;
        proof {
            if old(self).0 != 0 {
                lemma_xorshift_nonzero(old(self).0);
            }
        }
        x.wrapping_mul(XORSHIFT_MUL)
    }

    /// Uniform in [0, 1) as Q32.32.
    #[inline]
    pub fn next_unit(&mut self) -> (r: Fx)
        ensures
            final(self).0 == xorshift(old(self).0),
            r == unit_of(final(self).0),
            0 <= r < ONE,
            old(self).0 != 0 ==> final(self).0 != 0,
    {
        let u = self.next_u64();
        proof {
            vstd::bits::lemma_u64_shr_is_div(u, 32);
            vstd::arithmetic::power2::lemma2_to64();
            lemma_unit_range(self.0);
        }
        (u >> 32) as i64
    }

    /// Standard Gaussian (mean 0, std 1) by the central limit theorem: sum of
    /// 12 uniforms minus 6.
    pub fn next_gauss(&mut self) -> (r: Fx)
        ensures
            final(self).0 == advance(old(self).0, 12),
            r == gauss_of(old(self).0),
            -6 * ONE <= r <= 6 * ONE,
            old(self).0 != 0 ==> final(self).0 != 0,
    {
        let ghost s0 = self.0;
        let mut acc: Fx = -6 * ONE;
        let mut k: usize = 0;
        while k < 12
            invariant
                k <= 12,
                self.0 == advance(s0, k as nat),
                acc == gauss_partial(s0, k as nat),
            decreases 12 - k,
        {
            proof {
                lemma_gauss_partial_range(s0, k as nat);
            }
            let u = self.next_unit();
            acc = acc + u;
            k = k + 1;
        }
        proof {
            lemma_gauss_range(s0);
            if s0 != 0 {
                lemma_advance_nonzero(s0, 12);
            }
        }
        acc
    }

    /// Gaussian scaled by `std` (Q32.32).
    pub fn next_gauss_scaled(&mut self, std: Fx) -> (r: Fx)
        ensures
            final(self).0 == advance(old(self).0, 12),
            r == fmul_spec(gauss_of(old(self).0), std),
            old(self).0 != 0 ==> final(self).0 != 0,
    {
        let g = self.next_gauss();
        fmul(g, std)
    }
}

} // verus!
