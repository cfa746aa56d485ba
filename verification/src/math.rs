//! Integer transcendentals for Q32.32: exp, ln, sqrt and reciprocal sqrt.
//!
//! `sqrt_fx` and `isqrt_u64` are exact floor square roots; `exp_fx`,
//! `rsqrt_fx` and `ln_fx` are fixed evaluation schemes (table + polynomial,
//! Newton iterations, atanh series) whose every rounding step is pinned down
//! by the spec functions below, so results are bit-reproducible.

use vstd::prelude::*;
use vstd::arithmetic::power2::{pow2, lemma_pow2_adds, lemma_pow2_pos, lemma_pow2_strictly_increases, lemma2_to64, lemma2_to64_rest};
use crate::fixed::{Fx, FRAC, ONE, fmul, fdiv, fmul_spec, fdiv_spec, pow32, shr, wsub, tdiv, div_trunc, lemma_shr_i64, lemma_shl_i64, lemma_fmul_shrinks};

verus! {

/// `r` is the floor square root of `z`.
pub open spec fn is_isqrt(z: int, r: int) -> bool {
    0 <= r && r * r <= z && z < (r + 1) * (r + 1)
}

/// The floor square root of a non-negative integer.
pub open spec fn isqrt_spec(z: int) -> int {
    choose|r: int| is_isqrt(z, r)
}

/// Every non-negative integer has a floor square root.
pub proof fn lemma_isqrt_exists(z: nat)
    ensures
        is_isqrt(z as int, isqrt_spec(z as int)),
    decreases z,
{
    if z == 0 {
        assert(is_isqrt(0, 0));
    } else {
        lemma_isqrt_exists((z - 1) as nat);
        let r = isqrt_spec(z - 1);
        if (z as int) < (r + 1) * (r + 1) {
            assert(is_isqrt(z as int, r));
        } else {
            assert((r + 1) * (r + 1) <= z);
            assert((z as int) < (r + 2) * (r + 2)) by (nonlinear_arith)
                requires
                    z - 1 < (r + 1) * (r + 1),
                    r >= 0,
            ;
            assert(is_isqrt(z as int, r + 1));
        }
    }
}

/// The floor square root is unique.
pub proof fn lemma_isqrt_unique(z: int, r1: int, r2: int)
    requires
        is_isqrt(z, r1),
        is_isqrt(z, r2),
    ensures
        r1 == r2,
{
    if r1 < r2 {
        assert((r1 + 1) * (r1 + 1) <= r2 * r2) by (nonlinear_arith)
            requires
                0 <= r1,
                r1 + 1 <= r2,
        ;
    } else if r2 < r1 {
        assert((r2 + 1) * (r2 + 1) <= r1 * r1) by (nonlinear_arith)
            requires
                0 <= r2,
                r2 + 1 <= r1,
        ;
    }
}

/// One Newton step `(s + z/s) / 2` never drops below the floor root.
proof fn lemma_newton_stays_above(z: int, s: int)
    requires
        z >= 0,
        s > 0,
    ensures
        z < ((s + z / s) / 2 + 1) * ((s + z / s) / 2 + 1),
{
    let q = z / s;
    let n = (s + q) / 2;
    let t = n + 1;
    vstd::arithmetic::div_mod::lemma_fundamental_div_mod(z, s);
    assert(z < s * (q + 1)) by (nonlinear_arith)
        requires
            z == s * q + z % s,
            0 <= z % s < s,
    {
        vstd::arithmetic::mul::lemma_mul_is_distributive_add(s, q, 1);
    }
    assert(q >= 0) by {
        vstd::arithmetic::div_mod::lemma_div_pos_is_pos(z, s);
    }
    assert(s + q <= 2 * t - 1);
    if t * t <= z {
        assert(s * (q + 1) <= s * (2 * t - s)) by (nonlinear_arith)
            requires
                s > 0,
                q + 1 <= 2 * t - s,
        ;
        assert(false) by (nonlinear_arith)
            requires
                z < s * (q + 1),
                s * (q + 1) <= s * (2 * t - s),
                t * t <= z,
        ;
    }
}

/// If a Newton step does not decrease `s`, then `s` is at most the root;
/// otherwise it strictly decreases.
proof fn lemma_newton_exit(z: int, s: int)
    requires
        z >= 0,
        s > 0,
    ensures
        (s + z / s) / 2 >= s ==> s * s <= z,
        s * s > z ==> (s + z / s) / 2 < s,
{
    if s * s > z {
        vstd::arithmetic::div_mod::lemma_div_is_ordered(z, s * s - 1, s);
        assert((s * s - 1) / s == s - 1) by {
            assert(s * s - 1 == (s - 1) * s + (s - 1)) by (nonlinear_arith);
            vstd::arithmetic::div_mod::lemma_fundamental_div_mod_converse(s * s - 1, s, s - 1, s - 1);
        }
    }
}

/// While `z < (s+1)^2`, the quotient `z / s` is at most `s + 2`.
proof fn lemma_newton_quotient_bound(z: int, s: int)
    requires
        z >= 0,
        s > 0,
        z < (s + 1) * (s + 1),
    ensures
        z / s <= s + 2,
{
    assert((s + 1) * (s + 1) <= s * (s + 3)) by (nonlinear_arith)
        requires
            s > 0,
    ;
    vstd::arithmetic::div_mod::lemma_div_is_ordered(z, s * (s + 3) - 1, s);
    assert((s * (s + 3) - 1) / s == s + 2) by {
        assert(s * (s + 3) - 1 == (s + 2) * s + (s - 1)) by (nonlinear_arith);
        vstd::arithmetic::div_mod::lemma_fundamental_div_mod_converse(s * (s + 3) - 1, s, s + 2, s - 1);
    }
}

/// Bit-length facts about a positive u64: with `b = 64 - leading_zeros`,
/// `2^(b-1) <= z < 2^b`.
pub proof fn lemma_bit_length(z: u64)
    requires
        z > 0,
    ensures
        1 <= 64 - vstd::std_specs::bits::u64_leading_zeros(z) <= 64,
        pow2((63 - vstd::std_specs::bits::u64_leading_zeros(z)) as nat) <= z,
        z < pow2((64 - vstd::std_specs::bits::u64_leading_zeros(z)) as nat),
{
    let lz = vstd::std_specs::bits::u64_leading_zeros(z);
    vstd::std_specs::bits::axiom_u64_leading_zeros(z);
    let k: u64 = (63 - lz) as u64;
    assert((z >> k) & 1u64 != 0u64);
    assert((1u64 << k) <= z) by (bit_vector)
        requires
            k < 64,
            (z >> k) & 1u64 != 0u64,
    ;
    vstd::bits::lemma_u64_pow2_no_overflow(k as nat);
    vstd::bits::lemma_u64_shl_is_mul(1u64, k);
    if k < 63 {
        let k1: u64 = (k + 1) as u64;
        assert(z >> k1 == 0);
        assert(z < (1u64 << k1)) by (bit_vector)
            requires
                k1 < 64,
                z >> k1 == 0u64,
        ;
        vstd::bits::lemma_u64_pow2_no_overflow(k1 as nat);
        vstd::bits::lemma_u64_shl_is_mul(1u64, k1);
    } else {
        lemma2_to64_rest();
    }
}

/// Integer sqrt of the u64 `z` by Newton's method, native 64-bit divisions
/// only. Returns the floor square root.
#[inline]
pub fn isqrt_u64(z: u64) -> (r: u64)
    ensures
        is_isqrt(z as int, r as int),
        r == isqrt_spec(z as int),
{
    let r = isqrt_newton(z);
    proof {
        lemma_isqrt_exists(z as nat);
        lemma_isqrt_unique(z as int, r as int, isqrt_spec(z as int));
    }
    r
}

fn isqrt_newton(z: u64) -> (r: u64)
    ensures
        is_isqrt(z as int, r as int),
{
    if z == 0 {
        return 0;
    }
    let bits: u32 = 64 - z.leading_zeros();
    let half: u32 = (bits + 1) / 2;
    proof {
        lemma_bit_length(z);
        lemma_pow2_adds(half as nat, half as nat);
        if (half + half) as nat > bits as nat {
            lemma_pow2_strictly_increases(bits as nat, (half + half) as nat);
        }
        vstd::bits::lemma_u64_pow2_no_overflow(half as nat);
        vstd::bits::lemma_u64_shl_is_mul(1u64, half as u64);
        lemma2_to64();
        lemma_pow2_pos(half as nat);
        if half < 32 {
            lemma_pow2_strictly_increases(half as nat, 32);
        }
    }
    let mut s: u64 = 1u64 << half;
    assert(s * s > z);
    assert((z as int) < (s + 1) * (s + 1)) by (nonlinear_arith)
        requires
            s * s > z,
            s > 0,
    ;
    loop
        invariant
            z > 0,
            0 < s <= 0x1_0000_0000,
            (z as int) < (s + 1) * (s + 1),
        ensures
            is_isqrt(z as int, s as int),
        decreases s,
    {
        proof {
            lemma_newton_quotient_bound(z as int, s as int);
            lemma_newton_stays_above(z as int, s as int);
            lemma_newton_exit(z as int, s as int);
        }
        let next = (s + z / s) >> 1;
        proof {
            vstd::bits::lemma_u64_shr_is_div((s + z / s) as u64, 1);
            lemma2_to64();
        }
        if next >= s {
            break;
        }
        s = next;
    }
    s
}


/// sqrt of a non-negative Q32.32 value, result in Q32.32: the exact floor
/// of sqrt(x * 2^32), i.e. sqrt(x) truncated to 32 fractional bits.
pub fn sqrt_fx(x: Fx) -> (r: Fx)
    requires
        x >= 0,
    ensures
        is_isqrt(x as int * pow32(), r as int),
        r == isqrt_spec(x as int * pow32()),
{
    if x == 0 {
        proof {
            lemma_isqrt_exists(0);
            lemma_isqrt_unique(0, 0, isqrt_spec(0));
        }
        return 0;
    }
    let xu: u128 = x as u128;
    proof {
        assert(xu << 32u128 == xu * 0x1_0000_0000) by (bit_vector)
            requires
                xu < 0x8000_0000_0000_0000,
        ;
    }
    let n: u128 = xu << 32;
    let r0 = isqrt_u64(x as u64);
    proof {
        assert(r0 < 0x1_0000_0000) by (nonlinear_arith)
            requires
                r0 * r0 <= x,
                x < 0x8000_0000_0000_0000,
                r0 >= 0,
        ;
    }
    let r1: u128 = (r0 as u128) + 1;
    proof {
        assert(r1 << 16u128 == r1 * 0x1_0000) by (bit_vector)
            requires
                r1 <= 0x1_0000_0000,
        ;
    }
    let mut s: u128 = r1 << 16;
    proof {
        assert(n < s * s) by (nonlinear_arith)
            requires
                n == xu * 0x1_0000_0000,
                xu < r1 * r1,
                s == r1 * 0x1_0000,
        ;
        assert((n as int) < (s + 1) * (s + 1)) by (nonlinear_arith)
            requires
                n < s * s,
                s > 0,
        ;
    }
    loop
        invariant
            n > 0,
            0 < s <= 0x1_0000_0000_0000,
            (n as int) < (s + 1) * (s + 1),
        ensures
            is_isqrt(n as int, s as int),
        decreases s,
    {
        proof {
            lemma_newton_quotient_bound(n as int, s as int);
            lemma_newton_stays_above(n as int, s as int);
            lemma_newton_exit(n as int, s as int);
        }
        let next = (s + n / s) >> 1;
        proof {
            vstd::bits::lemma_u128_shr_is_div((s + n / s) as u128, 1);
            lemma2_to64();
            assert(next == (s + n / s) / 2);
            assert((n as int) < (next + 1) * (next + 1));
            assert(next > 0) by (nonlinear_arith)
                requires
                    n > 0,
                    (n as int) < (next + 1) * (next + 1),
                    next >= 0,
            ;
        }
        if next >= s {
            break;
        }
        s = next;
    }
    // Newton lands within one of the floor.
    proof {
        assert(s * s <= 0x1_0000_0000_0000_0000_0000_0000) by (nonlinear_arith)
            requires
                s <= 0x1_0000_0000_0000,
        ;
    }
    while s * s > n
        invariant
            (n as int) < (s + 1) * (s + 1),
            s <= 0x1_0000_0000_0000,
            s * s <= 0x1_0000_0000_0000_0000_0000_0000,
        decreases s,
    {
        assert(s > 0) by (nonlinear_arith)
            requires
                s * s > n,
        ;
        s = s - 1;
        proof {
            assert(s * s <= 0x1_0000_0000_0000_0000_0000_0000) by (nonlinear_arith)
                requires
                    s <= 0x1_0000_0000_0000,
            ;
        }
    }
    proof {
        lemma_isqrt_exists((x as int * pow32()) as nat);
        lemma_isqrt_unique(x as int * pow32(), s as int, isqrt_spec(x as int * pow32()));
    }
    s as i64
}

/// Coarse sqrt of a Q32.32 value: the floor square root of the raw integer,
/// shifted into Q32.32 (~16 fractional bits of precision, native u64
/// arithmetic only). Non-positive inputs give 0.
pub fn sqrt_fx_coarse(x: Fx) -> (r: Fx)
    ensures
        r == sqrt_coarse_spec(x),
{
    if x <= 0 {
        return 0;
    }
    let q = isqrt_u64(x as u64);
    proof {
        assert(q < 0x1_0000_0000) by (nonlinear_arith)
            requires
                q * q <= x,
                x < 0x8000_0000_0000_0000,
                q >= 0,
        ;
    }
    let qi: i64 = q as i64;
    proof {
        assert(qi << 16u64 == qi * 0x1_0000) by (bit_vector)
            requires
                0 <= qi < 0x1_0000_0000,
        ;
    }
    qi << 16
}

/// Exact value of `sqrt_fx_coarse`.
pub open spec fn sqrt_coarse_spec(x: i64) -> i64 {
    if x <= 0 {
        0
    } else {
        (isqrt_spec(x as int) * 0x1_0000) as i64
    }
}

/// The coarse root agrees with the exact one to 16 fractional bits: it is
/// the exact root with its low 16 bits cleared.
pub proof fn lemma_sqrt_coarse_exact(x: i64)
    requires
        x >= 0,
    ensures
        sqrt_coarse_spec(x) % 0x1_0000 == 0,
        sqrt_coarse_spec(x) <= isqrt_spec(x as int * pow32()) < sqrt_coarse_spec(x) + 0x1_0000,
{
    let z = x as int * pow32();
    assert(z >= 0) by (nonlinear_arith)
        requires
            x >= 0,
            pow32() == 0x1_0000_0000,
            z == x as int * pow32(),
    ;
    lemma_isqrt_exists(z as nat);
    let r = isqrt_spec(z);
    if x == 0 {
        assert(is_isqrt(0, 0));
        lemma_isqrt_unique(0, r, 0);
    } else {
        lemma_isqrt_exists(x as nat);
        lemma_sqrt_coarse_range(x);
        let q = isqrt_spec(x as int);
        assert(q < 0x1_0000_0000) by (nonlinear_arith)
            requires
                q * q <= x,
                x < 0x8000_0000_0000_0000,
                q >= 0,
        ;
        let c = q * 0x1_0000;
        assert(sqrt_coarse_spec(x) == c);
        assert(c * c <= z) by (nonlinear_arith)
            requires
                c == q * 0x1_0000,
                q * q <= x,
                z == x * 0x1_0000_0000,
                q >= 0,
        ;
        assert(c <= r) by (nonlinear_arith)
            requires
                c * c <= z,
                z < (r + 1) * (r + 1),
                c >= 0,
                r >= 0,
        ;
        let d = (q + 1) * 0x1_0000;
        assert(z < d * d) by (nonlinear_arith)
            requires
                d == (q + 1) * 0x1_0000,
                x < (q + 1) * (q + 1),
                z == x * 0x1_0000_0000,
        ;
        assert(r < d) by (nonlinear_arith)
            requires
                r * r <= z,
                z < d * d,
                r >= 0,
                d >= 0,
        ;
        assert(c % 0x1_0000 == 0) by (nonlinear_arith)
            requires
                c == q * 0x1_0000,
                q >= 0,
        ;
    }
}

/// The coarse sqrt is non-negative and below 2^48.
pub proof fn lemma_sqrt_coarse_range(x: i64)
    ensures
        0 <= sqrt_coarse_spec(x) < 0x1_0000_0000_0000,
{
    if x > 0 {
        lemma_isqrt_exists(x as nat);
        let q = isqrt_spec(x as int);
        assert(q < 0x1_0000_0000) by (nonlinear_arith)
            requires
                q * q <= x,
                x < 0x8000_0000_0000_0000,
                q >= 0,
        ;
    }
}


/// ln(2) in Q32.32.
pub const LN2: Fx = 2_977_044_472;

/// log2(e) in Q32.32.
pub const LOG2E: Fx = 6_196_328_019;

/// 2^(k/64) for k in 0..64, Q32.32: the exp lookup table.
pub const EXP2_LUT: [i64; 64] = [
    4294967296, 4341736423, 4389014833, 4436808071, 4485121744, 4533961517, 4583333121, 4633242347,
    4683695048, 4734697143, 4786254615, 4838373510, 4891059943, 4944320094, 4998160210, 5052586606,
    5107605667, 5163223846, 5219447668, 5276283726, 5333738689, 5391819295, 5450532358, 5509884764,
    5569883475, 5630535530, 5691848042, 5753828203, 5816483285, 5879820635, 5943847684, 6008571941,
    6074001000, 6140142534, 6207004303, 6274594148, 6342919999, 6411989869, 6481811861, 6552394164,
    6623745059, 6695872913, 6768786189, 6842493438, 6917003306, 6992324534, 7068465956, 7145436504,
    7223245206, 7301901189, 7381413680, 7461792005, 7543045592, 7625183973, 7708216783, 7792153760,
    7877004752, 7962779710, 8049488696, 8137141881, 8225749546, 8315322086, 8405870007, 8497403930,
];

/// Exact value of `exp_fx`: exp(x) = 2^(x*log2e), the fractional power split
/// into a 6-bit table lookup and a quadratic correction; inputs below -22
/// underflow to 0.
pub open spec fn exp_spec(x: i64) -> i64 {
    if x < -22 * ONE {
        0
    } else {
        let t = fmul_spec(x, LOG2E);
        let i = shr(t, 32);
        let f = t - i * pow32();
        let hi = f / 0x400_0000;
        let lo = f % 0x400_0000;
        let r = fmul_spec(lo as i64, LN2);
        let poly = (ONE + r + shr(fmul_spec(r, r), 1)) as i64;
        vstd::wrapping::i64_specs::wrapping_shr(fmul_spec(EXP2_LUT[hi], poly), #[verifier::truncate] ((-i) as u32))
    }
}

/// Every entry of the exp table lies in [ONE, 2 * ONE).
proof fn lemma_exp2_lut_range(hi: int)
    requires
        0 <= hi < 64,
    ensures
        ONE <= EXP2_LUT[hi] <= EXP2_LUT[63],
        EXP2_LUT[0] == ONE,
        EXP2_LUT[63] == 8497403930,
{
    assert(EXP2_LUT[63] == 8497403930);
}

/// On the softmax domain exp lies in [0, ONE], and exp(0) is exactly ONE.
pub proof fn lemma_exp_range(x: i64)
    requires
        x <= 0,
    ensures
        0 <= exp_spec(x) <= ONE,
        x == 0 ==> exp_spec(x) == ONE,
{
    if x >= -22 * ONE {
        lemma2_to64();
        let p = x as int * LOG2E as int;
        assert(-22 * 0x1_0000_0000 * 6_196_328_019 <= p <= 0) by (nonlinear_arith)
            requires
                p == x as int * 6_196_328_019,
                -22 * 0x1_0000_0000 <= x <= 0,
        ;
        assert(x < 0 ==> p < 0) by (nonlinear_arith)
            requires
                p == x as int * 6_196_328_019,
        ;
        let t = fmul_spec(x, LOG2E);
        vstd::arithmetic::div_mod::lemma_div_is_ordered(-22 * 0x1_0000_0000 * 6_196_328_019, p, pow32());
        vstd::arithmetic::div_mod::lemma_div_is_ordered(p, 0, pow32());
        assert((-22 * 0x1_0000_0000 * 6_196_328_019) / pow32() == -136_319_216_418);
        assert(t as int == p / pow32());
        assert(-136_319_216_418 <= t <= 0);
        assert(x < 0 ==> t < 0);
        let i = shr(t, 32);
        assert(i as int == t as int / pow32());
        assert(-32 <= i <= 0);
        assert(x < 0 ==> i < 0);
        let f = t - i * pow32();
        assert(0 <= f < pow32());
        let hi = f / 0x400_0000;
        let lo = f % 0x400_0000;
        assert(0 <= hi < 64);
        assert(0 <= lo < 0x400_0000);
        let r = fmul_spec(lo as i64, LN2);
        assert(0 <= lo * LN2 <= 0x3ff_ffff * 2_977_044_472) by (nonlinear_arith)
            requires
                0 <= lo < 0x400_0000,
                LN2 == 2_977_044_472,
        ;
        assert(0 <= r <= 46_516_319);
        let rr = fmul_spec(r, r);
        assert(0 <= r as int * r as int <= 46_516_319 * 46_516_319) by (nonlinear_arith)
            requires
                0 <= r <= 46_516_319,
        ;
        assert(0 <= rr <= 503_793);
        let half = shr(rr, 1);
        assert(half as int == rr as int / 2);
        let poly = (ONE + r + half) as i64;
        assert(ONE <= poly <= 4_341_735_511);
        lemma_exp2_lut_range(hi);
        let l = EXP2_LUT[hi];
        assert(0 <= l as int * poly as int <= 8_497_403_930 * 4_341_735_511) by (nonlinear_arith)
            requires
                0 <= l <= 8_497_403_930,
                0 <= poly <= 4_341_735_511,
        ;
        let m = fmul_spec(l, poly);
        assert(0 <= m < 0x2_0000_0000);
        let sh: u32 = #[verifier::truncate] ((-i) as u32);
        assert(sh == -i);
        if x == 0 {
            assert(t == 0);
            assert(i == 0);
            assert(hi == 0 && lo == 0);
            assert(r == 0);
            assert(r as int * r as int == 0) by (nonlinear_arith)
                requires
                    r == 0,
            ;
            assert(rr == 0);
            assert(poly == ONE);
            assert(l as int * poly as int == 0x1_0000_0000 * 0x1_0000_0000) by (nonlinear_arith)
                requires
                    l == 0x1_0000_0000,
                    poly == 0x1_0000_0000,
            ;
            assert(m == ONE);
            assert((m >> (sh % 64)) == m) by (bit_vector)
                requires
                    sh == 0,
            ;
        } else {
            assert(1 <= sh <= 32);
            assert(0 <= (m >> (sh % 64)) < 0x1_0000_0000) by (bit_vector)
                requires
                    0 <= m < 0x2_0000_0000,
                    1 <= sh <= 32,
            ;
        }
    }
}

/// exp(x) for the post max-subtraction softmax domain x <= 0.
///
/// exp(x) = 2^(x*log2e) with the fractional power split into a 6-bit table
/// lookup and a short quadratic correction: ~5 multiplies, no division.
/// Inputs below -22 underflow Q32.32 and return 0. The final scaling shift
/// is taken modulo 64, which only matters outside the x <= 0 domain.
pub fn exp_fx(x: Fx) -> (r: Fx)
    ensures
        r == exp_spec(x),
        x < -22 * ONE ==> r == 0,
{
    if x < -22 * ONE {
        return 0;
    }
    let t = fmul(x, LOG2E); // <= 0 on the intended domain
    proof {
        lemma_shr_i64(t, 32);
        lemma2_to64();
    }
    let i = t >> FRAC; // floor
    proof {
        assert(-0x8000_0000 <= i < 0x8000_0000) by (bit_vector)
            requires
                i == t >> 32u64,
        ;
        assert((i << 32u64) == i * 0x1_0000_0000) by (bit_vector)
            requires
                -0x8000_0000 <= i < 0x8000_0000,
        ;
        vstd::arithmetic::div_mod::lemma_fundamental_div_mod(t as int, pow32());
    }
    let f = t - (i << FRAC); // [0, 1)
    proof {
        lemma_shr_i64(f, 26);
        assert(f & 0x3ff_ffffi64 == f % 0x400_0000) by (bit_vector)
            requires
                0 <= f,
        ;
    }
    let hi = (f >> 26) as usize; // top 6 bits
    let lo = f & 0x3ff_ffff; // low 26 bits: [0, 2^-6)

    // 2^lo ~ 1 + lo*ln2 + (lo*ln2)^2/2 (max error ~2e-7 over the window).
    let r = fmul(lo, LN2);
    proof {
        lemma_fmul_shrinks(lo, LN2);
        lemma_fmul_shrinks(r, r);
        lemma_shr_i64(fmul_spec(r, r), 1);
    }
    let poly = ONE + r + (fmul(r, r) >> 1);
    fmul(EXP2_LUT[hi], poly).wrapping_shr(#[verifier::truncate] ((-i) as u32))
}


/// Index of the most significant set bit of a positive value.
pub open spec fn msb_of(x: i64) -> int {
    63 - vstd::std_specs::bits::u64_leading_zeros(x as u64)
}

/// `2^msb <= x < 2^(msb+1)` for positive `x`.
pub proof fn lemma_msb(x: i64)
    requires
        x > 0,
    ensures
        0 <= msb_of(x) <= 62,
        pow2(msb_of(x) as nat) <= x,
        x < pow2((msb_of(x) + 1) as nat),
{
    lemma_bit_length(x as u64);
    if msb_of(x) > 62 {
        lemma2_to64_rest();
        lemma_pow2_strictly_increases(62, msb_of(x) as nat);
        assert(false);
    }
}

/// sqrt(2) in Q32.32.
pub const SQRT2: Fx = 6_074_001_000;

/// Newton seed for rsqrt: 2^(-e/2) for x ~ 2^e (e relative to ONE), exact
/// at powers of two.
pub open spec fn rsqrt_seed(x: i64) -> i64 {
    let e = msb_of(x) - 32;
    let half = if e >= 0 { -(e / 2) - (e % 2) } else { (-e) / 2 };
    let y = if half >= 0 { ONE as int * pow2(half as nat) } else { ONE as int / (pow2((-half) as nat) as int) };
    if e % 2 != 0 { fmul_spec(y as i64, SQRT2) } else { y as i64 }
}

/// One multiply-only Newton step for 1/sqrt(x): y' = y * (3 - x*y*y) / 2.
pub open spec fn rsqrt_step(x: i64, y: i64) -> i64 {
    shr(fmul_spec(y, wsub((3 * ONE) as i64, fmul_spec(x, fmul_spec(y, y)))), 1)
}

/// `k` Newton steps from `y`.
pub open spec fn rsqrt_iter(x: i64, y: i64, k: nat) -> i64
    decreases k,
{
    if k == 0 { y } else { rsqrt_iter(x, rsqrt_step(x, y), (k - 1) as nat) }
}

/// Exact value of `rsqrt_fx`: four Newton steps from the exponent seed.
pub open spec fn rsqrt_spec(x: i64) -> i64 {
    rsqrt_iter(x, rsqrt_seed(x), 4)
}

/// Powers of two up to 2^62 fit an i64.
proof fn lemma_pow2_fits(a: nat)
    requires
        a <= 62,
    ensures
        0 < pow2(a) <= 0x4000_0000_0000_0000,
{
    lemma_pow2_pos(a);
    lemma2_to64_rest();
    if a < 62 {
        lemma_pow2_strictly_increases(a, 62);
    }
}

/// The Q32.32 product of two powers of two is a power of two.
proof fn lemma_fmul_pow2(a: nat, b: nat)
    requires
        a <= 62,
        b <= 62,
        32 <= a + b <= 94,
    ensures
        fmul_spec(pow2(a) as i64, pow2(b) as i64) == pow2((a + b - 32) as nat) as i64,
{
    lemma_pow2_fits(a);
    lemma_pow2_fits(b);
    lemma_pow2_fits((a + b - 32) as nat);
    lemma2_to64();
    lemma_pow2_adds(a, b);
    lemma_pow2_adds((a + b - 32) as nat, 32);
    assert(pow2(a) as int * pow2(b) as int == pow2((a + b - 32) as nat) as int * pow32());
    vstd::arithmetic::div_mod::lemma_fundamental_div_mod_converse(
        pow2(a) as int * pow2(b) as int,
        pow32(),
        pow2((a + b - 32) as nat) as int,
        0,
    );
}

/// The most significant bit of 2^m is m.
proof fn lemma_msb_pow2(m: nat)
    requires
        m <= 62,
    ensures
        msb_of(pow2(m) as i64) == m,
{
    lemma_pow2_fits(m);
    let x = pow2(m) as i64;
    lemma_msb(x);
    let b = msb_of(x);
    if b < m {
        if b + 1 < m {
            lemma_pow2_strictly_increases((b + 1) as nat, m);
        }
        assert(false);
    } else if b > m {
        lemma_pow2_strictly_increases(m, b as nat);
        assert(false);
    }
}

/// At 2^(32 + 2j) (an even power of two, x = 4^j in real terms) the Newton
/// step keeps 2^(32 - j) fixed: it is the exact reciprocal square root.
proof fn lemma_rsqrt_step_fixed(j: int)
    requires
        -15 <= j <= 15,
    ensures
        rsqrt_step(pow2((32 + 2 * j) as nat) as i64, pow2((32 - j) as nat) as i64) == pow2((32 - j) as nat) as i64,
{
    lemma_pow2_fits((32 + 2 * j) as nat);
    lemma_pow2_fits((32 - j) as nat);
    lemma_pow2_fits((32 - 2 * j) as nat);
    lemma2_to64_rest();
    let x = pow2((32 + 2 * j) as nat) as i64;
    let y = pow2((32 - j) as nat) as i64;
    lemma_fmul_pow2((32 - j) as nat, (32 - j) as nat);
    assert(((32 - j) + (32 - j) - 32) as nat == (32 - 2 * j) as nat);
    let yy = fmul_spec(y, y);
    assert(yy == pow2((32 - 2 * j) as nat) as i64);
    lemma_fmul_pow2((32 + 2 * j) as nat, (32 - 2 * j) as nat);
    assert(((32 + 2 * j) + (32 - 2 * j) - 32) as nat == 32);
    lemma2_to64();
    assert(fmul_spec(x, yy) == ONE);
    let c = wsub((3 * ONE) as i64, ONE);
    assert(c == 0x2_0000_0000);
    assert(c == pow2(33) as i64);
    lemma_fmul_pow2((32 - j) as nat, 33);
    assert(((32 - j) + 33 - 32) as nat == (33 - j) as nat);
    let z = fmul_spec(y, c);
    assert(z == pow2((33 - j) as nat) as i64);
    lemma_pow2_fits((33 - j) as nat);
    vstd::arithmetic::power2::lemma_pow2_unfold((33 - j) as nat);
    assert(pow2((33 - j) as nat) == 2 * pow2((32 - j) as nat));
    assert(shr(z, 1) as int == z as int / 2);
}

proof fn lemma_rsqrt_iter_fixed(j: int, k: nat)
    requires
        -15 <= j <= 15,
    ensures
        rsqrt_iter(pow2((32 + 2 * j) as nat) as i64, pow2((32 - j) as nat) as i64, k) == pow2((32 - j) as nat) as i64,
    decreases k,
{
    if k > 0 {
        lemma_rsqrt_step_fixed(j);
        lemma_rsqrt_iter_fixed(j, (k - 1) as nat);
    }
}

/// rsqrt is the reciprocal square root, exactly at even powers of two: for
/// x = 4^j (2^(32 + 2j) in Q32.32) it returns 2^-j (2^(32 - j)), e.g.
/// rsqrt(4) = 1/2 and rsqrt(1/4) = 2, for every j in [-15, 15].
pub proof fn lemma_rsqrt_even_powers(j: int)
    requires
        -15 <= j <= 15,
    ensures
        rsqrt_spec(pow2((32 + 2 * j) as nat) as i64) == pow2((32 - j) as nat) as i64,
{
    let x = pow2((32 + 2 * j) as nat) as i64;
    lemma_msb_pow2((32 + 2 * j) as nat);
    let e = msb_of(x) - 32;
    assert(e == 2 * j);
    assert(e % 2 == 0);
    lemma2_to64();
    if j >= 0 {
        assert(-(e / 2) - (e % 2) == -j);
        // ONE / 2^j == 2^(32 - j)
        lemma_pow2_adds((32 - j) as nat, j as nat);
        assert((32 - j) as nat + j as nat == 32);
        lemma_pow2_pos(j as nat);
        vstd::arithmetic::div_mod::lemma_div_by_multiple(pow2((32 - j) as nat) as int, pow2(j as nat) as int);
        assert(ONE as int == pow2((32 - j) as nat) as int * pow2(j as nat) as int);
        assert(rsqrt_seed(x) == pow2((32 - j) as nat) as i64);
    } else {
        assert((-e) / 2 == -j);
        lemma_pow2_adds(32, (-j) as nat);
        assert((32 + (-j)) as nat == (32 - j) as nat);
        assert(rsqrt_seed(x) == pow2((32 - j) as nat) as i64);
    }
    lemma_rsqrt_iter_fixed(j, 4);
}

/// 1/sqrt(x) in Q32.32, by multiply-only Newton iteration
/// y' = y * (3 - x*y*y) / 2, seeded from the exponent. Meaningful for x > 0;
/// the evaluation scheme (and so the result) is fixed for every input.
pub fn rsqrt_fx(x: Fx) -> (r: Fx)
    ensures
        r == rsqrt_spec(x),
{
    proof {
        vstd::std_specs::bits::axiom_u64_leading_zeros(x as u64);
    }
    let lz = (x as u64).leading_zeros();
    let msb: i64 = 63 - lz as i64; // bit index of the leading 1
    let e: i64 = msb - FRAC as i64;
    proof {
        assert((e & 1i64 != 0i64) == (e % 2 != 0)) by (bit_vector)
            requires
                -64 <= e <= 64,
        ;
    }
    // y0 = 2^floor(-e/2), times sqrt(2) for odd exponents so the seed is
    // exactly 2^(-e/2) at powers of two.
    let half: i64 = if e >= 0 {
        proof {
            assert((e & 1i64) == e % 2) by (bit_vector)
                requires
                    0 <= e <= 64,
            ;
        }
        -div_trunc(e, 2) - (e & 1)
    } else {
        div_trunc(-e, 2)
    };
    proof {
        lemma2_to64();
        lemma2_to64_rest();
        lemma_pow2_pos(half as nat);
        lemma_pow2_pos((-half) as nat);
        if half >= 0 {
            if half < 16 {
                lemma_pow2_strictly_increases(half as nat, 16);
            }
            lemma_shl_i64(ONE, half as u64);
        } else {
            lemma_shr_i64(ONE, (-half) as u64);
        }
    }
    let mut y: Fx = if half >= 0 { ONE << (half as u64) } else { ONE >> ((-half) as u64) };
    if e & 1 != 0 {
        y = fmul(y, SQRT2);
    }
    assert(y == rsqrt_seed(x));
    // Quadratic convergence: 4 iterations cover the seed's < 2x error.
    let mut k: usize = 0;
    while k < 4
        invariant
            k <= 4,
            rsqrt_iter(x, y, (4 - k) as nat) == rsqrt_spec(x),
        decreases 4 - k,
    {
        let correction = (3 * ONE).wrapping_sub(fmul(x, fmul(y, y)));
        proof {
            lemma_shr_i64(fmul_spec(y, correction), 1);
        }
        y = fmul(y, correction) >> 1;
        k = k + 1;
    }
    y
}

/// 2/13, 2/11, 2/9, 2/7, 2/5 and 2/3 in Q32.32 (floored): the atanh series
/// coefficients of `ln_fx`.
pub const TWO_THIRTEENTHS: Fx = 660_764_199;
pub const TWO_ELEVENTHS: Fx = 780_903_144;
pub const TWO_NINTHS: Fx = 954_437_176;
pub const TWO_SEVENTHS: Fx = 1_227_133_513;
pub const TWO_FIFTHS: Fx = 1_717_986_918;
pub const TWO_THIRDS: Fx = 2_863_311_530;

/// The mantissa of `ln_fx`: x scaled by a power of two into [ONE, 2*ONE).
pub open spec fn ln_mantissa(x: i64) -> i64 {
    let ex = msb_of(x) - 32;
    if ex >= 0 { shr(x, ex as nat) } else { (x * pow2((-ex) as nat)) as i64 }
}

/// The atanh series sum 2 + 2t^2/3 + ... + 2t^12/13 evaluated by Horner's
/// rule in Q32.32, for t2 = t^2.
pub open spec fn ln_series(t2: i64) -> i64 {
    let a0 = TWO_THIRTEENTHS;
    let a1 = (TWO_ELEVENTHS + fmul_spec(t2, a0)) as i64;
    let a2 = (TWO_NINTHS + fmul_spec(t2, a1)) as i64;
    let a3 = (TWO_SEVENTHS + fmul_spec(t2, a2)) as i64;
    let a4 = (TWO_FIFTHS + fmul_spec(t2, a3)) as i64;
    let a5 = (TWO_THIRDS + fmul_spec(t2, a4)) as i64;
    (2 * ONE + fmul_spec(t2, a5)) as i64
}

/// Exact value of `ln_fx`: ln(x) = k*ln2 + 2*atanh((m-1)/(m+1)).
pub open spec fn ln_spec(x: i64) -> i64 {
    let ex = msb_of(x) - 32;
    let m = ln_mantissa(x);
    let t = fdiv_spec((m - ONE) as i64, (m + ONE) as i64);
    let t2 = fmul_spec(t, t);
    (fmul_spec(t, ln_series(t2)) + ex * LN2) as i64
}

/// The mantissa lies in [ONE, 2*ONE).
proof fn lemma_ln_mantissa(x: i64)
    requires
        x > 0,
    ensures
        ONE <= ln_mantissa(x) < 2 * ONE,
        msb_of(x) < 32 ==> ONE <= x as int * pow2((32 - msb_of(x)) as nat) < 2 * ONE,
{
    lemma_msb(x);
    let msb = msb_of(x);
    let ex = msb - 32;
    lemma2_to64();
    if ex >= 0 {
        lemma_pow2_pos(ex as nat);
        lemma_pow2_adds(ex as nat, 32);
        lemma_pow2_adds(ex as nat, 33);
        vstd::arithmetic::div_mod::lemma_div_is_ordered(pow2(msb as nat) as int, x as int, pow2(ex as nat) as int);
        vstd::arithmetic::div_mod::lemma_div_by_multiple(pow32(), pow2(ex as nat) as int);
        vstd::arithmetic::div_mod::lemma_div_by_multiple(2 * pow32(), pow2(ex as nat) as int);
        vstd::arithmetic::div_mod::lemma_div_is_ordered(x as int, pow2((msb + 1) as nat) as int - 1, pow2(ex as nat) as int);
        vstd::arithmetic::power2::lemma_pow2_unfold(33);
        lemma_pow2_adds(33, ex as nat);
        assert(pow2((msb + 1) as nat) == pow2(33) * pow2(ex as nat));
        vstd::arithmetic::div_mod::lemma_div_multiples_vanish_fancy(2 * pow32() - 1, pow2(ex as nat) as int - 1, pow2(ex as nat) as int);
        assert(pow2(33) * pow2(ex as nat) - 1 == pow2(ex as nat) * (2 * pow32() - 1) + (pow2(ex as nat) - 1)) by (nonlinear_arith)
            requires
                pow2(33) == 2 * pow32(),
        ;
    } else {
        let k = (-ex) as nat;
        lemma_pow2_pos(k);
        lemma_pow2_adds(msb as nat, k);
        lemma_pow2_adds((msb + 1) as nat, k);
        vstd::arithmetic::power2::lemma_pow2_unfold(33);
        assert(pow2(msb as nat) * pow2(k) <= x * pow2(k)) by (nonlinear_arith)
            requires
                pow2(msb as nat) <= x,
                pow2(k) > 0,
        ;
        assert(x * pow2(k) < pow2((msb + 1) as nat) * pow2(k)) by (nonlinear_arith)
            requires
                x < pow2((msb + 1) as nat),
                pow2(k) > 0,
        ;
    }
}

/// Horner steps stay within [0, 14*ONE] for t2 in [0, ONE].
proof fn lemma_ln_series_bounds(t2: i64)
    requires
        0 <= t2 <= ONE,
    ensures
        0 <= ln_series(t2) <= 14 * ONE,
{
    let a0 = TWO_THIRTEENTHS;
    lemma_fmul_shrinks(a0, t2);
    lemma_fmul_shrinks_right(t2, a0);
    let a1 = (TWO_ELEVENTHS + fmul_spec(t2, a0)) as i64;
    lemma_fmul_shrinks_right(t2, a1);
    let a2 = (TWO_NINTHS + fmul_spec(t2, a1)) as i64;
    lemma_fmul_shrinks_right(t2, a2);
    let a3 = (TWO_SEVENTHS + fmul_spec(t2, a2)) as i64;
    lemma_fmul_shrinks_right(t2, a3);
    let a4 = (TWO_FIFTHS + fmul_spec(t2, a3)) as i64;
    lemma_fmul_shrinks_right(t2, a4);
    let a5 = (TWO_THIRDS + fmul_spec(t2, a4)) as i64;
    lemma_fmul_shrinks_right(t2, a5);
}

proof fn lemma_fmul_shrinks_right(t2: i64, a: i64)
    requires
        0 <= t2 <= ONE,
        0 <= a,
    ensures
        0 <= fmul_spec(t2, a) <= a,
{
    assert(t2 as int * a as int == a as int * t2 as int) by (nonlinear_arith);
    lemma_fmul_shrinks(a, t2);
}

/// `fmul` is monotone on non-negative operands.
proof fn lemma_fmul_mono(a: i64, b: i64, ua: i64, ub: i64)
    requires
        0 <= a <= ua,
        0 <= b <= ub,
        ua as int * ub as int <= 0x1_0000_0000 * 0x7fff_ffff_ffff_ffff,
    ensures
        0 <= fmul_spec(a, b) <= fmul_spec(ua, ub),
{
    assert(0 <= a as int * b as int <= ua as int * ub as int) by (nonlinear_arith)
        requires
            0 <= a <= ua,
            0 <= b <= ub,
    ;
    vstd::arithmetic::div_mod::lemma_div_is_ordered(a as int * b as int, ua as int * ub as int, pow32());
    vstd::arithmetic::div_mod::lemma_div_pos_is_pos(a as int * b as int, pow32());
    vstd::arithmetic::div_mod::lemma_div_is_ordered(ua as int * ub as int, 0x1_0000_0000int * 0x7fff_ffff_ffff_ffffint, pow32());
}

/// The log of a probability is a non-positive number no lower than
/// -32 * ln 2: for x in [1, ONE] (the smallest positive Q32.32 value up to
/// one), ln lies in [-32 * LN2, 0], and ln(ONE) is exactly 0.
pub proof fn lemma_ln_range(x: i64)
    requires
        1 <= x <= ONE,
    ensures
        -32 * LN2 <= ln_spec(x) <= 0,
        x == ONE ==> ln_spec(x) == 0,
{
    lemma_msb(x);
    lemma_ln_mantissa(x);
    lemma2_to64();
    let msb = msb_of(x);
    let ex = msb - 32;
    if msb >= 33 {
        lemma_pow2_strictly_increases(32, msb as nat);
    }
    assert(msb <= 32);
    assert(msb == 32 ==> x == ONE);
    let m = ln_mantissa(x);
    let num = (m - ONE) as i64;
    let den = (m + ONE) as i64;
    let t = fdiv_spec(num, den);
    let q = num as int * pow32();
    assert(0 <= q);
    vstd::arithmetic::div_mod::lemma_div_pos_is_pos(q, den as int);
    vstd::arithmetic::div_mod::lemma_fundamental_div_mod(q, den as int);
    let tq = q / (den as int);
    vstd::arithmetic::div_mod::lemma_mod_pos_bound(q, den as int);
    let dd: int = den as int;
    assert(tq * dd <= q) by (nonlinear_arith)
        requires
            q == dd * (q / dd) + q % dd,
            tq == q / dd,
            0 <= q % dd,
    ;
    assert(tq <= 1431655765) by (nonlinear_arith)
        requires
            tq * den <= q,
            q == (m - 0x1_0000_0000) * 0x1_0000_0000,
            den == m + 0x1_0000_0000,
            0x1_0000_0000 <= m < 0x2_0000_0000,
            0 <= tq,
    {
        if tq >= 1431655766 {
            assert(1431655766 * den <= tq * den) by (nonlinear_arith)
                requires
                    tq >= 1431655766,
                    den > 0,
            ;
        }
    }
    assert(t as int == tq);
    assert(0 <= t <= 1431655765);
    let t2 = fmul_spec(t, t);
    lemma_fmul_mono(t, t, 1431655765, 1431655765);
    assert(fmul_spec(1431655765, 1431655765) == 477218588);
    let a0 = TWO_THIRTEENTHS;
    lemma_fmul_mono(t2, a0, 477218588, a0);
    assert(fmul_spec(477218588, 660764199) == 73418244);
    let a1 = (TWO_ELEVENTHS + fmul_spec(t2, a0)) as i64;
    lemma_fmul_mono(t2, a1, 477218588, 854321388);
    assert(fmul_spec(477218588, 854321388) == 94924598);
    let a2 = (TWO_NINTHS + fmul_spec(t2, a1)) as i64;
    lemma_fmul_mono(t2, a2, 477218588, 1049361774);
    assert(fmul_spec(477218588, 1049361774) == 116595752);
    let a3 = (TWO_SEVENTHS + fmul_spec(t2, a2)) as i64;
    lemma_fmul_mono(t2, a3, 477218588, 1343729265);
    assert(fmul_spec(477218588, 1343729265) == 149303251);
    let a4 = (TWO_FIFTHS + fmul_spec(t2, a3)) as i64;
    lemma_fmul_mono(t2, a4, 477218588, 1867290169);
    assert(fmul_spec(477218588, 1867290169) == 207476685);
    let a5 = (TWO_THIRDS + fmul_spec(t2, a4)) as i64;
    lemma_fmul_mono(t2, a5, 477218588, 3070788215);
    assert(fmul_spec(477218588, 3070788215) == 341198690);
    let sr = ln_series(t2);
    assert(2 * ONE <= sr <= 8931133282);
    lemma_fmul_mono(t, sr, 1431655765, 8931133282);
    assert(fmul_spec(1431655765, 8931133282) == 2977044426);
    let main = fmul_spec(t, sr);
    assert(0 <= main <= 2977044426);
    if x == ONE {
        assert(msb == 32) by {
            if msb < 32 {
                lemma_pow2_strictly_increases((msb + 1) as nat, 32);
            }
        }
        assert(m == ONE);
        assert(t == 0);
        assert(t as int * sr as int == 0) by (nonlinear_arith)
            requires
                t == 0,
        ;
        assert(main == 0);
    } else {
        assert(ex <= -1);
    }
}

/// ln(x) for x > 0, via ln(x) = k*ln2 + 2*atanh((m-1)/(m+1)) with m in [1, 2).
pub fn ln_fx(x: Fx) -> (r: Fx)
    requires
        x > 0,
    ensures
        r == ln_spec(x),
{
    proof {
        lemma_msb(x);
        lemma_ln_mantissa(x);
        lemma2_to64();
    }
    let lz = (x as u64).leading_zeros();
    let msb: i64 = 63 - lz as i64; // bit index of the leading 1
    let exp: i64 = msb - FRAC as i64;
    let m = if exp >= 0 {
        proof {
            lemma_shr_i64(x, exp as u64);
        }
        x >> (exp as u64)
    } else {
        proof {
            let k = (-exp) as nat;
            lemma_pow2_pos(k);
            assert(x as int * pow2(k) < 2 * ONE);
            lemma_shl_i64(x, (-exp) as u64);
        }
        x << ((-exp) as u64)
    }; // [ONE, 2*ONE)
    assert(m == ln_mantissa(x));

    let t = fdiv(m - ONE, m + ONE); // [0, 1/3)
    proof {
        let num = (m - ONE) as int * pow32();
        let den = (m + ONE) as int;
        assert(0 <= num < den * pow32()) by (nonlinear_arith)
            requires
                num == (m - ONE) as int * pow32(),
                den == (m + ONE) as int,
                ONE <= m < 2 * ONE,
                pow32() == ONE,
        ;
        vstd::arithmetic::div_mod::lemma_div_pos_is_pos(num, den);
        vstd::arithmetic::div_mod::lemma_div_is_ordered(num, den * pow32() - 1, den);
        vstd::arithmetic::div_mod::lemma_fundamental_div_mod_converse(den * pow32() - 1, den, pow32() - 1, den - 1);
        assert(den * pow32() - 1 == (pow32() - 1) * den + (den - 1)) by (nonlinear_arith);
        assert(0 <= t <= ONE);
    }
    let t2 = fmul(t, t);
    proof {
        lemma_fmul_shrinks(t, t);
        lemma_ln_series_bounds(t2);
        lemma_fmul_shrinks(TWO_THIRTEENTHS, t2);
        lemma_fmul_shrinks_right(t2, TWO_THIRTEENTHS);
    }
    let mut acc = TWO_THIRTEENTHS;
    proof { lemma_fmul_shrinks_right(t2, acc); }
    acc = TWO_ELEVENTHS + fmul(t2, acc);
    proof { lemma_fmul_shrinks_right(t2, acc); }
    acc = TWO_NINTHS + fmul(t2, acc);
    proof { lemma_fmul_shrinks_right(t2, acc); }
    acc = TWO_SEVENTHS + fmul(t2, acc);
    proof { lemma_fmul_shrinks_right(t2, acc); }
    acc = TWO_FIFTHS + fmul(t2, acc);
    proof { lemma_fmul_shrinks_right(t2, acc); }
    acc = TWO_THIRDS + fmul(t2, acc);
    proof { lemma_fmul_shrinks_right(t2, acc); }
    acc = 2 * ONE + fmul(t2, acc);
    assert(acc == ln_series(t2));
    proof {
        lemma_fmul_shrinks_right(t, acc);
    }
    fmul(t, acc) + exp * LN2
}

} // verus!



