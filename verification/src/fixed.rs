//! Q32.32 signed fixed-point scalar.
//!
//! One uniform format everywhere: weights, activations, gradients and
//! optimizer moments. Full products go through an exact i128 intermediate and
//! are truncated toward negative infinity (arithmetic shift); every other
//! accumulation is two's-complement (wrapping) i64 arithmetic, so each
//! function below is a total, deterministic function of its inputs.

use vstd::prelude::*;

verus! {

/// Q32.32 fixed-point value stored in an `i64`.
pub type Fx = i64;

/// Number of fractional bits.
pub const FRAC: u32 = 32;

/// 1.0 in Q32.32.
pub const ONE: Fx = 0x1_0000_0000;

/// Gradient loss-scaling exponent: backward emits gradients scaled by 2^12 so
/// they survive the Q16.16 truncation of the fast kernels.
pub const LOSS_SCALE_SHIFT: u32 = 12;

/// 2^32 as a mathematical integer.
pub open spec fn pow32() -> int {
    0x1_0000_0000
}

/// Wrapping i64 addition.
pub open spec fn wadd(a: i64, b: i64) -> i64 {
    vstd::wrapping::i64_specs::wrapping_add(a, b)
}

/// Wrapping i64 subtraction.
pub open spec fn wsub(a: i64, b: i64) -> i64 {
    vstd::wrapping::i64_specs::wrapping_sub(a, b)
}

/// Wrapping i64 multiplication.
pub open spec fn wmul(a: i64, b: i64) -> i64 {
    vstd::wrapping::i64_specs::wrapping_mul(a, b)
}

/// Arithmetic right shift of an i64 by `k` bits: floor division by 2^k.
pub open spec fn shr(a: i64, k: nat) -> i64 {
    (a as int / vstd::arithmetic::power2::pow2(k) as int) as i64
}

/// Integer division truncating toward zero (Rust's `/` on signed integers).
pub open spec fn tdiv(a: int, b: int) -> int {
    if a == 0 {
        0
    } else if a > 0 && b > 0 {
        a / b
    } else if a < 0 && b < 0 {
        (-a) / (-b)
    } else if a < 0 {
        -((-a) / b)
    } else {
        -(a / (-b))
    }
}

/// Exact value of `fmul`: floor(a * b / 2^32), truncated to i64.
pub open spec fn fmul_spec(a: i64, b: i64) -> i64 {
    ((a as int * b as int) / pow32()) as i64
}

/// Exact value of `fdiv`: trunc((a * 2^32) / b), truncated to i64.
pub open spec fn fdiv_spec(a: i64, b: i64) -> i64 {
    tdiv(a as int * pow32(), b as int) as i64
}

/// Exact value of `fmul16`: both operands floored to Q16.16, then a wrapping
/// native product.
pub open spec fn fmul16_spec(a: i64, b: i64) -> i64 {
    wmul(shr(a, 16), shr(b, 16))
}

/// Exact value of `from_int`: i * 2^32, truncated to i64.
pub open spec fn from_int_spec(i: i64) -> i64 {
    (i as int * pow32()) as i64
}

proof fn lemma_i64_product_fits(a: i64, b: i64)
    ensures
        -0x4000_0000_0000_0000_0000_0000_0000_0000 <= a as int * b as int
            <= 0x4000_0000_0000_0000_0000_0000_0000_0000,
{
    assert(a as int * b as int <= 0x4000_0000_0000_0000_0000_0000_0000_0000) by (nonlinear_arith)
        requires
            -0x8000_0000_0000_0000 <= a <= 0x7fff_ffff_ffff_ffff,
            -0x8000_0000_0000_0000 <= b <= 0x7fff_ffff_ffff_ffff,
    ;
    assert(a as int * b as int >= -0x4000_0000_0000_0000_0000_0000_0000_0000) by (nonlinear_arith)
        requires
            -0x8000_0000_0000_0000 <= a <= 0x7fff_ffff_ffff_ffff,
            -0x8000_0000_0000_0000 <= b <= 0x7fff_ffff_ffff_ffff,
    ;
}

/// `a << k` on a non-negative i64 is multiplication by 2^k when it fits.
pub proof fn lemma_shl_i64(a: i64, k: u64)
    requires
        0 <= a,
        k < 63,
        a as int * vstd::arithmetic::power2::pow2(k as nat) <= i64::MAX,
    ensures
        (a << k) == a as int * vstd::arithmetic::power2::pow2(k as nat),
{
    let au = a as u64;
    vstd::arithmetic::power2::lemma_pow2_pos(k as nat);
    assert(au as int * vstd::arithmetic::power2::pow2(k as nat) <= u64::MAX);
    vstd::bits::lemma_u64_shl_is_mul(au, k);
    assert((a << k) == ((au << k) as i64)) by (bit_vector)
        requires
            au == a as u64,
            0 <= a,
            k < 64,
    ;
}

/// `a >> k` on i64 is floor division by 2^k.
pub proof fn lemma_shr_i64(a: i64, k: u64)
    requires
        k < 64,
        a >= 0 || k == 1 || k == 6 || k == 16 || k == 32,
    ensures
        (a >> k) == shr(a, k as nat),
{
    vstd::arithmetic::power2::lemma_pow2_pos(k as nat);
    vstd::arithmetic::power2::lemma2_to64();
    vstd::arithmetic::power2::lemma2_to64_rest();
    if k == 16 {
        assert(a >> 16u64 == a / 0x1_0000) by (bit_vector);
    } else if k == 32 {
        assert(a >> 32u64 == a / 0x1_0000_0000) by (bit_vector);
    } else if k == 1 {
        assert(a >> 1u64 == a / 2) by (bit_vector);
    } else if k == 6 {
        assert(a >> 6u64 == a / 64) by (bit_vector);
    } else {
        lemma_shr_i64_general(a, k);
    }
}

proof fn lemma_shr_i64_general(a: i64, k: u64)
    requires
        k < 64,
        a >= 0,
    ensures
        (a >> k) == shr(a, k as nat),
    decreases k,
{
    vstd::arithmetic::power2::lemma_pow2_pos(k as nat);
    if k == 0 {
        assert(a >> 0u64 == a) by (bit_vector);
        vstd::arithmetic::power2::lemma2_to64();
    } else {
        let k1 = (k - 1) as u64;
        lemma_shr_i64_general(a, k1);
        let b = a >> k1;
        assert((a >> k) == (b >> 1u64)) by (bit_vector)
            requires
                b == a >> k1,
                k1 + 1 == k,
                k < 64,
        ;
        assert(b >= 0) by (bit_vector)
            requires
                b == a >> k1,
                a >= 0,
        ;
        assert(b >> 1u64 == b / 2) by (bit_vector);
        vstd::arithmetic::power2::lemma_pow2_unfold(k as nat);
        vstd::arithmetic::power2::lemma_pow2_pos(k1 as nat);
        vstd::arithmetic::div_mod::lemma_div_denominator(
            a as int,
            vstd::arithmetic::power2::pow2(k1 as nat) as int,
            2,
        );
        vstd::arithmetic::mul::lemma_mul_is_commutative(
            2,
            vstd::arithmetic::power2::pow2(k1 as nat) as int,
        );
    }
}

/// A fixed-point product with a factor in [0, ONE] stays within [0, a].
pub proof fn lemma_fmul_shrinks(a: i64, b: i64)
    requires
        0 <= a,
        0 <= b <= ONE,
    ensures
        0 <= fmul_spec(a, b) <= a,
{
    assert(0 <= a as int * b as int <= a as int * pow32()) by (nonlinear_arith)
        requires
            0 <= a,
            0 <= b <= 0x1_0000_0000,
    ;
    vstd::arithmetic::div_mod::lemma_div_is_ordered(a as int * b as int, a as int * pow32(), pow32());
    vstd::arithmetic::div_mod::lemma_div_by_multiple(a as int, pow32());
    vstd::arithmetic::div_mod::lemma_div_pos_is_pos(a as int * b as int, pow32());
}

/// Truncating signed division, `a / b` with Rust semantics.
pub fn div_trunc(a: i64, b: i64) -> (r: i64)
    requires
        b != 0,
        !(a == i64::MIN && b == -1),
    ensures
        r as int == tdiv(a as int, b as int),
{
    match a.checked_div(b) {
        Some(q) => q,
        None => {
            proof {
                assert(false) by (nonlinear_arith)
                    requires
                        b != 0,
                        !(a == i64::MIN && b == -1),
                        a.checked_div(b) is None,
                ;
            }
            0
        },
    }
}

/// Truncating signed division on i128, `a / b` with Rust semantics.
pub fn div_trunc_wide(a: i128, b: i128) -> (r: i128)
    requires
        b != 0,
        !(a == i128::MIN && b == -1),
    ensures
        r as int == tdiv(a as int, b as int),
{
    match a.checked_div(b) {
        Some(q) => q,
        None => {
            proof {
                assert(false) by (nonlinear_arith)
                    requires
                        b != 0,
                        !(a == i128::MIN && b == -1),
                        a.checked_div(b) is None,
                ;
            }
            0
        },
    }
}

/// Fixed-point multiply: (a * b) >> 32 with an exact i128 intermediate.
#[inline(always)]
pub fn fmul(a: Fx, b: Fx) -> (r: Fx)
    ensures
        r == fmul_spec(a, b),
{
    proof {
        lemma_i64_product_fits(a, b);
    }
    let p: i128 = (a as i128) * (b as i128);
    proof {
        assert(p >> 32u64 == p / 0x1_0000_0000) by (bit_vector);
    }
    (p >> 32) as i64
}

/// Fixed-point divide: (a << 32) / b with an exact i128 intermediate,
/// truncating toward zero. `b` must be non-zero.
#[inline(always)]
pub fn fdiv(a: Fx, b: Fx) -> (r: Fx)
    requires
        b != 0,
    ensures
        r == fdiv_spec(a, b),
{
    let wide: i128 = a as i128;
    proof {
        assert(wide << 32u64 == wide * 0x1_0000_0000) by (bit_vector)
            requires
                -0x8000_0000_0000_0000 <= wide <= 0x7fff_ffff_ffff_ffff,
        ;
    }
    let num: i128 = wide << 32;
    (div_trunc_wide(num, b as i128)) as i64
}

/// Integer to fixed-point.
#[inline(always)]
pub fn from_int(i: i64) -> (r: Fx)
    ensures
        r == from_int_spec(i),
{
    proof {
        assert((i << 32u64) == ((i as int) * 0x1_0000_0000) as i64) by (bit_vector);
    }
    i << 32
}

/// Fast Q32.32 multiply: truncate both operands to Q16.16 and multiply
/// natively (two's-complement). Exact while operands stay below 2^47.
#[inline(always)]
pub fn fmul16(a: Fx, b: Fx) -> (r: Fx)
    ensures
        r == fmul16_spec(a, b),
        fmul16_in_range(a, b) ==> r as int == shr(a, 16) as int * shr(b, 16) as int,
        fmul16_in_range(a, b) ==> r == fmul_spec(
            (shr(a, 16) as int * 0x1_0000) as i64,
            (shr(b, 16) as int * 0x1_0000) as i64,
        ),
{
    proof {
        lemma_shr_i64(a, 16);
        lemma_shr_i64(b, 16);
        if fmul16_in_range(a, b) {
            lemma_fmul16_exact(a, b);
        }
    }
    (a >> 16).wrapping_mul(b >> 16)
}

/// Both operands of `fmul16` have Q16.16 magnitude below 2^31 (values below
/// about 32K).
pub open spec fn fmul16_in_range(a: i64, b: i64) -> bool {
    &&& -0x8000_0000 < shr(a, 16) < 0x8000_0000
    &&& -0x8000_0000 < shr(b, 16) < 0x8000_0000
}

/// On operands below 2^31 in Q16.16, `fmul16` does not wrap: it is the
/// exact product of the operands floored to Q16.16, which is also the exact
/// Q32.32 product of those floored operands.
pub proof fn lemma_fmul16_exact(a: i64, b: i64)
    requires
        fmul16_in_range(a, b),
    ensures
        fmul16_spec(a, b) as int == shr(a, 16) as int * shr(b, 16) as int,
        fmul16_spec(a, b) == fmul_spec((shr(a, 16) as int * 0x1_0000) as i64, (shr(b, 16) as int * 0x1_0000) as i64),
{
    let x: int = shr(a, 16) as int;
    let y: int = shr(b, 16) as int;
    assert(-0x4000_0000_0000_0000 < x * y < 0x4000_0000_0000_0000) by (nonlinear_arith)
        requires
            -0x8000_0000 < x < 0x8000_0000,
            -0x8000_0000 < y < 0x8000_0000,
    ;
    assert(vstd::wrapping::i64_specs::wrapping_mul(shr(a, 16), shr(b, 16)) == x * y) by {
        let p: int = x * y;
        if p >= 0 {
            vstd::arithmetic::div_mod::lemma_small_mod(p as nat, 0x1_0000_0000_0000_0000nat);
        } else {
            vstd::arithmetic::div_mod::lemma_small_mod((p + 0x1_0000_0000_0000_0000) as nat, 0x1_0000_0000_0000_0000nat);
        }
    }
    let xa: int = x * 0x1_0000;
    let yb: int = y * 0x1_0000;
    assert(xa * yb == (x * y) * pow32()) by (nonlinear_arith)
        requires
            xa == x * 0x1_0000,
            yb == y * 0x1_0000,
            pow32() == 0x1_0000_0000,
    ;
    vstd::arithmetic::div_mod::lemma_fundamental_div_mod_converse(xa * yb, pow32(), x * y, 0);
}

} // verus!
