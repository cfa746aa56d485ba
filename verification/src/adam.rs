//! Adam with bias correction, in fixed point, chunkable over parameter
//! ranges.
//!
//! microGPT: lr 0.01, beta1 0.85, beta2 0.99, eps 1e-8, linear LR decay.
//! Perpetual twist: the decay stops at a floor instead of reaching zero.

use vstd::prelude::*;
use crate::fixed::{Fx, ONE, LOSS_SCALE_SHIFT, wadd, wsub, tdiv, fmul, fdiv, fmul_spec, fdiv_spec, pow32, div_trunc, lemma_fmul_shrinks};
use crate::math::{sqrt_fx_coarse, sqrt_coarse_spec, lemma_sqrt_coarse_range};
use crate::model::{Weights, Moments, Scratch, ScratchV, N_PARAMS};
use crate::backprop::{train_fwd_bwd, train_fwd_bwd_spec, valid_doc};

verus! {

pub const BETA1: Fx = 3_650_722_202; // 0.85
pub const BETA2: Fx = 4_252_017_623; // 0.99
pub const ONE_MINUS_BETA1: Fx = 644_245_094;
pub const ONE_MINUS_BETA2: Fx = 42_949_673;
/// Gradients arrive from the backward pass loss-scaled by 2^12. The moments
/// track them in that domain; m_hat/sqrt(v_hat) is invariant under linear
/// gradient scaling, so only eps is expressed in the scaled domain:
/// 1e-8 * 2^12 in Q32.32.
pub const EPS: Fx = 176_128;
pub const LR: Fx = 42_949_673; // 0.01
pub const LR_FLOOR: Fx = 4_294_967; // 0.001
pub const WARMDOWN_STEPS: u64 = 1000;

/// Bias-correction state: the learning rate of the step and beta1^(t+1),
/// beta2^(t+1) at the time of the update.
#[derive(Clone, Copy)]
pub struct AdamParams {
    pub lr_t: Fx,
    pub pow_beta1: Fx,
    pub pow_beta2: Fx,
}

/// Learning rate at `step`: linear decay over the warmdown, floored.
pub open spec fn lr_spec(step: u64) -> Fx {
    let done: int = if step < WARMDOWN_STEPS { step as int } else { WARMDOWN_STEPS as int };
    let lr = (LR * (WARMDOWN_STEPS - done)) / (WARMDOWN_STEPS as int);
    (if lr >= LR_FLOOR { lr } else { LR_FLOOR as int }) as i64
}

/// microGPT's linear decay, floored so training can run forever.
pub fn lr_at_step(step: u64) -> (lr: Fx)
    ensures
        lr == lr_spec(step),
        LR_FLOOR <= lr <= LR,
        step >= WARMDOWN_STEPS ==> lr == LR_FLOOR,
{
    let done = if step < WARMDOWN_STEPS { step } else { WARMDOWN_STEPS };
    proof {
        assert(LR * (WARMDOWN_STEPS - done) <= LR * 1000) by (nonlinear_arith)
            requires
                done <= 1000,
        ;
        assert(0 <= LR * (WARMDOWN_STEPS - done)) by (nonlinear_arith)
            requires
                done <= 1000,
        ;
    }
    let lr = div_trunc(LR * ((WARMDOWN_STEPS - done) as i64), WARMDOWN_STEPS as i64);
    proof {
        vstd::arithmetic::div_mod::lemma_div_is_ordered(LR * (WARMDOWN_STEPS - done), LR * 1000, 1000);
        vstd::arithmetic::div_mod::lemma_div_pos_is_pos(LR * (WARMDOWN_STEPS - done), 1000);
    }
    if lr >= LR_FLOOR { lr } else { LR_FLOOR }
}

/// The learning rate never increases from one step to the next.
pub proof fn lemma_lr_monotone(a: u64, b: u64)
    requires
        a <= b,
    ensures
        lr_spec(b) <= lr_spec(a),
{
    let da: int = if a < WARMDOWN_STEPS { a as int } else { 1000 };
    let db: int = if b < WARMDOWN_STEPS { b as int } else { 1000 };
    assert(LR * (1000 - db) <= LR * (1000 - da)) by (nonlinear_arith)
        requires
            da <= db,
    ;
    vstd::arithmetic::div_mod::lemma_div_is_ordered(LR * (1000 - db), LR * (1000 - da), 1000);
}

/// Exact value of `fdiv_fast`: the same as `fdiv`.
pub proof fn lemma_fdiv_fast_small(a: i64, b: i64)
    requires
        -0x4000_0000 < a < 0x4000_0000,
        b != 0,
    ensures
        -0x4000_0000_0000_0000 < tdiv(a as int * pow32(), b as int) < 0x4000_0000_0000_0000,
{
    let num = a as int * pow32();
    assert(-0x4000_0000_0000_0000 < num < 0x4000_0000_0000_0000) by (nonlinear_arith)
        requires
            num == a as int * pow32(),
            -0x4000_0000 < a < 0x4000_0000,
            pow32() == 0x1_0000_0000,
    ;
    let d: int = if b > 0 { b as int } else { -(b as int) };
    if num > 0 {
        vstd::arithmetic::div_mod::lemma_div_is_ordered_by_denominator(num, 1, d);
    } else if num < 0 {
        vstd::arithmetic::div_mod::lemma_div_is_ordered_by_denominator(-num, 1, d);
    }
}

/// a/b in Q32.32 with a native i64 fast path for the common small-|a| case;
/// both paths compute `fdiv(a, b)` exactly.
#[inline(always)]
pub fn fdiv_fast(a: Fx, b: Fx) -> (r: Fx)
    requires
        b != 0,
    ensures
        r == fdiv_spec(a, b),
{
    if -0x4000_0000 < a && a < 0x4000_0000 {
        proof {
            lemma_fdiv_fast_small(a, b);
            assert((a << 32u64) == a as int * 0x1_0000_0000) by (bit_vector)
                requires
                    -0x4000_0000 < a < 0x4000_0000,
            ;
        }
        div_trunc(a << 32, b)
    } else {
        fdiv(a, b)
    }
}

/// New first moment from the old one and the gradient.
pub open spec fn adam_m(m: Fx, g: Fx) -> Fx {
    wadd(fmul_spec(BETA1, m), fmul_spec(ONE_MINUS_BETA1, g))
}

/// New second moment from the old one and the gradient.
pub open spec fn adam_v(v: Fx, g: Fx) -> Fx {
    wadd(fmul_spec(BETA2, v), fmul_spec(ONE_MINUS_BETA2, fmul_spec(g, g)))
}

/// Bias-correction reciprocal 1 / (1 - beta^t).
pub open spec fn inv_bc(pow_beta: Fx) -> Fx {
    fdiv_spec(ONE, wsub(ONE, pow_beta))
}

/// New parameter value from the updated moments.
pub open spec fn adam_w(w: Fx, m: Fx, v: Fx, p: AdamParams) -> Fx {
    let m_hat = fmul_spec(m, inv_bc(p.pow_beta1));
    let v_hat = fmul_spec(v, inv_bc(p.pow_beta2));
    let denom = (sqrt_coarse_spec(v_hat) + EPS) as i64;
    wsub(w, fmul_spec(p.lr_t, fdiv_spec(m_hat, denom)))
}

/// Moments after updating the parameters in [start, end).
pub open spec fn adam_m_range(m: Seq<Fx>, g: Seq<Fx>, start: int, end: int) -> Seq<Fx> {
    Seq::new(m.len(), |i: int| if start <= i < end { adam_m(m[i], g[i]) } else { m[i] })
}

/// Second moments after updating the parameters in [start, end).
pub open spec fn adam_v_range(v: Seq<Fx>, g: Seq<Fx>, start: int, end: int) -> Seq<Fx> {
    Seq::new(v.len(), |i: int| if start <= i < end { adam_v(v[i], g[i]) } else { v[i] })
}

/// Parameters after updating [start, end).
pub open spec fn adam_w_range(w: Seq<Fx>, m: Seq<Fx>, v: Seq<Fx>, g: Seq<Fx>, start: int, end: int, p: AdamParams) -> Seq<Fx> {
    Seq::new(
        w.len(),
        |i: int| if start <= i < end { adam_w(w[i], adam_m(m[i], g[i]), adam_v(v[i], g[i]), p) } else { w[i] },
    )
}

/// Bias-correction terms for which Adam's divisions are defined: neither
/// power is ONE, so `ONE - pow` (two's-complement) is not zero.
pub open spec fn adam_params_ok(p: AdamParams) -> bool {
    &&& p.pow_beta1 != ONE
    &&& p.pow_beta2 != ONE
}

/// Bias-correction reciprocal of a first-moment power in [0, BETA1]: at
/// least ONE and below 2^35.
proof fn lemma_inv_bc1_range(pow: Fx)
    requires
        0 <= pow <= BETA1,
    ensures
        ONE <= inv_bc(pow) < 0x8_0000_0000,
{
    let d = wsub(ONE, pow);
    assert(d as int == ONE - pow);
    let big: int = 0x1_0000_0000_0000_0000;
    assert(ONE as int * pow32() == big);
    vstd::arithmetic::div_mod::lemma_div_is_ordered_by_denominator(big, d as int, ONE as int);
    vstd::arithmetic::div_mod::lemma_div_is_ordered_by_denominator(big, 644_245_094, d as int);
    vstd::arithmetic::div_mod::lemma_fundamental_div_mod_converse(big, 644_245_094, 28_633_115_324, 286_331_160);
    assert(big / 644_245_094 == 28_633_115_324);
    assert(big / (ONE as int) == ONE);
}

/// Adam descends: the update moves a parameter against its first moment.
/// With the bias powers of any step (the first-moment power in [0, BETA1]),
/// a learning rate of at least the floor and at most ONE, and values that
/// cannot wrap, a positive first moment never raises the parameter and one
/// of at least 2^-5 strictly lowers it; a negative one never lowers it and
/// one of at most -2^-5 strictly raises it; a zero moment leaves it alone.
/// This holds whatever the second moment.
pub proof fn lemma_adam_descends(w: Fx, m: Fx, v: Fx, p: AdamParams)
    requires
        LR_FLOOR <= p.lr_t <= ONE,
        0 <= p.pow_beta1 <= BETA1,
        p.pow_beta2 != ONE,
        -0x4000_0000_0000_0000 <= w <= 0x4000_0000_0000_0000,
        -0x1000_0000_0000 <= m <= 0x1000_0000_0000,
    ensures
        m > 0 ==> adam_w(w, m, v, p) <= w,
        m >= 0x800_0000 ==> adam_w(w, m, v, p) < w,
        m < 0 ==> adam_w(w, m, v, p) >= w,
        m <= -0x800_0000 ==> adam_w(w, m, v, p) > w,
        m == 0 ==> adam_w(w, m, v, p) == w,
{
    let inv1 = inv_bc(p.pow_beta1);
    lemma_inv_bc1_range(p.pow_beta1);
    let mi: int = m as int;
    let ii: int = inv1 as int;
    let prod = mi * ii;
    let m_hat = fmul_spec(m, inv1);
    // m_hat has m's sign, at least m's magnitude, and at most 8 times it.
    if mi > 0 {
        assert(mi * pow32() <= prod <= mi * 0x8_0000_0000) by (nonlinear_arith)
            requires
                mi > 0,
                pow32() <= ii < 0x8_0000_0000,
                prod == mi * ii,
        ;
        vstd::arithmetic::div_mod::lemma_div_is_ordered(mi * pow32(), prod, pow32());
        vstd::arithmetic::div_mod::lemma_div_is_ordered(prod, mi * 0x8_0000_0000, pow32());
        vstd::arithmetic::div_mod::lemma_div_multiples_vanish(mi, pow32());
        assert(mi * 0x8_0000_0000 == (8 * mi) * pow32());
        vstd::arithmetic::div_mod::lemma_div_multiples_vanish(8 * mi, pow32());
        assert(mi <= prod / pow32() <= 8 * mi);
        assert(m_hat as int == prod / pow32());
    } else if mi < 0 {
        assert(mi * 0x8_0000_0000 <= prod <= mi * pow32()) by (nonlinear_arith)
            requires
                mi < 0,
                pow32() <= ii < 0x8_0000_0000,
                prod == mi * ii,
        ;
        vstd::arithmetic::div_mod::lemma_div_is_ordered(mi * 0x8_0000_0000, prod, pow32());
        vstd::arithmetic::div_mod::lemma_div_is_ordered(prod, mi * pow32(), pow32());
        vstd::arithmetic::div_mod::lemma_div_multiples_vanish(mi, pow32());
        assert(mi * 0x8_0000_0000 == (8 * mi) * pow32());
        vstd::arithmetic::div_mod::lemma_div_multiples_vanish(8 * mi, pow32());
        assert(8 * mi <= prod / pow32() <= mi);
        assert(m_hat as int == prod / pow32());
    } else {
        assert(prod == 0);
    }
    let v_hat = fmul_spec(v, inv_bc(p.pow_beta2));
    lemma_sqrt_coarse_range(v_hat);
    let denom = (sqrt_coarse_spec(v_hat) + EPS) as i64;
    let di: int = denom as int;
    assert(EPS <= di < 0x1_0000_0000_0000 + EPS);
    let mh: int = m_hat as int;
    let num = mh * pow32();
    let q = fdiv_spec(m_hat, denom);
    // q = trunc(m_hat * 2^32 / denom) keeps m_hat's sign and fits.
    let bound: int = 0x8000_0000_0000int * 0x1_0000_0000;
    if mh > 0 {
        assert(0 < num <= bound) by (nonlinear_arith)
            requires
                0 < mh <= 0x8000_0000_0000,
                num == mh * 0x1_0000_0000,
                bound == 0x8000_0000_0000 * 0x1_0000_0000,
        ;
        vstd::arithmetic::div_mod::lemma_div_is_ordered(num, bound, di);
        vstd::arithmetic::div_mod::lemma_div_is_ordered_by_denominator(bound, EPS as int, di);
        assert(bound / (EPS as int) < 0x7fff_ffff_ffff_ffff);
        vstd::arithmetic::div_mod::lemma_div_pos_is_pos(num, di);
        assert(q as int == num / di);
        if mh >= 0x800_0000 {
            assert(num >= 0x800_0000 * 0x1_0000_0000) by (nonlinear_arith)
                requires
                    mh >= 0x800_0000,
                    num == mh * 0x1_0000_0000,
            ;
            vstd::arithmetic::div_mod::lemma_div_is_ordered(0x800_0000int * 0x1_0000_0000, num, di);
            vstd::arithmetic::div_mod::lemma_div_is_ordered_by_denominator(
                0x800_0000int * 0x1_0000_0000,
                di,
                0x1_0000_0000_0000int + EPS as int,
            );
            assert((0x800_0000int * 0x1_0000_0000) / (0x1_0000_0000_0000 + EPS as int) >= 1024);
        }
    } else if mh < 0 {
        assert(-bound <= num < 0) by (nonlinear_arith)
            requires
                -0x8000_0000_0000 <= mh < 0,
                num == mh * 0x1_0000_0000,
                bound == 0x8000_0000_0000 * 0x1_0000_0000,
        ;
        assert(-bound - 0x1_0000_0000 <= num);
        let pn = -num;
        vstd::arithmetic::div_mod::lemma_div_is_ordered(pn, bound + 0x1_0000_0000, di);
        vstd::arithmetic::div_mod::lemma_div_is_ordered_by_denominator(bound + 0x1_0000_0000, EPS as int, di);
        assert((bound + 0x1_0000_0000) / (EPS as int) < 0x7fff_ffff_ffff_ffff);
        vstd::arithmetic::div_mod::lemma_div_pos_is_pos(pn, di);
        assert(q as int == -(pn / di));
        if mh <= -0x800_0000 {
            vstd::arithmetic::div_mod::lemma_div_is_ordered(0x800_0000int * 0x1_0000_0000, pn, di);
            vstd::arithmetic::div_mod::lemma_div_is_ordered_by_denominator(
                0x800_0000int * 0x1_0000_0000,
                di,
                0x1_0000_0000_0000int + EPS as int,
            );
            assert((0x800_0000int * 0x1_0000_0000) / (0x1_0000_0000_0000 + EPS as int) >= 1024);
        }
    } else {
        assert(num == 0);
        assert(q == 0);
    }
    let qi: int = q as int;
    let lr: int = p.lr_t as int;
    let u = fmul_spec(p.lr_t, q);
    let lq = lr * qi;
    // u = floor(lr * q / 2^32) has q's sign, and is nonzero once |q| >= 2^10.
    if qi > 0 {
        assert(0 < lq <= qi * pow32()) by (nonlinear_arith)
            requires
                0 < lr <= 0x1_0000_0000,
                qi > 0,
                lq == lr * qi,
                pow32() == 0x1_0000_0000,
        ;
        vstd::arithmetic::div_mod::lemma_div_is_ordered(lq, qi * pow32(), pow32());
        vstd::arithmetic::div_mod::lemma_div_multiples_vanish(qi, pow32());
        vstd::arithmetic::div_mod::lemma_div_pos_is_pos(lq, pow32());
        if qi >= 1024 {
            assert(lq >= 4_294_967 * 1024) by (nonlinear_arith)
                requires
                    lr >= 4_294_967,
                    qi >= 1024,
                    lq == lr * qi,
            ;
            vstd::arithmetic::div_mod::lemma_div_is_ordered(pow32(), lq, pow32());
        }
    } else if qi < 0 {
        assert(qi * pow32() <= lq < 0) by (nonlinear_arith)
            requires
                0 < lr <= 0x1_0000_0000,
                qi < 0,
                lq == lr * qi,
                pow32() == 0x1_0000_0000,
        ;
        vstd::arithmetic::div_mod::lemma_div_is_ordered(qi * pow32(), lq, pow32());
        vstd::arithmetic::div_mod::lemma_div_multiples_vanish(qi, pow32());
        vstd::arithmetic::div_mod::lemma_div_is_ordered(lq, -1, pow32());
        if qi <= -1024 {
            assert(lq <= -(4_294_967 * 1024)) by (nonlinear_arith)
                requires
                    lr >= 4_294_967,
                    qi <= -1024,
                    lq == lr * qi,
            ;
            vstd::arithmetic::div_mod::lemma_div_is_ordered(lq, -pow32(), pow32());
        }
    } else {
        assert(lq == 0) by (nonlinear_arith)
            requires
                qi == 0,
                lq == lr * qi,
        ;
    }
}

/// On the first step (zero moments, bias powers BETA1 and BETA2 after the
/// advance), a gradient of at least ONE/4 strictly lowers the parameter and
/// one of at most -ONE/4 strictly raises it: the update follows -gradient.
pub proof fn lemma_adam_first_step_follows_negative_gradient(w: Fx, g: Fx, lr_t: Fx)
    requires
        LR_FLOOR <= lr_t <= ONE,
        -0x4000_0000_0000_0000 <= w <= 0x4000_0000_0000_0000,
        -0x1000_0000_0000 <= g <= 0x1000_0000_0000,
    ensures
        ({
            let p = AdamParams { lr_t: lr_t, pow_beta1: BETA1, pow_beta2: BETA2 };
            let w1 = adam_w(w, adam_m(0, g), adam_v(0, g), p);
            &&& g >= ONE / 4 ==> w1 < w
            &&& g <= -(ONE / 4) ==> w1 > w
            &&& g == 0 ==> w1 == w
        }),
{
    let p = AdamParams { lr_t: lr_t, pow_beta1: BETA1, pow_beta2: BETA2 };
    let gi: int = g as int;
    let pr = (ONE_MINUS_BETA1 as int) * gi;
    assert(fmul_spec(BETA1, 0) == 0);
    let m1 = fmul_spec(ONE_MINUS_BETA1, g);
    if gi >= ONE / 4 {
        assert(pr >= 644_245_094 * 0x4000_0000) by (nonlinear_arith)
            requires
                gi >= 0x4000_0000,
                pr == 644_245_094 * gi,
        ;
        vstd::arithmetic::div_mod::lemma_div_is_ordered(644_245_094int * 0x4000_0000, pr, pow32());
    }
    if gi <= -(ONE / 4) {
        assert(pr <= 644_245_094 * -0x4000_0000) by (nonlinear_arith)
            requires
                gi <= -0x4000_0000,
                pr == 644_245_094 * gi,
        ;
        vstd::arithmetic::div_mod::lemma_div_is_ordered(pr, 644_245_094int * -0x4000_0000, pow32());
    }
    assert(-0x1000_0000_0000 * 0x1_0000_0000 <= pr <= 0x1000_0000_0000 * 0x1_0000_0000) by (nonlinear_arith)
        requires
            -0x1000_0000_0000 <= gi <= 0x1000_0000_0000,
            pr == 644_245_094 * gi,
    ;
    vstd::arithmetic::div_mod::lemma_div_is_ordered(-0x1000_0000_0000int * 0x1_0000_0000, pr, pow32());
    vstd::arithmetic::div_mod::lemma_div_is_ordered(pr, 0x1000_0000_0000int * 0x1_0000_0000, pow32());
    if gi == 0 {
        assert(pr == 0);
    }
    assert(adam_m(0, g) == m1);
    lemma_adam_descends(w, m1, adam_v(0, g), p);
}

/// A two-term Q32.32 weighted average with weights summing to ONE is the
/// exact average rounded down by less than two units.
proof fn lemma_weighted_average(a: Fx, b: Fx, x: Fx, y: Fx)
    requires
        0 <= a,
        0 <= b,
        a + b == ONE,
        -0x4000_0000_0000_0000 <= x <= 0x4000_0000_0000_0000,
        -0x4000_0000_0000_0000 <= y <= 0x4000_0000_0000_0000,
    ensures
        ({
            let r = wadd(fmul_spec(a, x), fmul_spec(b, y));
            let exact = a as int * x as int + b as int * y as int;
            &&& exact - 2 * pow32() < pow32() * r <= exact
        }),
{
    let ax = a as int * x as int;
    let by = b as int * y as int;
    assert(-0x4000_0000_0000_0000 * pow32() <= ax <= 0x4000_0000_0000_0000 * pow32()) by (nonlinear_arith)
        requires
            0 <= a <= 0x1_0000_0000,
            -0x4000_0000_0000_0000 <= x <= 0x4000_0000_0000_0000,
            ax == a as int * x as int,
            pow32() == 0x1_0000_0000,
    ;
    assert(-0x4000_0000_0000_0000 * pow32() <= by <= 0x4000_0000_0000_0000 * pow32()) by (nonlinear_arith)
        requires
            0 <= b <= 0x1_0000_0000,
            -0x4000_0000_0000_0000 <= y <= 0x4000_0000_0000_0000,
            by == b as int * y as int,
            pow32() == 0x1_0000_0000,
    ;
    assert(-0x4000_0000_0000_0000 * pow32() <= ax + by <= 0x4000_0000_0000_0000 * pow32()) by (nonlinear_arith)
        requires
            0 <= a,
            0 <= b,
            a + b == 0x1_0000_0000,
            -0x4000_0000_0000_0000 <= x <= 0x4000_0000_0000_0000,
            -0x4000_0000_0000_0000 <= y <= 0x4000_0000_0000_0000,
            ax == a * x,
            by == b * y,
            pow32() == 0x1_0000_0000,
    ;
    vstd::arithmetic::div_mod::lemma_fundamental_div_mod(ax, pow32());
    vstd::arithmetic::div_mod::lemma_mod_bound(ax, pow32());
    vstd::arithmetic::div_mod::lemma_fundamental_div_mod(by, pow32());
    vstd::arithmetic::div_mod::lemma_mod_bound(by, pow32());
    vstd::arithmetic::div_mod::lemma_div_is_ordered(-0x4000_0000_0000_0000 * pow32(), ax, pow32());
    vstd::arithmetic::div_mod::lemma_div_is_ordered(ax, 0x4000_0000_0000_0000 * pow32(), pow32());
    vstd::arithmetic::div_mod::lemma_div_is_ordered(-0x4000_0000_0000_0000 * pow32(), by, pow32());
    vstd::arithmetic::div_mod::lemma_div_is_ordered(by, 0x4000_0000_0000_0000 * pow32(), pow32());
    vstd::arithmetic::div_mod::lemma_div_multiples_vanish(-0x4000_0000_0000_0000, pow32());
    vstd::arithmetic::div_mod::lemma_div_multiples_vanish(0x4000_0000_0000_0000, pow32());
    let qa = ax / pow32();
    let qb = by / pow32();
    assert(pow32() * (qa + qb) == pow32() * qa + pow32() * qb) by (nonlinear_arith);
    assert(qa + qb <= (ax + by) / pow32()) by {
        vstd::arithmetic::div_mod::lemma_fundamental_div_mod(ax + by, pow32());
        vstd::arithmetic::div_mod::lemma_mod_bound(ax + by, pow32());
        assert(pow32() * (qa + qb) <= ax + by);
        vstd::arithmetic::div_mod::lemma_div_is_ordered(pow32() * (qa + qb), ax + by, pow32());
        vstd::arithmetic::div_mod::lemma_div_multiples_vanish(qa + qb, pow32());
    }
    vstd::arithmetic::div_mod::lemma_div_is_ordered(ax + by, 0x4000_0000_0000_0000 * pow32(), pow32());
}

/// Adam's moments are exponential moving averages: the first moment moves
/// from its old value toward the gradient by the fraction 1 - BETA1 (0.15),
/// the second toward the squared gradient by 1 - BETA2 (0.01), each up to
/// rounding down by less than two units, for values below 2^62.
pub proof fn lemma_moments_move_toward_gradient(m: Fx, v: Fx, g: Fx)
    requires
        -0x4000_0000_0000_0000 <= m <= 0x4000_0000_0000_0000,
        -0x4000_0000_0000_0000 <= v <= 0x4000_0000_0000_0000,
        -0x4000_0000_0000_0000 <= g <= 0x4000_0000_0000_0000,
        -0x4000_0000_0000_0000 <= fmul_spec(g, g) <= 0x4000_0000_0000_0000,
    ensures
        ONE_MINUS_BETA1 * (g - m) - 2 * ONE < ONE * (adam_m(m, g) - m) <= ONE_MINUS_BETA1 * (g - m),
        ({
            let s = fmul_spec(g, g);
            ONE_MINUS_BETA2 * (s - v) - 2 * ONE < ONE * (adam_v(v, g) - v) <= ONE_MINUS_BETA2 * (s - v)
        }),
{
    lemma_weighted_average(BETA1, ONE_MINUS_BETA1, m, g);
    lemma_weighted_average(BETA2, ONE_MINUS_BETA2, v, fmul_spec(g, g));
    let s = fmul_spec(g, g);
    assert(BETA1 * m + ONE_MINUS_BETA1 * g - ONE * m == ONE_MINUS_BETA1 * (g - m)) by (nonlinear_arith);
    assert(BETA2 * v + ONE_MINUS_BETA2 * s - ONE * v == ONE_MINUS_BETA2 * (s - v)) by (nonlinear_arith);
}

/// floor(a * b / 2^32) as exact integer bounds, for products that fit.
proof fn lemma_fmul_floor(a: Fx, b: Fx)
    requires
        0 <= a as int * b as int <= 0x7fff_ffff * 0x1_0000_0000 * 0x1_0000_0000,
    ensures
        pow32() * fmul_spec(a, b) <= (a as int * b as int) < pow32() * fmul_spec(a, b) + pow32(),
        0 <= fmul_spec(a, b),
{
    let x = a as int * b as int;
    vstd::arithmetic::div_mod::lemma_fundamental_div_mod(x, pow32());
    vstd::arithmetic::div_mod::lemma_mod_bound(x, pow32());
    vstd::arithmetic::div_mod::lemma_div_pos_is_pos(x, pow32());
    vstd::arithmetic::div_mod::lemma_div_is_ordered(x, 0x7fff_ffffint * 0x1_0000_0000 * 0x1_0000_0000, pow32());
    vstd::arithmetic::div_mod::lemma_div_multiples_vanish(0x7fff_ffffint * 0x1_0000_0000, pow32());
}

/// Adam's first step has the size of the learning rate: from zero moments,
/// a gradient g with ONE <= g <= 2^40 (large against EPS) lowers the
/// parameter by less than lr_t and by more than lr_t * (1 - 2^-10) - 1;
/// the bias corrections undo the moments' start at zero, and the
/// normalization by the root of the second moment removes g's scale.
pub proof fn lemma_adam_first_step_size(w: Fx, g: Fx, lr_t: Fx)
    requires
        0 < lr_t <= ONE,
        -0x4000_0000_0000_0000 <= w <= 0x4000_0000_0000_0000,
        ONE <= g <= 0x100_0000_0000,
    ensures
        ({
            let p = AdamParams { lr_t: lr_t, pow_beta1: BETA1, pow_beta2: BETA2 };
            let d = w - adam_w(w, adam_m(0, g), adam_v(0, g), p);
            &&& d < lr_t
            &&& 1023 * lr_t - 1024 < 1024 * d
        }),
{
    let pp: int = pow32();
    let gi: int = g as int;
    assert(pp == 0x1_0000_0000);
    // First moment and its bias correction.
    assert(fmul_spec(BETA1, 0) == 0);
    assert(fmul_spec(BETA2, 0) == 0);
    assert(0 <= 644_245_094 * gi <= 0x7fff_ffff * 0x1_0000_0000 * 0x1_0000_0000) by (nonlinear_arith)
        requires
            0 <= gi <= 0x100_0000_0000,
    ;
    lemma_fmul_floor(ONE_MINUS_BETA1, g);
    let m1 = fmul_spec(ONE_MINUS_BETA1, g);
    let mi: int = m1 as int;
    assert(adam_m(0, g) == m1);
    assert(pp * mi <= 644_245_094 * gi < pp * mi + pp);
    let i1: int = 28_633_115_324;
    let big: int = 0x1_0000_0000_0000_0000;
    vstd::arithmetic::div_mod::lemma_fundamental_div_mod_converse(big, 644_245_094, i1, 286_331_160);
    assert(wsub(ONE, BETA1) == 644_245_094);
    assert(inv_bc(BETA1) as int == i1);
    assert(644_245_094 * gi <= pp * gi) by (nonlinear_arith)
        requires
            0 <= gi,
            pp == 0x1_0000_0000,
    ;
    assert(mi <= gi) by (nonlinear_arith)
        requires
            pp * mi <= pp * gi,
            pp == 0x1_0000_0000,
    ;
    assert(0 <= mi);
    assert(0 <= mi * i1 <= 0x7fff_ffff * 0x1_0000_0000 * 0x1_0000_0000) by (nonlinear_arith)
        requires
            0 <= mi <= 0x100_0000_0000,
            i1 == 28_633_115_324,
    ;
    lemma_fmul_floor(m1, inv_bc(BETA1));
    let mh: int = fmul_spec(m1, inv_bc(BETA1)) as int;
    assert(pp * mh <= mi * i1 < pp * mh + pp);
    assert(mh < gi) by (nonlinear_arith)
        requires
            pp * mh <= mi * i1,
            pp * mi <= 644_245_094 * gi,
            i1 == 28_633_115_324,
            pp == 0x1_0000_0000,
            gi >= 0x1_0000_0000,
    ;
    assert(mh > gi - 25) by (nonlinear_arith)
        requires
            mi * i1 < pp * mh + pp,
            644_245_094 * gi < pp * mi + pp,
            i1 == 28_633_115_324,
            pp == 0x1_0000_0000,
            0x1_0000_0000 <= gi <= 0x100_0000_0000,
            0 <= mi,
    ;
    // Second moment and its bias correction.
    assert(0 <= gi * gi <= 0x7fff_ffff * 0x1_0000_0000 * 0x1_0000_0000) by (nonlinear_arith)
        requires
            0 <= gi <= 0x100_0000_0000,
    ;
    lemma_fmul_floor(g, g);
    let gg = fmul_spec(g, g);
    let ggi: int = gg as int;
    assert(pp * ggi <= gi * gi < pp * ggi + pp);
    assert(0x1_0000_0000 <= ggi <= 0x1_0000_0000_0000) by (nonlinear_arith)
        requires
            pp * ggi <= gi * gi < pp * ggi + pp,
            pp == 0x1_0000_0000,
            0x1_0000_0000 <= gi <= 0x100_0000_0000,
    ;
    assert(0 <= 42_949_673 * ggi <= 0x7fff_ffff * 0x1_0000_0000 * 0x1_0000_0000) by (nonlinear_arith)
        requires
            0 <= ggi <= 0x1_0000_0000_0000,
    ;
    lemma_fmul_floor(ONE_MINUS_BETA2, gg);
    let v1 = fmul_spec(ONE_MINUS_BETA2, gg);
    let vi: int = v1 as int;
    assert(adam_v(0, g) == v1);
    assert(pp * vi <= 42_949_673 * ggi < pp * vi + pp);
    let i2: int = 429_496_729_200;
    vstd::arithmetic::div_mod::lemma_fundamental_div_mod_converse(big, 42_949_673, i2, 16);
    assert(wsub(ONE, BETA2) == 42_949_673);
    assert(inv_bc(BETA2) as int == i2);
    assert(42_949_673 * ggi <= pp * ggi) by (nonlinear_arith)
        requires
            0 <= ggi,
            pp == 0x1_0000_0000,
    ;
    assert(vi <= ggi) by (nonlinear_arith)
        requires
            pp * vi <= pp * ggi,
            pp == 0x1_0000_0000,
    ;
    assert(0 <= vi);
    assert(0 <= vi * i2 <= 0x7fff_ffff * 0x1_0000_0000 * 0x1_0000_0000) by (nonlinear_arith)
        requires
            0 <= vi <= 0x1_0000_0000_0000,
            i2 == 429_496_729_200,
    ;
    lemma_fmul_floor(v1, inv_bc(BETA2));
    let vh = fmul_spec(v1, inv_bc(BETA2));
    let vhi: int = vh as int;
    assert(pp * vhi <= vi * i2 < pp * vhi + pp);
    assert(vhi <= ggi) by (nonlinear_arith)
        requires
            pp * vhi <= vi * i2,
            pp * vi <= 42_949_673 * ggi,
            i2 == 429_496_729_200,
            pp == 0x1_0000_0000,
            0 <= ggi,
    ;
    assert(vhi > ggi - 102) by (nonlinear_arith)
        requires
            vi * i2 < pp * vhi + pp,
            42_949_673 * ggi < pp * vi + pp,
            i2 == 429_496_729_200,
            pp == 0x1_0000_0000,
            0 <= ggi <= 0x1_0000_0000_0000,
    ;
    // The coarse root of the corrected second moment is within 2^16 + 103 of g.
    crate::math::lemma_isqrt_exists(vhi as nat);
    let sq: int = crate::math::isqrt_spec(vhi);
    assert(0 <= sq && sq * sq <= vhi && vhi < (sq + 1) * (sq + 1));
    assert(sq < 0x1_0000_0000) by (nonlinear_arith)
        requires
            0 <= sq,
            sq * sq <= vhi,
            vhi <= 0x1_0000_0000_0000,
    ;
    let c: int = sq * 0x1_0000;
    assert(sqrt_coarse_spec(vh) as int == c);
    assert(c <= gi) by (nonlinear_arith)
        requires
            c == sq * 0x1_0000,
            0 <= sq,
            sq * sq <= vhi,
            vhi <= ggi,
            pp * ggi <= gi * gi,
            pp == 0x1_0000_0000,
            0 <= gi,
    ;
    assert(c > gi - 65_639) by (nonlinear_arith)
        requires
            c == sq * 0x1_0000,
            vhi < (sq + 1) * (sq + 1),
            vhi > ggi - 102,
            gi * gi < pp * ggi + pp,
            pp == 0x1_0000_0000,
            0x1_0000_0000 <= gi,
            0 <= sq,
    {
        if c <= gi - 65_639 {
            assert((c + 0x1_0000) * (c + 0x1_0000) <= (gi - 103) * (gi - 103)) by (nonlinear_arith)
                requires
                    0 <= c + 0x1_0000 <= gi - 103,
            ;
            assert((c + 0x1_0000) * (c + 0x1_0000) == pp * ((sq + 1) * (sq + 1))) by (nonlinear_arith)
                requires
                    c == sq * 0x1_0000,
                    pp == 0x1_0000_0000,
            ;
        }
    }
    let denom = (sqrt_coarse_spec(vh) + EPS) as i64;
    let di: int = denom as int;
    assert(gi + 110_489 < di <= gi + 176_128);
    // The normalized step m_hat / denom lies in [ONE - 2^22, ONE).
    let num = mh * pp;
    assert(0 < num);
    vstd::arithmetic::div_mod::lemma_fundamental_div_mod(num, di);
    vstd::arithmetic::div_mod::lemma_mod_bound(num, di);
    let qq = num / di;
    assert(di * qq <= num < di * qq + di);
    assert(0 <= qq < pp) by (nonlinear_arith)
        requires
            di * qq <= num,
            num < di * qq + di,
            num == mh * pp,
            mh < gi < di,
            0 < mh,
            pp > 0,
    ;
    assert(qq >= pp - 0x40_0000) by (nonlinear_arith)
        requires
            num < di * qq + di,
            num == mh * pp,
            mh > gi - 25,
            di <= gi + 176_128,
            0x1_0000_0000 <= gi,
            pp == 0x1_0000_0000,
            0 < di,
    {
        if qq + 1 <= pp - 0x40_0000 {
            assert(di * (qq + 1) <= di * (pp - 0x40_0000)) by (nonlinear_arith)
                requires
                    qq + 1 <= pp - 0x40_0000,
                    0 < di,
            ;
        }
    }
    let q = fdiv_spec(fmul_spec(m1, inv_bc(BETA1)), denom);
    assert(q as int == qq);
    // The step is lr_t times that.
    let lr: int = lr_t as int;
    assert(0 <= lr * qq <= 0x7fff_ffff * 0x1_0000_0000 * 0x1_0000_0000) by (nonlinear_arith)
        requires
            0 < lr <= 0x1_0000_0000,
            0 <= qq < 0x1_0000_0000,
    ;
    lemma_fmul_floor(lr_t, q);
    let u: int = fmul_spec(lr_t, q) as int;
    assert(pp * u <= lr * qq < pp * u + pp);
    assert(u < lr) by (nonlinear_arith)
        requires
            pp * u <= lr * qq,
            qq < pp,
            0 < lr,
            pp > 0,
    ;
    assert(1023 * lr - 1024 < 1024 * u) by (nonlinear_arith)
        requires
            lr * qq < pp * u + pp,
            qq >= pp - 0x40_0000,
            pp == 0x1_0000_0000,
            0 < lr,
    ;
    assert(adam_w(w, m1, v1, AdamParams { lr_t: lr_t, pow_beta1: BETA1, pow_beta2: BETA2 }) == wsub(w, u as i64));
}

/// Two's-complement subtraction is zero only for equal operands.
proof fn lemma_wsub_nonzero(a: i64, b: i64)
    requires
        a != b,
    ensures
        wsub(a, b) != 0,
{
    assert(a as int - b as int != 0);
}

/// Apply Adam to params in `[start, end)`. Every parameter of the range is
/// updated (moments decay even at zero gradient), exactly like
/// microGPT's optimizer.
pub fn adam_range(w: &mut Weights, mom: &mut Moments, grads: &[Fx], start: usize, end: usize, p: AdamParams)
    requires
        start <= end <= N_PARAMS,
        old(w).params@.len() == N_PARAMS,
        old(mom).m@.len() == N_PARAMS,
        old(mom).v@.len() == N_PARAMS,
        grads@.len() == N_PARAMS,
        adam_params_ok(p),
    ensures
        final(w).params@ == adam_w_range(old(w).params@, old(mom).m@, old(mom).v@, grads@, start as int, end as int, p),
        final(mom).m@ == adam_m_range(old(mom).m@, grads@, start as int, end as int),
        final(mom).v@ == adam_v_range(old(mom).v@, grads@, start as int, end as int),
{
    // Bias corrections are constant over the loop: two divisions total,
    // multiplied per-param instead of divided.
    let bc1 = ONE.wrapping_sub(p.pow_beta1);
    let bc2 = ONE.wrapping_sub(p.pow_beta2);
    proof {
        lemma_wsub_nonzero(ONE, p.pow_beta1);
        lemma_wsub_nonzero(ONE, p.pow_beta2);
    }
    let inv_bc1 = fdiv(ONE, bc1);
    let inv_bc2 = fdiv(ONE, bc2);
    let ghost w0 = w.params@;
    let ghost m0 = mom.m@;
    let ghost v0 = mom.v@;
    let mut i = start;
    while i < end
        invariant
            start <= i <= end <= N_PARAMS,
            w.params@.len() == N_PARAMS,
            mom.m@.len() == N_PARAMS,
            mom.v@.len() == N_PARAMS,
            w0.len() == N_PARAMS,
            m0.len() == N_PARAMS,
            v0.len() == N_PARAMS,
            grads@.len() == N_PARAMS,
            inv_bc1 == inv_bc(p.pow_beta1),
            inv_bc2 == inv_bc(p.pow_beta2),
            w.params@ == adam_w_range(w0, m0, v0, grads@, start as int, i as int, p),
            mom.m@ == adam_m_range(m0, grads@, start as int, i as int),
            mom.v@ == adam_v_range(v0, grads@, start as int, i as int),
        decreases end - i,
    {
        let g = grads[i];
        let m = fmul(BETA1, mom.m[i]).wrapping_add(fmul(ONE_MINUS_BETA1, g));
        mom.m.set(i, m);
        let v = fmul(BETA2, mom.v[i]).wrapping_add(fmul(ONE_MINUS_BETA2, fmul(g, g)));
        mom.v.set(i, v);
        let m_hat = fmul(m, inv_bc1);
        let v_hat = fmul(v, inv_bc2);
        proof {
            lemma_sqrt_coarse_range(v_hat);
        }
        let denom = sqrt_fx_coarse(v_hat) + EPS;
        let upd = fmul(p.lr_t, fdiv_fast(m_hat, denom));
        let wi = w.params[i].wrapping_sub(upd);
        w.params.set(i, wi);
        i = i + 1;
        assert(w.params@ =~= adam_w_range(w0, m0, v0, grads@, start as int, i as int, p));
        assert(mom.m@ =~= adam_m_range(m0, grads@, start as int, i as int));
        assert(mom.v@ =~= adam_v_range(v0, grads@, start as int, i as int));
    }
}

/// Chunking law: Adam over [a, b) followed by Adam over [b, c) with the same
/// gradients and bias-correction terms equals Adam over [a, c) in one pass.
pub proof fn lemma_adam_chunks(
    w: Seq<Fx>,
    m: Seq<Fx>,
    v: Seq<Fx>,
    g: Seq<Fx>,
    a: int,
    b: int,
    c: int,
    p: AdamParams,
)
    requires
        a <= b <= c,
        w.len() == m.len(),
        w.len() == v.len(),
    ensures
        adam_w_range(
            adam_w_range(w, m, v, g, a, b, p),
            adam_m_range(m, g, a, b),
            adam_v_range(v, g, a, b),
            g,
            b,
            c,
            p,
        ) == adam_w_range(w, m, v, g, a, c, p),
        adam_m_range(adam_m_range(m, g, a, b), g, b, c) == adam_m_range(m, g, a, c),
        adam_v_range(adam_v_range(v, g, a, b), g, b, c) == adam_v_range(v, g, a, c),
{
    assert(adam_w_range(
        adam_w_range(w, m, v, g, a, b, p),
        adam_m_range(m, g, a, b),
        adam_v_range(v, g, a, b),
        g,
        b,
        c,
        p,
    ) =~= adam_w_range(w, m, v, g, a, c, p));
    assert(adam_m_range(adam_m_range(m, g, a, b), g, b, c) =~= adam_m_range(m, g, a, c));
    assert(adam_v_range(adam_v_range(v, g, a, b), g, b, c) =~= adam_v_range(v, g, a, c));
}

/// Bias-correction power after one more step.
pub open spec fn next_pow(pow: Fx, beta: Fx) -> Fx {
    fmul_spec(pow, beta)
}

/// A power of beta in [0, ONE) stays there after another step.
pub proof fn lemma_next_pow_range(pow: Fx, beta: Fx)
    requires
        0 <= pow <= ONE,
        0 <= beta < ONE,
    ensures
        0 <= next_pow(pow, beta) < ONE,
{
    assert(0 <= (pow as int) * (beta as int) < pow32() * pow32()) by (nonlinear_arith)
        requires
            0 <= pow <= 0x1_0000_0000,
            0 <= beta < 0x1_0000_0000,
            pow32() == 0x1_0000_0000,
    ;
    vstd::arithmetic::div_mod::lemma_div_pos_is_pos(pow as int * beta as int, pow32());
    vstd::arithmetic::div_mod::lemma_div_is_ordered(pow as int * beta as int, pow32() * pow32() - 1, pow32());
    assert(pow32() * pow32() - 1 == (pow32() - 1) * pow32() + (pow32() - 1));
    vstd::arithmetic::div_mod::lemma_fundamental_div_mod_converse(pow32() * pow32() - 1, pow32(), pow32() - 1, pow32() - 1);
}

/// One full fused training step: forward + backward + Adam over all params.
///
/// `pow_beta1`/`pow_beta2` hold beta^step on entry (ONE at step 0); they are
/// advanced to beta^(step+1) before the update, matching microGPT's
/// `1 - beta**(step+1)` bias correction. Returns the loss.
pub fn train_doc(
    w: &mut Weights,
    mom: &mut Moments,
    s: &mut Scratch,
    tokens: &[u8],
    step: u64,
    pow_beta1: &mut Fx,
    pow_beta2: &mut Fx,
) -> (loss: Fx)
    requires
        old(s)@.wf(),
        old(w).params@.len() == N_PARAMS,
        old(mom).m@.len() == N_PARAMS,
        old(mom).v@.len() == N_PARAMS,
        valid_doc(tokens@),
        next_pow(*old(pow_beta1), BETA1) != ONE,
        next_pow(*old(pow_beta2), BETA2) != ONE,
    ensures
        ({
            let fb = train_fwd_bwd_spec(old(s)@, old(w).params@, tokens@);
            let p = AdamParams {
                lr_t: lr_spec(step),
                pow_beta1: next_pow(*old(pow_beta1), BETA1),
                pow_beta2: next_pow(*old(pow_beta2), BETA2),
            };
            &&& final(s)@ == fb.0
            &&& loss == fb.1
            &&& *final(pow_beta1) == p.pow_beta1
            &&& *final(pow_beta2) == p.pow_beta2
            &&& final(w).params@ == adam_w_range(old(w).params@, old(mom).m@, old(mom).v@, fb.0.grads, 0, N_PARAMS as int, p)
            &&& final(mom).m@ == adam_m_range(old(mom).m@, fb.0.grads, 0, N_PARAMS as int)
            &&& final(mom).v@ == adam_v_range(old(mom).v@, fb.0.grads, 0, N_PARAMS as int)
        }),
        final(s)@.wf(),
        0 <= *old(pow_beta1) <= ONE ==> 0 <= *final(pow_beta1) < ONE,
        0 <= *old(pow_beta2) <= ONE ==> 0 <= *final(pow_beta2) < ONE,
{
    let loss = train_fwd_bwd(w, s, tokens);
    proof {
        if 0 <= *pow_beta1 <= ONE {
            lemma_next_pow_range(*pow_beta1, BETA1);
        }
        if 0 <= *pow_beta2 <= ONE {
            lemma_next_pow_range(*pow_beta2, BETA2);
        }
    }
    *pow_beta1 = fmul(*pow_beta1, BETA1);
    *pow_beta2 = fmul(*pow_beta2, BETA2);
    let p = AdamParams { lr_t: lr_at_step(step), pow_beta1: *pow_beta1, pow_beta2: *pow_beta2 };
    adam_range(w, mom, s.grads.params.as_slice(), 0, N_PARAMS, p);
    loss
}

} // verus!
