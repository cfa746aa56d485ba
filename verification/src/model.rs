//! Model shape, state layouts, the fixed-point kernels, the forward pass and
//! sampling.
//!
//! Parameters live in one flat vector (`Weights::params`) whose order is
//! wte, wpe, wq, wk, wv, wo, w1, w2, lm_head, each row-major `[out][in]`;
//! Adam and weight init address it by flat index, the kernels by matrix
//! offset.

use vstd::prelude::*;
use crate::fixed::{Fx, ONE, pow32, wadd, wsub, wmul, shr, tdiv, fmul, fdiv, fmul16, fmul_spec, fdiv_spec, fmul16_spec, div_trunc, lemma_shr_i64};
use crate::math::{exp_fx, exp_spec, rsqrt_fx, rsqrt_spec};
use crate::rng::{Rng, advance, gauss_of, xorshift, unit_of};
use vstd::string::StringSliceAdditionalSpecFns;
use vstd::arithmetic::power2::pow2;

verus! {

pub const VOCAB: usize = 27; // a-z + BOS
pub const BOS: u8 = 26;
pub const N_EMBD: usize = 16;
pub const BLOCK: usize = 16;
pub const N_HEAD: usize = 4;
pub const HEAD_DIM: usize = 4;
pub const MLP_DIM: usize = 64;
pub const N_PARAMS: usize = 4192;

/// Offsets of each matrix in the flat parameter vector.
pub const WTE: usize = 0;
pub const WPE: usize = 432;
pub const WQ: usize = 688;
pub const WK: usize = 944;
pub const WV: usize = 1200;
pub const WO: usize = 1456;
pub const W1: usize = 1712;
pub const W2: usize = 2736;
pub const LM: usize = 3760;

/// RMSNorm epsilon: 1e-5 in Q32.32.
pub const RMS_EPS: Fx = 42_950;
/// 1/sqrt(head_dim) = 0.5 in Q32.32.
pub const INV_SQRT_HD: Fx = 0x8000_0000;
/// Weight init std: 0.08 in Q32.32.
pub const INIT_STD: Fx = 343_597_384;

// -- Spec vocabulary -------------------------------------------------------

/// Wrapping sum of `fmul16(a[i], b[i])` over the first `n` entries.
pub open spec fn dot_prefix(a: Seq<i64>, b: Seq<i64>, n: int) -> i64
    decreases n,
{
    if n <= 0 {
        0
    } else {
        wadd(dot_prefix(a, b, n - 1), fmul16_spec(a[n - 1], b[n - 1]))
    }
}

/// Row `r` of the `cols`-wide matrix stored at `off` in `w`.
pub open spec fn mat_row(w: Seq<i64>, off: int, cols: int, r: int) -> Seq<i64> {
    w.subrange(off + r * cols, off + r * cols + cols)
}

/// y = W x for the `rows x cols` matrix at `off`.
pub open spec fn linear_spec(w: Seq<i64>, off: int, rows: int, cols: int, x: Seq<i64>) -> Seq<i64> {
    Seq::new(rows as nat, |o: int| dot_prefix(mat_row(w, off, cols, o), x, cols))
}

/// Column `i` of W^T dy, accumulated over the first `k` rows.
pub open spec fn col_sum(w: Seq<i64>, off: int, cols: int, i: int, dy: Seq<i64>, k: int) -> i64
    decreases k,
{
    if k <= 0 {
        0
    } else {
        wadd(
            col_sum(w, off, cols, i, dy, k - 1),
            wmul(shr(w[off + (k - 1) * cols + i], 16), shr(dy[k - 1], 16)),
        )
    }
}

/// dx = W^T dy for the `rows x cols` matrix at `off`.
pub open spec fn linear_t_spec(w: Seq<i64>, off: int, rows: int, cols: int, dy: Seq<i64>) -> Seq<i64> {
    Seq::new(cols as nat, |i: int| col_sum(w, off, cols, i, dy, rows))
}

/// The transpose of the `rows x cols` matrix at `off`, as a row-major
/// `cols x rows` matrix.
pub open spec fn transpose(w: Seq<i64>, off: int, rows: int, cols: int) -> Seq<i64> {
    Seq::new((cols * rows) as nat, |p: int| w[off + (p % rows) * cols + p / rows])
}

proof fn lemma_col_sum_dot(w: Seq<i64>, off: int, rows: int, cols: int, i: int, dy: Seq<i64>, k: int)
    requires
        0 <= i < cols,
        0 <= k <= rows,
    ensures
        col_sum(w, off, cols, i, dy, k) == dot_prefix(mat_row(transpose(w, off, rows, cols), 0, rows, i), dy, k),
    decreases k,
{
    let row = mat_row(transpose(w, off, rows, cols), 0, rows, i);
    if k > 0 {
        lemma_col_sum_dot(w, off, rows, cols, i, dy, k - 1);
        assert(i * rows + (k - 1) < cols * rows) by (nonlinear_arith)
            requires
                0 <= i < cols,
                0 < k <= rows,
        ;
        assert(0 <= i * rows) by (nonlinear_arith)
            requires
                0 <= i,
                0 <= rows,
        ;
        let p = i * rows + (k - 1);
        assert(p % rows == k - 1 && p / rows == i) by (nonlinear_arith)
            requires
                p == i * rows + (k - 1),
                0 < k <= rows,
                0 <= i,
        {
            vstd::arithmetic::div_mod::lemma_fundamental_div_mod_converse(p, rows, i, k - 1);
        }
        assert(i * rows + rows <= cols * rows) by (nonlinear_arith)
            requires
                0 <= i < cols,
                0 <= rows,
        ;
        let t = transpose(w, off, rows, cols);
        assert(row[k - 1] == t[p]);
        assert(t[p] == w[off + (p % rows) * cols + p / rows]);
        assert(row[k - 1] == w[off + (k - 1) * cols + i]);
    }
}

/// `linear_t` is `linear` of the transpose: dx = W^T dy.
pub proof fn lemma_linear_t_transpose(w: Seq<i64>, off: int, rows: int, cols: int, dy: Seq<i64>)
    requires
        0 <= rows,
        0 <= cols,
    ensures
        linear_t_spec(w, off, rows, cols, dy) == linear_spec(transpose(w, off, rows, cols), 0, cols, rows, dy),
{
    assert forall|i: int| 0 <= i < cols implies #[trigger] linear_t_spec(w, off, rows, cols, dy)[i]
        == linear_spec(transpose(w, off, rows, cols), 0, cols, rows, dy)[i] by {
        lemma_col_sum_dot(w, off, rows, cols, i, dy, rows);
    }
    assert(linear_t_spec(w, off, rows, cols, dy) =~= linear_spec(transpose(w, off, rows, cols), 0, cols, rows, dy));
}

/// dW += dy (x) x on the `rows x cols` block at `off` of `dw`.
pub open spec fn outer_spec(dw: Seq<i64>, off: int, rows: int, cols: int, dy: Seq<i64>, x: Seq<i64>) -> Seq<i64> {
    Seq::new(
        dw.len(),
        |p: int|
            if off <= p < off + rows * cols {
                wadd(dw[p], wmul(shr(dy[(p - off) / cols], 16), shr(x[(p - off) % cols], 16)))
            } else {
                dw[p]
            },
    )
}

/// Mean square plus epsilon, the RMSNorm denominator.
pub open spec fn rms_ms(x: Seq<i64>) -> i64 {
    wadd(tdiv(dot_prefix(x, x, N_EMBD as int) as int, N_EMBD as int) as i64, RMS_EPS)
}

/// RMSNorm scale 1/sqrt(mean(x^2) + eps).
pub open spec fn rms_scale(x: Seq<i64>) -> i64 {
    rsqrt_spec(rms_ms(x))
}

/// RMSNorm output x * scale.
pub open spec fn rmsnorm_spec(x: Seq<i64>) -> Seq<i64> {
    Seq::new(N_EMBD as nat, |i: int| fmul_spec(x[i], rms_scale(x)))
}

/// dL/dx for y = x * scale(x): dx = s*dy - (s^3/N) * dot(dy, x) * x.
pub open spec fn rmsnorm_bwd_spec(x: Seq<i64>, scale: i64, dy: Seq<i64>) -> Seq<i64> {
    let d = dot_prefix(dy, x, N_EMBD as int);
    let s3 = fmul_spec(fmul_spec(scale, scale), scale);
    let c = tdiv(fmul_spec(s3, d) as int, N_EMBD as int) as i64;
    Seq::new(N_EMBD as nat, |i: int| wsub(fmul_spec(scale, dy[i]), fmul_spec(c, x[i])))
}

/// Maximum of the first `n` entries (0 for an empty prefix).
pub open spec fn max_prefix(l: Seq<i64>, n: int) -> i64
    decreases n,
{
    if n <= 0 {
        0
    } else if n == 1 {
        l[0]
    } else {
        let m = max_prefix(l, n - 1);
        if l[n - 1] >= m { l[n - 1] } else { m }
    }
}

/// Wrapping sum of the first `n` entries.
pub open spec fn sum_prefix(l: Seq<i64>, n: int) -> i64
    decreases n,
{
    if n <= 0 { 0 } else { wadd(sum_prefix(l, n - 1), l[n - 1]) }
}

/// The exponentials of a softmax over the first `n` entries (others kept).
pub open spec fn softmax_exps(l: Seq<i64>, n: int) -> Seq<i64> {
    Seq::new(l.len(), |i: int| if i < n { exp_spec(wsub(l[i], max_prefix(l, n))) } else { l[i] })
}

/// Softmax over the first `n` entries: subtract max, exp, multiply by the
/// reciprocal of the (at least 1) sum. Entries from `n` on are kept.
pub open spec fn softmax_spec(l: Seq<i64>, n: int) -> Seq<i64> {
    let e = softmax_exps(l, n);
    let sum = sum_prefix(e, n);
    let inv = fdiv_spec(ONE, if sum >= 1 { sum } else { 1 });
    Seq::new(l.len(), |i: int| if i < n { fmul_spec(e[i], inv) } else { l[i] })
}

/// The prefix maximum is attained at some index below `n` and bounds every
/// entry below `n`.
proof fn lemma_max_prefix_attained(l: Seq<i64>, n: int) -> (j: int)
    requires
        1 <= n <= l.len(),
    ensures
        0 <= j < n,
        l[j] == max_prefix(l, n),
        forall|i: int| 0 <= i < n ==> l[i] <= max_prefix(l, n),
    decreases n,
{
    if n == 1 {
        0
    } else {
        let j0 = lemma_max_prefix_attained(l, n - 1);
        if l[n - 1] >= max_prefix(l, n - 1) { n - 1 } else { j0 }
    }
}

/// Integer (non-wrapping) sum of the first `k` entries.
pub open spec fn int_sum(s: Seq<i64>, k: int) -> int
    decreases k,
{
    if k <= 0 { 0 } else { int_sum(s, k - 1) + s[k - 1] }
}

/// With entries in [0, ONE] and fewer than 2^31 of them, the wrapping sum
/// is the integer sum, at least each entry and at most k * ONE.
proof fn lemma_sum_prefix_exact(s: Seq<i64>, k: int)
    requires
        0 <= k <= s.len(),
        k < 0x8000_0000,
        forall|i: int| 0 <= i < k ==> 0 <= #[trigger] s[i] <= ONE,
    ensures
        sum_prefix(s, k) as int == int_sum(s, k),
        0 <= int_sum(s, k) <= k * ONE,
        forall|j: int| 0 <= j < k ==> s[j] <= int_sum(s, k),
    decreases k,
{
    if k > 0 {
        lemma_sum_prefix_exact(s, k - 1);
        assert(s[k - 1] <= ONE);
    }
}

/// Floor-scaled entries lose less than one unit each.
proof fn lemma_int_sum_scaled_below(o: Seq<i64>, e: Seq<i64>, inv: int, k: int)
    requires
        0 <= k,
        forall|i: int| 0 <= i < k ==> e[i] * inv < 0x1_0000_0000 * (#[trigger] o[i]) + 0x1_0000_0000,
    ensures
        int_sum(e, k) * inv < 0x1_0000_0000 * int_sum(o, k) + 0x1_0000_0000 * k + 1,
    decreases k,
{
    if k > 0 {
        lemma_int_sum_scaled_below(o, e, inv, k - 1);
        assert(e[k - 1] * inv < 0x1_0000_0000 * o[k - 1] + 0x1_0000_0000);
        assert(int_sum(e, k) * inv == int_sum(e, k - 1) * inv + e[k - 1] * inv) by (nonlinear_arith)
            requires
                int_sum(e, k) == int_sum(e, k - 1) + e[k - 1],
        ;
    }
}

/// Floor-scaled entries sum to at most the scaled sum.
proof fn lemma_int_sum_scaled(o: Seq<i64>, e: Seq<i64>, inv: int, k: int)
    requires
        0 <= k,
        forall|i: int| 0 <= i < k ==> 0x1_0000_0000 * (#[trigger] o[i]) <= e[i] * inv,
    ensures
        0x1_0000_0000 * int_sum(o, k) <= int_sum(e, k) * inv,
    decreases k,
{
    if k > 0 {
        lemma_int_sum_scaled(o, e, inv, k - 1);
        assert(0x1_0000_0000 * o[k - 1] <= e[k - 1] * inv);
        assert(int_sum(e, k) * inv == int_sum(e, k - 1) * inv + e[k - 1] * inv) by (nonlinear_arith)
            requires
                int_sum(e, k) == int_sum(e, k - 1) + e[k - 1],
        ;
    }
}

/// No difference of two of the first `n` entries overflows an i64.
pub open spec fn diffs_fit(l: Seq<i64>, n: int) -> bool {
    forall|i: int, j: int| 0 <= i < n && 0 <= j < n ==> i64::MIN <= #[trigger] l[i] - #[trigger] l[j] <= i64::MAX
}

/// Softmax outputs are probabilities: on logits whose differences cannot
/// overflow, the exponentials sum to at least ONE (the maximum's is exactly
/// ONE), each of the first `n` outputs lies in [0, ONE], and together they
/// sum to ONE up to rounding: at most ONE and more than ONE - 2n.
pub proof fn lemma_softmax_range(l: Seq<i64>, n: int)
    requires
        1 <= n <= l.len(),
        n < 0x8000_0000,
        diffs_fit(l, n),
    ensures
        sum_prefix(softmax_exps(l, n), n) >= ONE,
        forall|i: int| 0 <= i < n ==> 0 <= #[trigger] softmax_spec(l, n)[i] <= ONE,
        0 <= sum_prefix(softmax_spec(l, n), n) <= ONE,
        ONE - 2 * n < sum_prefix(softmax_spec(l, n), n),
{
    let m = max_prefix(l, n);
    let j = lemma_max_prefix_attained(l, n);
    let e = softmax_exps(l, n);
    assert forall|i: int| 0 <= i < n implies 0 <= #[trigger] e[i] <= ONE by {
        assert(l[i] <= m);
        assert(i64::MIN <= l[i] - l[j] <= i64::MAX);
        crate::math::lemma_exp_range(wsub(l[i], m));
    }
    crate::math::lemma_exp_range(wsub(l[j], m));
    assert(e[j] == ONE);
    lemma_sum_prefix_exact(e, n);
    let sum = sum_prefix(e, n);
    assert(ONE <= sum <= n * ONE);
    let inv = fdiv_spec(ONE, sum);
    let big: int = 0x1_0000_0000_0000_0000;
    assert(ONE as int * pow32() == big);
    vstd::arithmetic::div_mod::lemma_div_is_ordered_by_denominator(big, ONE as int, sum as int);
    vstd::arithmetic::div_mod::lemma_div_pos_is_pos(big, sum as int);
    assert(big / (ONE as int) == ONE);
    assert(tdiv(big, sum as int) == big / (sum as int));
    assert(inv as int == big / (sum as int));
    assert(0 <= inv <= ONE);
    vstd::arithmetic::div_mod::lemma_fundamental_div_mod(big, sum as int);
    let si: int = sum as int;
    let ii: int = inv as int;
    assert(ii * si <= big) by (nonlinear_arith)
        requires
            big == si * (big / si) + big % si,
            ii == big / si,
            0 <= big % si,
    ;
    let o = softmax_spec(l, n);
    assert forall|i: int| 0 <= i < n implies 0 <= #[trigger] o[i] <= ONE by {
        crate::fixed::lemma_fmul_shrinks(inv, e[i]);
        assert(o[i] == fmul_spec(e[i], inv));
        assert(e[i] as int * inv as int == inv as int * e[i] as int);
    }
    assert forall|i: int| 0 <= i < n implies 0x1_0000_0000 * (#[trigger] o[i]) <= e[i] * inv by {
        let p = e[i] as int * inv as int;
        assert(0 <= p <= big) by (nonlinear_arith)
            requires
                p == e[i] as int * inv as int,
                0 <= e[i] <= 0x1_0000_0000,
                0 <= inv <= 0x1_0000_0000,
                big == 0x1_0000_0000_0000_0000,
        ;
        vstd::arithmetic::div_mod::lemma_div_is_ordered(p, big, pow32());
        vstd::arithmetic::div_mod::lemma_div_pos_is_pos(p, pow32());
        assert(o[i] == p / pow32());
        vstd::arithmetic::div_mod::lemma_fundamental_div_mod(p, pow32());
        vstd::arithmetic::div_mod::lemma_mod_bound(p, pow32());
    }
    assert forall|i: int| 0 <= i < n implies e[i] * inv < 0x1_0000_0000 * (#[trigger] o[i]) + 0x1_0000_0000 by {
        let p = e[i] as int * inv as int;
        assert(0 <= p <= big) by (nonlinear_arith)
            requires
                p == e[i] as int * inv as int,
                0 <= e[i] <= 0x1_0000_0000,
                0 <= inv <= 0x1_0000_0000,
                big == 0x1_0000_0000_0000_0000,
        ;
        vstd::arithmetic::div_mod::lemma_div_is_ordered(p, big, pow32());
        vstd::arithmetic::div_mod::lemma_div_pos_is_pos(p, pow32());
        assert(o[i] == p / pow32());
        vstd::arithmetic::div_mod::lemma_fundamental_div_mod(p, pow32());
        vstd::arithmetic::div_mod::lemma_mod_bound(p, pow32());
    }
    lemma_int_sum_scaled_below(o, e, inv as int, n);
    vstd::arithmetic::div_mod::lemma_mod_bound(big, si);
    assert(big - si < ii * si) by (nonlinear_arith)
        requires
            big == si * (big / si) + big % si,
            ii == big / si,
            big % si < si,
    ;
    assert(int_sum(e, n) * ii == ii * si);
    assert(si <= n * 0x1_0000_0000);
    lemma_int_sum_scaled(o, e, inv as int, n);
    assert(int_sum(e, n) * ii <= big) by (nonlinear_arith)
        requires
            ii * si <= big,
            int_sum(e, n) == si,
    ;
    lemma_sum_prefix_exact(o, n);
}

/// Index bounds for entry (o, i) of a `rows x cols` matrix at `off`.
pub proof fn lemma_mat_index(off: int, rows: int, cols: int, o: int, i: int)
    requires
        0 <= off,
        0 <= o < rows,
        0 <= i <= cols,
    ensures
        off <= off + o * cols + i <= off + rows * cols,
        i < cols ==> off + o * cols + i < off + rows * cols,
        off + o * cols + cols <= off + rows * cols,
        0 <= o * cols,
{
    assert(o * cols + cols <= rows * cols) by (nonlinear_arith)
        requires
            0 <= o < rows,
            0 <= cols,
    ;
    assert(0 <= o * cols) by (nonlinear_arith)
        requires
            0 <= o,
            0 <= cols,
    ;
}

/// Entry (o, i) of a matrix block is recovered by division and remainder.
pub proof fn lemma_mat_divmod(o: int, cols: int, i: int)
    requires
        0 <= o,
        0 <= i < cols,
    ensures
        (o * cols + i) / cols == o,
        (o * cols + i) % cols == i,
{
    vstd::arithmetic::div_mod::lemma_fundamental_div_mod_converse(o * cols + i, cols, o, i);
}

// -- State -----------------------------------------------------------------

/// All 4,192 parameters, flat, row-major `[out][in]` per matrix.
pub struct Weights {
    pub params: Vec<Fx>,
}

impl Weights {
    /// A weight vector of the right size, all zero.
    pub fn new() -> (w: Self)
        ensures
            w.params@.len() == N_PARAMS,
            forall|i: int| 0 <= i < N_PARAMS ==> w.params@[i] == 0,
    {
        let mut params: Vec<Fx> = Vec::new();
        let mut i: usize = 0;
        while i < N_PARAMS
            invariant
                i <= N_PARAMS,
                params@.len() == i,
                forall|j: int| 0 <= j < i ==> params@[j] == 0,
            decreases N_PARAMS - i,
        {
            params.push(0);
            i = i + 1;
        }
        Weights { params }
    }

    /// The flat parameter view.
    pub fn as_flat(&self) -> (r: &[Fx])
        ensures
            r@ == self.params@,
    {
        self.params.as_slice()
    }

    /// Set every parameter to zero.
    pub fn zero(&mut self)
        ensures
            final(self).params@.len() == old(self).params@.len(),
            forall|i: int| 0 <= i < final(self).params@.len() ==> final(self).params@[i] == 0,
    {
        let n = self.params.len();
        let mut i: usize = 0;
        while i < n
            invariant
                i <= n,
                self.params@.len() == n,
                forall|j: int| 0 <= j < i ==> self.params@[j] == 0,
            decreases n - i,
        {
            self.params.set(i, 0);
            i = i + 1;
        }
    }

    /// PRNG-init parameters in `[start, end)` of the flat layout with
    /// Gaussians of std 0.08. Chunkable: the caller owns the Rng state, so
    /// ranges can span transactions as long as they are applied in order.
    pub fn init_range(&mut self, start: usize, end: usize, rng: &mut Rng)
        requires
            start <= end <= old(self).params@.len(),
        ensures
            final(self).params@ == init_spec(old(self).params@, start as int, end as int, old(rng).0),
            final(rng).0 == advance(old(rng).0, (12 * (end - start)) as nat),
            old(rng).0 != 0 ==> final(rng).0 != 0,
    {
        let ghost s0 = rng.0;
        let ghost p0 = self.params@;
        let mut p = start;
        while p < end
            invariant
                start <= p <= end,
                end <= self.params@.len(),
                self.params@ == init_spec(p0, start as int, p as int, s0),
                rng.0 == advance(s0, (12 * (p - start)) as nat),
                s0 != 0 ==> rng.0 != 0,
            decreases end - p,
        {
            let g = rng.next_gauss_scaled(INIT_STD);
            proof {
                lemma_advance_add(s0, (12 * (p - start)) as nat, 12);
            }
            self.params.set(p, g);
            assert(self.params@ =~= init_spec(p0, start as int, p + 1, s0));
            p = p + 1;
        }
    }
}

/// The Gaussian written to parameter `p` by an init pass that started at
/// `start` from rng state `s`.
pub open spec fn init_value(s: u64, start: int, p: int) -> i64 {
    fmul_spec(gauss_of(advance(s, (12 * (p - start)) as nat)), INIT_STD)
}

/// Parameters after initializing `[start, end)` from rng state `s`.
pub open spec fn init_spec(w: Seq<i64>, start: int, end: int, s: u64) -> Seq<i64> {
    Seq::new(w.len(), |p: int| if start <= p < end { init_value(s, start, p) } else { w[p] })
}

/// Advancing by `a` then `b` steps is advancing by `a + b`.
pub proof fn lemma_advance_add(s: u64, a: nat, b: nat)
    ensures
        advance(advance(s, a), b) == advance(s, a + b),
    decreases b,
{
    if b > 0 {
        lemma_advance_add(s, a, (b - 1) as nat);
    }
}

/// Adam first/second moment buffers, flat, same parameter order as `Weights`.
pub struct Moments {
    pub m: Vec<Fx>,
    pub v: Vec<Fx>,
}

impl Moments {
    /// Zeroed moment buffers of the right size.
    pub fn new() -> (r: Self)
        ensures
            r.m@.len() == N_PARAMS,
            r.v@.len() == N_PARAMS,
            forall|i: int| 0 <= i < N_PARAMS ==> r.m@[i] == 0 && r.v@[i] == 0,
    {
        let a = Weights::new();
        let b = Weights::new();
        Moments { m: a.params, v: b.params }
    }
}

// -- Kernels ---------------------------------------------------------------

/// Dot product, native-multiply kernel.
#[inline]
pub fn dot(a: &[Fx], b: &[Fx]) -> (r: Fx)
    requires
        a@.len() == b@.len(),
    ensures
        r == dot_prefix(a@, b@, a@.len() as int),
{
    let mut acc: Fx = 0;
    let mut i: usize = 0;
    while i < a.len()
        invariant
            i <= a@.len(),
            a@.len() == b@.len(),
            acc == dot_prefix(a@, b@, i as int),
        decreases a@.len() - i,
    {
        acc = acc.wrapping_add(fmul16(a[i], b[i]));
        i = i + 1;
    }
    acc
}

/// Dot product of `w[off .. off + n]` with `x[0 .. n]`.
fn dot_at(w: &[Fx], off: usize, x: &[Fx], n: usize) -> (r: Fx)
    requires
        off + n <= w@.len() <= usize::MAX,
        n <= x@.len(),
    ensures
        r == dot_prefix(w@.subrange(off as int, off + n), x@, n as int),
{
    let ghost row = w@.subrange(off as int, off + n);
    let mut acc: Fx = 0;
    let mut i: usize = 0;
    while i < n
        invariant
            i <= n,
            off + n <= w@.len() <= usize::MAX,
            n <= x@.len(),
            row == w@.subrange(off as int, off + n),
            acc == dot_prefix(row, x@, i as int),
        decreases n - i,
    {
        acc = acc.wrapping_add(fmul16(w[off + i], x[i]));
        i = i + 1;
    }
    acc
}

/// y = W x for the `rows x cols` matrix at `off`. Native-multiply kernel.
#[inline]
pub fn linear(w: &[Fx], off: usize, rows: usize, cols: usize, x: &[Fx]) -> (y: Vec<Fx>)
    requires
        off + rows * cols <= w@.len() <= usize::MAX,
        x@.len() == cols,
    ensures
        y@ == linear_spec(w@, off as int, rows as int, cols as int, x@),
{
    let mut y: Vec<Fx> = Vec::new();
    let mut o: usize = 0;
    while o < rows
        invariant
            o <= rows,
            off + rows * cols <= w@.len() <= usize::MAX,
            x@.len() == cols,
            y@.len() == o,
            forall|j: int| 0 <= j < o ==> y@[j] == dot_prefix(mat_row(w@, off as int, cols as int, j), x@, cols as int),
        decreases rows - o,
    {
        proof {
            lemma_mat_index(off as int, rows as int, cols as int, o as int, 0);
        }
        let start = off + o * cols;
        let d = dot_at(w, start, x, cols);
        y.push(d);
        o = o + 1;
    }
    assert(y@ =~= linear_spec(w@, off as int, rows as int, cols as int, x@));
    y
}

/// dx = W^T dy for the `rows x cols` matrix at `off`. Native-multiply kernel.
#[inline]
pub fn linear_t(w: &[Fx], off: usize, rows: usize, cols: usize, dy: &[Fx]) -> (dx: Vec<Fx>)
    requires
        off + rows * cols <= w@.len() <= usize::MAX,
        dy@.len() == rows,
    ensures
        dx@ == linear_t_spec(w@, off as int, rows as int, cols as int, dy@),
{
    let mut dx: Vec<Fx> = Vec::new();
    let mut i: usize = 0;
    while i < cols
        invariant
            i <= cols,
            dx@.len() == i,
            forall|j: int| 0 <= j < i ==> dx@[j] == 0,
        decreases cols - i,
    {
        dx.push(0);
        i = i + 1;
    }
    let mut o: usize = 0;
    while o < rows
        invariant
            o <= rows,
            off + rows * cols <= w@.len() <= usize::MAX,
            dy@.len() == rows,
            dx@.len() == cols,
            forall|j: int| 0 <= j < cols ==> dx@[j] == col_sum(w@, off as int, cols as int, j, dy@, o as int),
        decreases rows - o,
    {
        proof {
            lemma_shr_i64(dy[o as int], 16);
        }
        let d = dy[o] >> 16;
        let mut i: usize = 0;
        while i < cols
            invariant
                o < rows,
                i <= cols,
                off + rows * cols <= w@.len() <= usize::MAX,
                dy@.len() == rows,
                dx@.len() == cols,
                d == shr(dy@[o as int], 16),
                forall|j: int| 0 <= j < i ==> dx@[j] == col_sum(w@, off as int, cols as int, j, dy@, o + 1),
                forall|j: int| i <= j < cols ==> dx@[j] == col_sum(w@, off as int, cols as int, j, dy@, o as int),
            decreases cols - i,
        {
            proof {
                lemma_mat_index(off as int, rows as int, cols as int, o as int, i as int);
                lemma_shr_i64(w[off + o * cols + i], 16);
            }
            let wi = w[off + o * cols + i] >> 16;
            let cur = dx[i];
            dx.set(i, cur.wrapping_add(wi.wrapping_mul(d)));
            i = i + 1;
        }
        o = o + 1;
    }
    assert(dx@ =~= linear_t_spec(w@, off as int, rows as int, cols as int, dy@));
    dx
}

/// dW += dy (x) x on the `rows x cols` block at `off`. Native-multiply kernel.
#[inline]
pub fn outer_acc(dw: &mut Vec<Fx>, off: usize, rows: usize, cols: usize, dy: &[Fx], x: &[Fx])
    requires
        off + rows * cols <= old(dw)@.len() <= usize::MAX,
        dy@.len() == rows,
        x@.len() == cols,
    ensures
        final(dw)@ == outer_spec(old(dw)@, off as int, rows as int, cols as int, dy@, x@),
{
    let ghost d0 = dw@;
    let ghost target = outer_spec(d0, off as int, rows as int, cols as int, dy@, x@);
    let mut o: usize = 0;
    while o < rows
        invariant
            o <= rows,
            off + rows * cols <= d0.len() <= usize::MAX,
            dy@.len() == rows,
            x@.len() == cols,
            dw@.len() == d0.len(),
            target == outer_spec(d0, off as int, rows as int, cols as int, dy@, x@),
            forall|p: int| 0 <= p < d0.len() && off <= p < off + o * cols ==> dw@[p] == target[p],
            forall|p: int| 0 <= p < d0.len() && !(off <= p < off + o * cols) ==> dw@[p] == d0[p],
        decreases rows - o,
    {
        proof {
            lemma_shr_i64(dy[o as int], 16);
            lemma_mat_index(off as int, rows as int, cols as int, o as int, 0);
        }
        let d = dy[o] >> 16;
        let mut i: usize = 0;
        while i < cols
            invariant
                o < rows,
                i <= cols,
                off + rows * cols <= d0.len() <= usize::MAX,
                dy@.len() == rows,
                x@.len() == cols,
                dw@.len() == d0.len(),
                d == shr(dy@[o as int], 16),
                target == outer_spec(d0, off as int, rows as int, cols as int, dy@, x@),
                forall|p: int| 0 <= p < d0.len() && off <= p < off + o * cols + i ==> dw@[p] == target[p],
                forall|p: int| 0 <= p < d0.len() && !(off <= p < off + o * cols + i) ==> dw@[p] == d0[p],
            decreases cols - i,
        {
            proof {
                lemma_mat_index(off as int, rows as int, cols as int, o as int, i as int);
                lemma_mat_divmod(o as int, cols as int, i as int);
                lemma_shr_i64(x[i as int], 16);
            }
            let idx = off + o * cols + i;
            let cur = dw[idx];
            dw.set(idx, cur.wrapping_add(d.wrapping_mul(x[i] >> 16)));
            i = i + 1;
        }
        proof {
            assert(off + o * cols + cols == off + (o + 1) * cols) by (nonlinear_arith);
        }
        o = o + 1;
    }
    assert(dw@ =~= target);
}

/// RMSNorm: y = x / sqrt(mean(x^2) + eps). Returns (y, scale); backward
/// needs the scale.
#[inline]
pub fn rmsnorm(x: &[Fx]) -> (r: (Vec<Fx>, Fx))
    requires
        x@.len() == N_EMBD,
    ensures
        r.0@ == rmsnorm_spec(x@),
        r.1 == rms_scale(x@),
{
    let ms = div_trunc(dot(x, x), N_EMBD as i64).wrapping_add(RMS_EPS);
    let scale = rsqrt_fx(ms);
    let mut y: Vec<Fx> = Vec::new();
    let mut i: usize = 0;
    while i < N_EMBD
        invariant
            i <= N_EMBD,
            x@.len() == N_EMBD,
            scale == rms_scale(x@),
            y@.len() == i,
            forall|j: int| 0 <= j < i ==> y@[j] == fmul_spec(x@[j], scale),
        decreases N_EMBD - i,
    {
        y.push(fmul(x[i], scale));
        i = i + 1;
    }
    assert(y@ =~= rmsnorm_spec(x@));
    (y, scale)
}

/// dL/dx for y = x * scale(x): dx = s*dy - (s^3/N) * dot(dy, x) * x.
#[inline]
pub fn rmsnorm_bwd(x: &[Fx], scale: Fx, dy: &[Fx]) -> (dx: Vec<Fx>)
    requires
        x@.len() == N_EMBD,
        dy@.len() == N_EMBD,
    ensures
        dx@ == rmsnorm_bwd_spec(x@, scale, dy@),
{
    let d = dot(dy, x);
    let s3 = fmul(fmul(scale, scale), scale);
    let c = div_trunc(fmul(s3, d), N_EMBD as i64);
    let mut dx: Vec<Fx> = Vec::new();
    let mut i: usize = 0;
    while i < N_EMBD
        invariant
            i <= N_EMBD,
            x@.len() == N_EMBD,
            dy@.len() == N_EMBD,
            c == tdiv(fmul_spec(fmul_spec(fmul_spec(scale, scale), scale), dot_prefix(dy@, x@, N_EMBD as int)) as int, N_EMBD as int),
            dx@.len() == i,
            forall|j: int| 0 <= j < i ==> dx@[j] == wsub(fmul_spec(scale, dy@[j]), fmul_spec(c, x@[j])),
        decreases N_EMBD - i,
    {
        dx.push(fmul(scale, dy[i]).wrapping_sub(fmul(c, x[i])));
        i = i + 1;
    }
    assert(dx@ =~= rmsnorm_bwd_spec(x@, scale, dy@));
    dx
}

/// In-place softmax over `logits[..n]`: subtract max, exp, normalize by one
/// reciprocal and per-entry multiplies.
#[inline]
pub fn softmax_inplace(logits: &mut Vec<Fx>, n: usize)
    requires
        n <= old(logits)@.len(),
    ensures
        final(logits)@ == softmax_spec(old(logits)@, n as int),
{
    let ghost l0 = logits@;
    let mut max: Fx = 0;
    let mut i: usize = 0;
    while i < n
        invariant
            i <= n,
            n <= l0.len(),
            logits@ == l0,
            max == max_prefix(l0, i as int),
        decreases n - i,
    {
        if i == 0 || logits[i] >= max {
            max = logits[i];
        }
        i = i + 1;
    }
    let ghost e = softmax_exps(l0, n as int);
    let mut sum: Fx = 0;
    let mut i: usize = 0;
    while i < n
        invariant
            i <= n,
            n <= l0.len(),
            logits@.len() == l0.len(),
            max == max_prefix(l0, n as int),
            e == softmax_exps(l0, n as int),
            forall|j: int| 0 <= j < i ==> logits@[j] == e[j],
            forall|j: int| i <= j < l0.len() ==> logits@[j] == l0[j],
            sum == sum_prefix(e, i as int),
        decreases n - i,
    {
        let v = exp_fx(logits[i].wrapping_sub(max));
        logits.set(i, v);
        sum = sum.wrapping_add(v);
        i = i + 1;
    }
    // One reciprocal + multiplies: a 128-bit division per element would
    // dominate the whole forward pass on the target runtime.
    let denom = if sum >= 1 { sum } else { 1 };
    let inv_sum = fdiv(ONE, denom);
    let mut i: usize = 0;
    while i < n
        invariant
            i <= n,
            n <= l0.len(),
            logits@.len() == l0.len(),
            e == softmax_exps(l0, n as int),
            inv_sum == fdiv_spec(ONE, if sum_prefix(e, n as int) >= 1 { sum_prefix(e, n as int) } else { 1 }),
            forall|j: int| 0 <= j < i ==> logits@[j] == fmul_spec(e[j], inv_sum),
            forall|j: int| i <= j < n ==> logits@[j] == e[j],
            forall|j: int| n <= j < l0.len() ==> logits@[j] == l0[j],
        decreases n - i,
    {
        let v = fmul(logits[i], inv_sum);
        logits.set(i, v);
        i = i + 1;
    }
    assert(logits@ =~= softmax_spec(l0, n as int));
}


// -- Activation workspace --------------------------------------------------

/// Rows of a matrix held as a vector of row vectors.
pub open spec fn rows(m: Seq<Vec<Fx>>) -> Seq<Seq<Fx>> {
    m.map_values(|r: Vec<Fx>| r@)
}

/// A `n x c` matrix: `n` rows of `c` entries.
pub open spec fn is_mat(m: Seq<Seq<Fx>>, n: int, c: int) -> bool {
    m.len() == n && forall|r: int| 0 <= r < n ==> #[trigger] m[r].len() == c
}

/// Abstract contents of the activation workspace.
#[verifier::ext_equal]
pub ghost struct ScratchV {
    pub x0: Seq<Seq<Fx>>,
    pub x1: Seq<Seq<Fx>>,
    pub xa: Seq<Seq<Fx>>,
    pub q: Seq<Seq<Fx>>,
    pub k: Seq<Seq<Fx>>,
    pub v: Seq<Seq<Fx>>,
    pub o: Seq<Seq<Fx>>,
    pub x2: Seq<Seq<Fx>>,
    pub xm: Seq<Seq<Fx>>,
    pub x3: Seq<Seq<Fx>>,
    pub att: Seq<Seq<Fx>>,
    pub hpre: Seq<Seq<Fx>>,
    pub h: Seq<Seq<Fx>>,
    pub probs: Seq<Seq<Fx>>,
    pub s_emb: Seq<Fx>,
    pub s_att: Seq<Fx>,
    pub s_mlp: Seq<Fx>,
    pub dk: Seq<Seq<Fx>>,
    pub dv: Seq<Seq<Fx>>,
    pub grads: Seq<Fx>,
}

impl ScratchV {
    /// Every buffer has its model shape.
    pub open spec fn wf(self) -> bool {
        &&& is_mat(self.x0, BLOCK as int, N_EMBD as int)
        &&& is_mat(self.x1, BLOCK as int, N_EMBD as int)
        &&& is_mat(self.xa, BLOCK as int, N_EMBD as int)
        &&& is_mat(self.q, BLOCK as int, N_EMBD as int)
        &&& is_mat(self.k, BLOCK as int, N_EMBD as int)
        &&& is_mat(self.v, BLOCK as int, N_EMBD as int)
        &&& is_mat(self.o, BLOCK as int, N_EMBD as int)
        &&& is_mat(self.x2, BLOCK as int, N_EMBD as int)
        &&& is_mat(self.xm, BLOCK as int, N_EMBD as int)
        &&& is_mat(self.x3, BLOCK as int, N_EMBD as int)
        &&& is_mat(self.att, (BLOCK * N_HEAD) as int, BLOCK as int)
        &&& is_mat(self.hpre, BLOCK as int, MLP_DIM as int)
        &&& is_mat(self.h, BLOCK as int, MLP_DIM as int)
        &&& is_mat(self.probs, BLOCK as int, VOCAB as int)
        &&& self.s_emb.len() == BLOCK
        &&& self.s_att.len() == BLOCK
        &&& self.s_mlp.len() == BLOCK
        &&& is_mat(self.dk, BLOCK as int, N_EMBD as int)
        &&& is_mat(self.dv, BLOCK as int, N_EMBD as int)
        &&& self.grads.len() == N_PARAMS
    }
}

/// Activation workspace for one document plus the gradient accumulator.
///
/// Everything the backward pass needs is written here by the forward pass.
/// Row `t` of each per-position buffer is position `t`; attention weights
/// of position `t`, head `h` are row `t * N_HEAD + h` of `att`.
pub struct Scratch {
    pub x0: Vec<Vec<Fx>>, // wte + wpe
    pub x1: Vec<Vec<Fx>>, // rmsnorm(x0): residual stream base
    pub xa: Vec<Vec<Fx>>, // rmsnorm(x1): attention input
    pub q: Vec<Vec<Fx>>,
    pub k: Vec<Vec<Fx>>, // KV cache (doubles as generation cache)
    pub v: Vec<Vec<Fx>>,
    pub o: Vec<Vec<Fx>>, // concatenated head outputs
    pub x2: Vec<Vec<Fx>>, // x1 + attn out
    pub xm: Vec<Vec<Fx>>, // rmsnorm(x2): MLP input
    pub x3: Vec<Vec<Fx>>, // x2 + mlp out
    pub att: Vec<Vec<Fx>>, // softmaxed scores, entries s <= t valid
    pub hpre: Vec<Vec<Fx>>,
    pub h: Vec<Vec<Fx>>,
    pub probs: Vec<Vec<Fx>>,
    // RMSNorm scales, one per site per position (needed by backward).
    pub s_emb: Vec<Fx>,
    pub s_att: Vec<Fx>,
    pub s_mlp: Vec<Fx>,
    // Gradient accumulators for the KV cache (filled during backward).
    pub dk: Vec<Vec<Fx>>,
    pub dv: Vec<Vec<Fx>>,
    // Parameter gradients, same layout as the weights.
    pub grads: Weights,
}

impl View for Scratch {
    type V = ScratchV;

    open spec fn view(&self) -> ScratchV {
        ScratchV {
            x0: rows(self.x0@),
            x1: rows(self.x1@),
            xa: rows(self.xa@),
            q: rows(self.q@),
            k: rows(self.k@),
            v: rows(self.v@),
            o: rows(self.o@),
            x2: rows(self.x2@),
            xm: rows(self.xm@),
            x3: rows(self.x3@),
            att: rows(self.att@),
            hpre: rows(self.hpre@),
            h: rows(self.h@),
            probs: rows(self.probs@),
            s_emb: self.s_emb@,
            s_att: self.s_att@,
            s_mlp: self.s_mlp@,
            dk: rows(self.dk@),
            dv: rows(self.dv@),
            grads: self.grads.params@,
        }
    }
}

/// A vector of `n` zeros.
pub fn zeros(n: usize) -> (r: Vec<Fx>)
    ensures
        r@.len() == n,
        forall|i: int| 0 <= i < n ==> r@[i] == 0,
{
    let mut r: Vec<Fx> = Vec::new();
    let mut i: usize = 0;
    while i < n
        invariant
            i <= n,
            r@.len() == i,
            forall|j: int| 0 <= j < i ==> r@[j] == 0,
        decreases n - i,
    {
        r.push(0);
        i = i + 1;
    }
    r
}

/// The `n x c` zero matrix.
pub open spec fn zero_mat_spec(n: int, c: int) -> Seq<Seq<Fx>> {
    Seq::new(n as nat, |r: int| Seq::new(c as nat, |j: int| 0i64))
}

/// A zeroed `n x c` matrix.
pub fn zero_mat(n: usize, c: usize) -> (m: Vec<Vec<Fx>>)
    ensures
        is_mat(rows(m@), n as int, c as int),
        forall|r: int, j: int| 0 <= r < n && 0 <= j < c ==> rows(m@)[r][j] == 0,
        rows(m@) == zero_mat_spec(n as int, c as int),
{
    let mut m: Vec<Vec<Fx>> = Vec::new();
    let mut i: usize = 0;
    while i < n
        invariant
            i <= n,
            m@.len() == i,
            forall|r: int| 0 <= r < i ==> (#[trigger] m@[r])@.len() == c,
            forall|r: int, j: int| 0 <= r < i && 0 <= j < c ==> #[trigger] m@[r]@[j] == 0,
        decreases n - i,
    {
        m.push(zeros(c));
        i = i + 1;
    }
    assert forall|r: int| 0 <= r < n implies #[trigger] rows(m@)[r] == zero_mat_spec(n as int, c as int)[r] by {
        assert(rows(m@)[r] =~= zero_mat_spec(n as int, c as int)[r]);
    }
    assert(rows(m@) =~= zero_mat_spec(n as int, c as int));
    m
}

/// A copy of a row.
pub fn row_copy(r: &[Fx]) -> (c: Vec<Fx>)
    ensures
        c@ == r@,
{
    let mut c: Vec<Fx> = Vec::new();
    let mut i: usize = 0;
    while i < r.len()
        invariant
            i <= r@.len(),
            c@ == r@.subrange(0, i as int),
        decreases r@.len() - i,
    {
        c.push(r[i]);
        i = i + 1;
    }
    assert(c@ =~= r@);
    c
}

/// Row `i` of the abstract matrix is the view of row vector `i`.
pub proof fn lemma_rows_index(m: Seq<Vec<Fx>>, i: int)
    requires
        0 <= i < m.len(),
    ensures
        rows(m)[i] == m[i]@,
        rows(m).len() == m.len(),
{
}

/// Replace row `t` of a row-vector matrix.
pub fn set_row(m: &mut Vec<Vec<Fx>>, t: usize, row: Vec<Fx>)
    requires
        t < old(m)@.len(),
    ensures
        rows(final(m)@) == rows(old(m)@).update(t as int, row@),
{
    let ghost r = row@;
    m.set(t, row);
    assert(rows(m@) =~= rows(old(m)@).update(t as int, r));
}

/// The all-zero workspace.
pub open spec fn zero_scratch() -> ScratchV {
    let m = zero_mat_spec(BLOCK as int, N_EMBD as int);
    ScratchV {
        x0: m,
        x1: m,
        xa: m,
        q: m,
        k: m,
        v: m,
        o: m,
        x2: m,
        xm: m,
        x3: m,
        att: zero_mat_spec((BLOCK * N_HEAD) as int, BLOCK as int),
        hpre: zero_mat_spec(BLOCK as int, MLP_DIM as int),
        h: zero_mat_spec(BLOCK as int, MLP_DIM as int),
        probs: zero_mat_spec(BLOCK as int, VOCAB as int),
        s_emb: Seq::new(BLOCK as nat, |i: int| 0i64),
        s_att: Seq::new(BLOCK as nat, |i: int| 0i64),
        s_mlp: Seq::new(BLOCK as nat, |i: int| 0i64),
        dk: m,
        dv: m,
        grads: Seq::new(N_PARAMS as nat, |i: int| 0i64),
    }
}

impl Scratch {
    /// A zeroed workspace with the model's shapes.
    pub fn new() -> (s: Self)
        ensures
            s@.wf(),
            s@ == zero_scratch(),
    {
        let s = Scratch {
            x0: zero_mat(BLOCK, N_EMBD),
            x1: zero_mat(BLOCK, N_EMBD),
            xa: zero_mat(BLOCK, N_EMBD),
            q: zero_mat(BLOCK, N_EMBD),
            k: zero_mat(BLOCK, N_EMBD),
            v: zero_mat(BLOCK, N_EMBD),
            o: zero_mat(BLOCK, N_EMBD),
            x2: zero_mat(BLOCK, N_EMBD),
            xm: zero_mat(BLOCK, N_EMBD),
            x3: zero_mat(BLOCK, N_EMBD),
            att: zero_mat(BLOCK * N_HEAD, BLOCK),
            hpre: zero_mat(BLOCK, MLP_DIM),
            h: zero_mat(BLOCK, MLP_DIM),
            probs: zero_mat(BLOCK, VOCAB),
            s_emb: zeros(BLOCK),
            s_att: zeros(BLOCK),
            s_mlp: zeros(BLOCK),
            dk: zero_mat(BLOCK, N_EMBD),
            dv: zero_mat(BLOCK, N_EMBD),
            grads: Weights::new(),
        };
        assert(s@.s_emb =~= Seq::new(BLOCK as nat, |i: int| 0i64));
        assert(s@.s_att =~= Seq::new(BLOCK as nat, |i: int| 0i64));
        assert(s@.s_mlp =~= Seq::new(BLOCK as nat, |i: int| 0i64));
        assert(s@.grads =~= Seq::new(N_PARAMS as nat, |i: int| 0i64));
        assert(s@ =~= zero_scratch());
        s
    }
}


// -- Forward -----------------------------------------------------------------

/// Elementwise wrapping sum.
pub open spec fn vadd(a: Seq<Fx>, b: Seq<Fx>) -> Seq<Fx> {
    Seq::new(a.len(), |i: int| wadd(a[i], b[i]))
}

/// ReLU.
pub open spec fn relu(a: Seq<Fx>) -> Seq<Fx> {
    Seq::new(a.len(), |i: int| if a[i] >= 0 { a[i] } else { 0 })
}

/// Token plus position embedding.
pub open spec fn embed_spec(w: Seq<Fx>, t: int, token: int) -> Seq<Fx> {
    Seq::new(N_EMBD as nat, |i: int| wadd(w[WTE + token * 16 + i], w[WPE + t * 16 + i]))
}

/// Wrapping sum of fmul16(a[hs+j], b[hs+j]) for j < n.
pub open spec fn head_dot(a: Seq<Fx>, b: Seq<Fx>, hs: int, n: int) -> Fx
    decreases n,
{
    if n <= 0 {
        0
    } else {
        wadd(head_dot(a, b, hs, n - 1), fmul16_spec(a[hs + n - 1], b[hs + n - 1]))
    }
}

/// Attention scores of position `t`, head `h` over positions <= t (scaled
/// by 1/sqrt(head_dim) = 1/2); later entries keep their previous values.
pub open spec fn scores_row(sv: ScratchV, t: int, h: int) -> Seq<Fx> {
    Seq::new(
        BLOCK as nat,
        |p: int|
            if p <= t { shr(head_dot(sv.q[t], sv.k[p], h * 4, 4), 1) } else { sv.att[t * 4 + h][p] },
    )
}

/// Softmaxed attention weights of position `t`, head `h`.
pub open spec fn att_row(sv: ScratchV, t: int, h: int) -> Seq<Fx> {
    softmax_spec(scores_row(sv, t, h), t + 1)
}

/// Wrapping sum over positions p < n of fmul16(att[p], vr[p][c]).
pub open spec fn head_out(att: Seq<Fx>, vr: Seq<Seq<Fx>>, c: int, n: int) -> Fx
    decreases n,
{
    if n <= 0 {
        0
    } else {
        wadd(head_out(att, vr, c, n - 1), fmul16_spec(att[n - 1], vr[n - 1][c]))
    }
}

/// Concatenated head outputs of position `t`.
pub open spec fn o_row(sv: ScratchV, t: int) -> Seq<Fx> {
    Seq::new(N_EMBD as nat, |c: int| head_out(att_row(sv, t, c / 4), sv.v, c, t + 1))
}

/// Embedding, both pre-attention RMSNorms and the q/k/v projections of
/// position `t`.
pub open spec fn fwd_embed(sv: ScratchV, w: Seq<Fx>, t: int, token: int) -> ScratchV {
    let x0 = embed_spec(w, t, token);
    let x1 = rmsnorm_spec(x0);
    let xa = rmsnorm_spec(x1);
    ScratchV {
        x0: sv.x0.update(t, x0),
        x1: sv.x1.update(t, x1),
        s_emb: sv.s_emb.update(t, rms_scale(x0)),
        xa: sv.xa.update(t, xa),
        s_att: sv.s_att.update(t, rms_scale(x1)),
        q: sv.q.update(t, linear_spec(w, WQ as int, 16, 16, xa)),
        k: sv.k.update(t, linear_spec(w, WK as int, 16, 16, xa)),
        v: sv.v.update(t, linear_spec(w, WV as int, 16, 16, xa)),
        ..sv
    }
}

/// Causal multi-head attention of position `t`.
pub open spec fn fwd_attn(sv: ScratchV, t: int) -> ScratchV {
    ScratchV {
        att: Seq::new(
            sv.att.len(),
            |r: int| if t * 4 <= r < t * 4 + 4 { att_row(sv, t, r - t * 4) } else { sv.att[r] },
        ),
        o: sv.o.update(t, o_row(sv, t)),
        ..sv
    }
}

/// Attention output projection, residual, MLP block and LM head of
/// position `t`: the new workspace and the logits.
pub open spec fn fwd_mlp(sv: ScratchV, w: Seq<Fx>, t: int) -> (ScratchV, Seq<Fx>) {
    let xo = linear_spec(w, WO as int, 16, 16, sv.o[t]);
    let x2 = vadd(sv.x1[t], xo);
    let xm = rmsnorm_spec(x2);
    let hpre = linear_spec(w, W1 as int, 64, 16, xm);
    let h = relu(hpre);
    let xf = linear_spec(w, W2 as int, 16, 64, h);
    let x3 = vadd(x2, xf);
    (
        ScratchV {
            x2: sv.x2.update(t, x2),
            xm: sv.xm.update(t, xm),
            s_mlp: sv.s_mlp.update(t, rms_scale(x2)),
            hpre: sv.hpre.update(t, hpre),
            h: sv.h.update(t, h),
            x3: sv.x3.update(t, x3),
            ..sv
        },
        linear_spec(w, LM as int, 27, 16, x3),
    )
}

/// One transformer position: the updated workspace and the raw logits.
#[verifier::opaque]
pub open spec fn forward_pos_spec(sv: ScratchV, w: Seq<Fx>, t: int, token: int) -> (ScratchV, Seq<Fx>) {
    fwd_mlp(fwd_attn(fwd_embed(sv, w, t, token), t), w, t)
}

/// A dot product with an all-zero row is zero.
proof fn lemma_dot_zero_row(a: Seq<i64>, b: Seq<i64>, n: int)
    requires
        n <= a.len(),
        forall|i: int| 0 <= i < n ==> a[i] == 0,
    ensures
        dot_prefix(a, b, n) == 0,
    decreases n,
{
    if n > 0 {
        lemma_dot_zero_row(a, b, n - 1);
        vstd::arithmetic::power2::lemma_pow2_pos(16);
        assert(shr(0, 16) == 0);
        let y: int = shr(b[n - 1], 16) as int;
        assert(0 * y == 0);
        assert(fmul16_spec(a[n - 1], b[n - 1]) == 0);
    }
}

/// A matrix whose block of `rows * cols` parameters at `off` is all zero
/// maps every input to the zero vector.
pub proof fn lemma_linear_zero_block(w: Seq<i64>, off: int, rows: int, cols: int, x: Seq<i64>)
    requires
        0 <= off,
        0 <= rows,
        0 <= cols,
        off + rows * cols <= w.len(),
        forall|i: int| off <= i < off + rows * cols ==> w[i] == 0,
    ensures
        forall|o: int| 0 <= o < rows ==> #[trigger] linear_spec(w, off, rows, cols, x)[o] == 0,
{
    assert forall|o: int| 0 <= o < rows implies #[trigger] linear_spec(w, off, rows, cols, x)[o] == 0 by {
        assert(o * cols + cols <= rows * cols) by (nonlinear_arith)
            requires
                0 <= o < rows,
                0 <= cols,
        ;
        assert(0 <= o * cols) by (nonlinear_arith)
            requires
                0 <= o,
                0 <= cols,
        ;
        let row = mat_row(w, off, cols, o);
        assert forall|i: int| 0 <= i < cols implies row[i] == 0 by {
            assert(row[i] == w[off + o * cols + i]);
        }
        lemma_dot_zero_row(row, x, cols);
    }
}

/// The MLP block is residual: with an all-zero output projection (w2) it
/// adds nothing, so the stream after the block equals the stream before it
/// and the logits are the LM head applied to the post-attention stream.
/// Likewise the attention block is residual: with an all-zero output
/// projection (wo) the post-attention stream equals the normalized
/// embedding.
pub proof fn lemma_blocks_are_residual(sv: ScratchV, w: Seq<Fx>, t: int, token: int)
    requires
        sv.wf(),
        w.len() == N_PARAMS,
        0 <= t < BLOCK,
        0 <= token < VOCAB,
    ensures
        (forall|i: int| W2 <= i < W2 + 1024 ==> w[i] == 0) ==> {
            let f = forward_pos_spec(sv, w, t, token);
            &&& f.0.x3[t] == f.0.x2[t]
            &&& f.1 == linear_spec(w, LM as int, 27, 16, f.0.x2[t])
        },
        (forall|i: int| WO <= i < WO + 256 ==> w[i] == 0) ==> forward_pos_spec(sv, w, t, token).0.x2[t]
            == forward_pos_spec(sv, w, t, token).0.x1[t],
{
    reveal(forward_pos_spec);
    let e = fwd_embed(sv, w, t, token);
    let a = fwd_attn(e, t);
    let f = forward_pos_spec(sv, w, t, token);
    assert(a.x1[t].len() == N_EMBD);
    if forall|i: int| W2 <= i < W2 + 1024 ==> w[i] == 0 {
        let x2 = f.0.x2[t];
        let xm = rmsnorm_spec(x2);
        let h = relu(linear_spec(w, W1 as int, 64, 16, xm));
        lemma_linear_zero_block(w, W2 as int, 16, 64, h);
        let xf = linear_spec(w, W2 as int, 16, 64, h);
        assert(vadd(x2, xf) =~= x2);
    }
    if forall|i: int| WO <= i < WO + 256 ==> w[i] == 0 {
        lemma_linear_zero_block(w, WO as int, 16, 16, a.o[t]);
        let xo = linear_spec(w, WO as int, 16, 16, a.o[t]);
        assert(vadd(a.x1[t], xo) =~= a.x1[t]);
    }
}

/// The first `n` entries are probabilities summing to ONE up to rounding.
pub open spec fn probs_row(r: Seq<Fx>, n: int) -> bool {
    &&& forall|p: int| 0 <= p < n ==> 0 <= #[trigger] r[p] <= ONE
    &&& ONE - 2 * n < sum_prefix(r, n) <= ONE
}

/// The activations of a forward position have their meaning: for each of
/// the four heads the attention weights of position `t` over positions up
/// to `t` are probabilities (each in [0, ONE], summing to ONE up to
/// rounding: more than ONE - 2(t + 1) and at most ONE), and the hidden MLP
/// activations are the rectified pre-activations (never negative, equal to
/// the pre-activation where it is not negative, zero elsewhere).
pub proof fn lemma_forward_activations(sv: ScratchV, w: Seq<Fx>, t: int, token: int)
    requires
        sv.wf(),
        0 <= t < BLOCK,
        0 <= token < VOCAB,
    ensures
        ({
            let f = forward_pos_spec(sv, w, t, token).0;
            &&& forall|h: int, p: int| 0 <= h < 4 && 0 <= p <= t ==> 0 <= #[trigger] f.att[t * 4 + h][p] <= ONE
            &&& forall|h: int| 0 <= h < 4 ==> ONE - 2 * (t + 1) < #[trigger] sum_prefix(f.att[t * 4 + h], t + 1) <= ONE
            &&& forall|i: int| 0 <= i < MLP_DIM ==> 0 <= #[trigger] f.h[t][i]
            &&& forall|i: int| 0 <= i < MLP_DIM ==> #[trigger] f.h[t][i] == (if f.hpre[t][i] >= 0 { f.hpre[t][i] } else { 0 })
        }),
{
    reveal(forward_pos_spec);
    let e = fwd_embed(sv, w, t, token);
    let f = forward_pos_spec(sv, w, t, token).0;
    vstd::arithmetic::power2::lemma2_to64();
    assert forall|h: int| 0 <= h < 4 implies #[trigger] probs_row(att_row(e, t, h), t + 1) by {
        let l = scores_row(e, t, h);
        assert forall|i: int, j: int| 0 <= i < t + 1 && 0 <= j < t + 1 implies i64::MIN <= #[trigger] l[i] - #[trigger] l[j] <= i64::MAX by {
            assert(-0x4000_0000_0000_0000 <= l[i] < 0x4000_0000_0000_0000);
            assert(-0x4000_0000_0000_0000 <= l[j] < 0x4000_0000_0000_0000);
        }
        lemma_softmax_range(l, t + 1);
    }
    assert forall|h: int| 0 <= h < 4 implies #[trigger] f.att[t * 4 + h] == att_row(e, t, h) by {}
    assert forall|h: int, p: int| 0 <= h < 4 && 0 <= p <= t implies 0 <= #[trigger] f.att[t * 4 + h][p] <= ONE by {
        assert(f.att[t * 4 + h] == att_row(e, t, h));
        assert(probs_row(att_row(e, t, h), t + 1));
    }
    assert forall|h: int| 0 <= h < 4 implies ONE - 2 * (t + 1) < #[trigger] sum_prefix(f.att[t * 4 + h], t + 1) <= ONE by {
        assert(f.att[t * 4 + h] == att_row(e, t, h));
        assert(probs_row(att_row(e, t, h), t + 1));
    }
    let hp = f.hpre[t];
    assert(f.h[t] == relu(hp));
    assert(hp.len() == MLP_DIM);
}

fn forward_embed(w: &Weights, s: &mut Scratch, t: usize, token: usize)
    requires
        old(s)@.wf(),
        w.params@.len() == N_PARAMS,
        t < BLOCK,
        token < VOCAB,
    ensures
        final(s)@ == fwd_embed(old(s)@, w.params@, t as int, token as int),
        final(s)@.wf(),
{
    let mut x0: Vec<Fx> = Vec::new();
    let mut i: usize = 0;
    while i < N_EMBD
        invariant
            i <= N_EMBD,
            w.params@.len() == N_PARAMS,
            t < BLOCK,
            token < VOCAB,
            x0@.len() == i,
            forall|j: int| 0 <= j < i ==> x0@[j] == embed_spec(w.params@, t as int, token as int)[j],
        decreases N_EMBD - i,
    {
        x0.push(w.params[WTE + token * 16 + i].wrapping_add(w.params[WPE + t * 16 + i]));
        i = i + 1;
    }
    assert(x0@ =~= embed_spec(w.params@, t as int, token as int));
    let (x1, s_emb) = rmsnorm(x0.as_slice());
    let (xa, s_att) = rmsnorm(x1.as_slice());
    let q = linear(w.params.as_slice(), WQ, N_EMBD, N_EMBD, xa.as_slice());
    let k = linear(w.params.as_slice(), WK, N_EMBD, N_EMBD, xa.as_slice());
    let v = linear(w.params.as_slice(), WV, N_EMBD, N_EMBD, xa.as_slice());
    set_row(&mut s.x0, t, x0);
    set_row(&mut s.x1, t, x1);
    s.s_emb.set(t, s_emb);
    set_row(&mut s.xa, t, xa);
    s.s_att.set(t, s_att);
    set_row(&mut s.q, t, q);
    set_row(&mut s.k, t, k);
    set_row(&mut s.v, t, v);
    assert(s@ =~= fwd_embed(old(s)@, w.params@, t as int, token as int));
}

/// Wrapping sum of fmul16(a[hs+j], b[hs+j]) over one head.
pub fn head_dot_exec(a: &[Fx], b: &[Fx], hs: usize) -> (r: Fx)
    requires
        hs + HEAD_DIM <= N_EMBD,
        a@.len() == N_EMBD,
        b@.len() == N_EMBD,
    ensures
        r == head_dot(a@, b@, hs as int, HEAD_DIM as int),
{
    let mut acc: Fx = 0;
    let mut j: usize = 0;
    while j < HEAD_DIM
        invariant
            j <= HEAD_DIM,
            hs + HEAD_DIM <= N_EMBD,
            a@.len() == N_EMBD,
            b@.len() == N_EMBD,
            acc == head_dot(a@, b@, hs as int, j as int),
        decreases HEAD_DIM - j,
    {
        acc = acc.wrapping_add(fmul16(a[hs + j], b[hs + j]));
        j = j + 1;
    }
    acc
}

/// Attention-weighted sum of column `c` of the value cache over positions < n.
fn head_out_exec(att: &[Fx], v: &Vec<Vec<Fx>>, c: usize, n: usize) -> (r: Fx)
    requires
        n <= att@.len(),
        n <= v@.len(),
        forall|p: int| 0 <= p < n ==> c < (#[trigger] v@[p])@.len(),
    ensures
        r == head_out(att@, rows(v@), c as int, n as int),
{
    let mut acc: Fx = 0;
    let mut p: usize = 0;
    while p < n
        invariant
            p <= n,
            n <= att@.len(),
            n <= v@.len(),
            forall|q: int| 0 <= q < n ==> c < (#[trigger] v@[q])@.len(),
            acc == head_out(att@, rows(v@), c as int, p as int),
        decreases n - p,
    {
        acc = acc.wrapping_add(fmul16(att[p], v[p][c]));
        p = p + 1;
    }
    acc
}

fn forward_attention(s: &mut Scratch, t: usize)
    requires
        old(s)@.wf(),
        t < BLOCK,
    ensures
        final(s)@ == fwd_attn(old(s)@, t as int),
        final(s)@.wf(),
{
    let ghost sv = s@;
    let mut o = zeros(N_EMBD);
    let mut head: usize = 0;
    while head < N_HEAD
        invariant
            head <= N_HEAD,
            t < BLOCK,
            sv.wf(),
            s@.wf(),
            s@ == (ScratchV {
                att: Seq::new(
                    sv.att.len(),
                    |r: int| if t * 4 <= r < t * 4 + head { att_row(sv, t as int, r - t * 4) } else { sv.att[r] },
                ),
                ..sv
            }),
            o@.len() == N_EMBD,
            forall|c: int| 0 <= c < head * 4 ==> o@[c] == o_row(sv, t as int)[c],
        decreases N_HEAD - head,
    {
        let hs = head * HEAD_DIM;
        let ridx = t * N_HEAD + head;
        proof {
            lemma_rows_index(s.att@, ridx as int);
            lemma_rows_index(s.q@, t as int);
            lemma_rows_index(s.v@, t as int);
        }
        let mut att = row_copy(s.att[ridx].as_slice());
        let mut past: usize = 0;
        while past <= t
            invariant
                past <= t + 1,
                t < BLOCK,
                head < N_HEAD,
                hs == head * 4,
                ridx == t * 4 + head,
                sv.wf(),
                s@.wf(),
                s@.q == sv.q,
                s@.k == sv.k,
                s@.att[ridx as int] == sv.att[ridx as int],
                att@.len() == BLOCK,
                forall|p: int| 0 <= p < past ==> att@[p] == scores_row(sv, t as int, head as int)[p],
                forall|p: int| past <= p < BLOCK ==> att@[p] == sv.att[ridx as int][p],
            decreases t + 1 - past,
        {
            proof {
                lemma_rows_index(s.q@, t as int);
                lemma_rows_index(s.k@, past as int);
            }
            let acc = head_dot_exec(s.q[t].as_slice(), s.k[past].as_slice(), hs);
            proof {
                lemma_shr_i64(acc, 1);
            }
            att.set(past, acc >> 1); // * 1/sqrt(head_dim) = 0.5 exactly
            past = past + 1;
        }
        assert(att@ =~= scores_row(sv, t as int, head as int));
        softmax_inplace(&mut att, t + 1);
        let mut j: usize = 0;
        while j < HEAD_DIM
            invariant
                j <= HEAD_DIM,
                t < BLOCK,
                head < N_HEAD,
                hs == head * 4,
                sv.wf(),
                s@.wf(),
                s@.v == sv.v,
                att@ == att_row(sv, t as int, head as int),
                o@.len() == N_EMBD,
                forall|c: int| 0 <= c < hs + j ==> o@[c] == o_row(sv, t as int)[c],
            decreases HEAD_DIM - j,
        {
            proof {
                assert forall|p: int| 0 <= p < t + 1 implies hs + j < (#[trigger] s.v@[p])@.len() by {
                    lemma_rows_index(s.v@, p);
                }
            }
            let val = head_out_exec(att.as_slice(), &s.v, hs + j, t + 1);
            o.set(hs + j, val);
            j = j + 1;
        }
        set_row(&mut s.att, ridx, att);
        assert(s@.att =~= Seq::new(
            sv.att.len(),
            |r: int| if t * 4 <= r < t * 4 + head + 1 { att_row(sv, t as int, r - t * 4) } else { sv.att[r] },
        ));
        head = head + 1;
    }
    assert(o@ =~= o_row(sv, t as int));
    set_row(&mut s.o, t, o);
    assert(s@ =~= fwd_attn(sv, t as int));
}

fn forward_mlp(w: &Weights, s: &mut Scratch, t: usize) -> (logits: Vec<Fx>)
    requires
        old(s)@.wf(),
        w.params@.len() == N_PARAMS,
        t < BLOCK,
    ensures
        (final(s)@, logits@) == fwd_mlp(old(s)@, w.params@, t as int),
        final(s)@.wf(),
{
    proof {
        lemma_rows_index(s.o@, t as int);
        lemma_rows_index(s.x1@, t as int);
    }
    let xo = linear(w.params.as_slice(), WO, N_EMBD, N_EMBD, s.o[t].as_slice());
    let mut x2: Vec<Fx> = Vec::new();
    let mut i: usize = 0;
    while i < N_EMBD
        invariant
            i <= N_EMBD,
            t < BLOCK,
            s@.wf(),
            xo@.len() == N_EMBD,
            x2@.len() == i,
            s.x1@[t as int]@ == s@.x1[t as int],
            forall|j: int| 0 <= j < i ==> x2@[j] == wadd(s@.x1[t as int][j], xo@[j]),
        decreases N_EMBD - i,
    {
        x2.push(s.x1[t][i].wrapping_add(xo[i]));
        i = i + 1;
    }
    assert(x2@ =~= vadd(s@.x1[t as int], xo@));
    let (xm, s_mlp) = rmsnorm(x2.as_slice());
    let hpre = linear(w.params.as_slice(), W1, MLP_DIM, N_EMBD, xm.as_slice());
    let mut h: Vec<Fx> = Vec::new();
    let mut i: usize = 0;
    while i < MLP_DIM
        invariant
            i <= MLP_DIM,
            hpre@.len() == MLP_DIM,
            h@.len() == i,
            forall|j: int| 0 <= j < i ==> h@[j] == relu(hpre@)[j],
        decreases MLP_DIM - i,
    {
        let x = hpre[i];
        h.push(if x >= 0 { x } else { 0 });
        i = i + 1;
    }
    assert(h@ =~= relu(hpre@));
    let xf = linear(w.params.as_slice(), W2, N_EMBD, MLP_DIM, h.as_slice());
    let mut x3: Vec<Fx> = Vec::new();
    let mut i: usize = 0;
    while i < N_EMBD
        invariant
            i <= N_EMBD,
            x2@.len() == N_EMBD,
            xf@.len() == N_EMBD,
            x3@.len() == i,
            forall|j: int| 0 <= j < i ==> x3@[j] == wadd(x2@[j], xf@[j]),
        decreases N_EMBD - i,
    {
        x3.push(x2[i].wrapping_add(xf[i]));
        i = i + 1;
    }
    assert(x3@ =~= vadd(x2@, xf@));
    let logits = linear(w.params.as_slice(), LM, VOCAB, N_EMBD, x3.as_slice());
    set_row(&mut s.x2, t, x2);
    set_row(&mut s.xm, t, xm);
    s.s_mlp.set(t, s_mlp);
    set_row(&mut s.hpre, t, hpre);
    set_row(&mut s.h, t, h);
    set_row(&mut s.x3, t, x3);
    assert(s@ =~= fwd_mlp(old(s)@, w.params@, t as int).0);
    logits
}

/// Run one position through the transformer, filling the KV cache and all
/// activations for position `t` in the scratch. Positions must be processed
/// in order from t = 0. Returns the raw logits.
pub fn forward_pos(w: &Weights, s: &mut Scratch, t: usize, token: usize) -> (logits: Vec<Fx>)
    requires
        old(s)@.wf(),
        w.params@.len() == N_PARAMS,
        t < BLOCK,
        token < VOCAB,
    ensures
        (final(s)@, logits@) == forward_pos_spec(old(s)@, w.params@, t as int, token as int),
        final(s)@.wf(),
        logits@.len() == VOCAB,
{
    forward_embed(w, s, t, token);
    forward_attention(s, t);
    let logits = forward_mlp(w, s, t);
    proof {
        reveal(forward_pos_spec);
    }
    logits
}


// -- Sampling ----------------------------------------------------------------

/// Inverse-CDF pick: the first index `i` from `from` on whose probability
/// exceeds the remaining mass `r`, or the last token.
pub open spec fn pick_spec(p: Seq<Fx>, r: Fx, from: int) -> int
    decreases VOCAB - from,
{
    if from >= VOCAB {
        VOCAB - 1
    } else if r < p[from] {
        from
    } else {
        pick_spec(p, wsub(r, p[from]), from + 1)
    }
}

/// Temperature-scaled softmax of the logits.
pub open spec fn sample_probs(logits: Seq<Fx>, temp: Fx) -> Seq<Fx> {
    let inv_temp = fdiv_spec(ONE, temp);
    softmax_spec(Seq::new(logits.len(), |i: int| fmul_spec(logits[i], inv_temp)), VOCAB as int)
}

/// The sampler divides the logits by the temperature: at temperature 2^-k
/// (for k in [0, 30]) it is the softmax of the logits multiplied by 2^k
/// (sharper), and at temperature 2^k it is the softmax of the logits divided
/// by 2^k, rounded down (flatter), for logits whose scaled values fit.
pub proof fn lemma_sample_divides_by_temperature(l: Seq<Fx>, k: nat)
    requires
        k <= 30,
        forall|i: int| 0 <= i < l.len() ==> -0x4000_0000_0000_0000 <= #[trigger] l[i] as int * pow2(k) as int <= 0x4000_0000_0000_0000,
    ensures
        sample_probs(l, pow2((32 - k) as nat) as i64)
            == softmax_spec(Seq::new(l.len(), |i: int| (l[i] as int * pow2(k) as int) as i64), VOCAB as int),
        sample_probs(l, pow2((32 + k) as nat) as i64)
            == softmax_spec(Seq::new(l.len(), |i: int| shr(l[i], k)), VOCAB as int),
{
    vstd::arithmetic::power2::lemma2_to64();
    vstd::arithmetic::power2::lemma2_to64_rest();
    vstd::arithmetic::power2::lemma_pow2_pos(k);
    vstd::arithmetic::power2::lemma_pow2_pos((32 - k) as nat);
    vstd::arithmetic::power2::lemma_pow2_pos((32 + k) as nat);
    vstd::arithmetic::power2::lemma_pow2_adds((32 - k) as nat, k);
    vstd::arithmetic::power2::lemma_pow2_adds(32, k);
    vstd::arithmetic::power2::lemma_pow2_adds((32 - k) as nat, (32 + k) as nat);
    assert((32 - k) as nat + k == 32);
    assert((32 - k) as nat + (32 + k) as nat == 64);
    if k < 30 {
        vstd::arithmetic::power2::lemma_pow2_strictly_increases((32 + k) as nat, 62);
    }
    let a: int = pow2((32 - k) as nat) as int;
    let b: int = pow2((32 + k) as nat) as int;
    let pk: int = pow2(k) as int;
    assert(a * pk == pow32());
    assert(pow32() * pk == b);
    assert(a * b == pow32() * pow32());
    // Temperature 2^-k: 1/temp = 2^(32 + k), and the product is exact.
    vstd::arithmetic::div_mod::lemma_fundamental_div_mod_converse(pow32() * pow32(), a, b, 0);
    assert(fdiv_spec(ONE, a as i64) == b as i64);
    let s1 = Seq::new(l.len(), |i: int| fmul_spec(l[i], b as i64));
    assert forall|i: int| 0 <= i < l.len() implies s1[i] == (l[i] as int * pk) as i64 by {
        assert(l[i] as int * b == (l[i] as int * pk) * pow32()) by (nonlinear_arith)
            requires
                pow32() * pk == b,
        ;
        vstd::arithmetic::div_mod::lemma_fundamental_div_mod_converse(l[i] as int * b, pow32(), l[i] as int * pk, 0);
    }
    assert(s1 =~= Seq::new(l.len(), |i: int| (l[i] as int * pow2(k) as int) as i64));
    // Temperature 2^k: 1/temp = 2^(32 - k), and the product floors l / 2^k.
    vstd::arithmetic::div_mod::lemma_fundamental_div_mod_converse(pow32() * pow32(), b, a, 0);
    assert(fdiv_spec(ONE, b as i64) == a as i64);
    let s2 = Seq::new(l.len(), |i: int| fmul_spec(l[i], a as i64));
    assert forall|i: int| 0 <= i < l.len() implies s2[i] == shr(l[i], k) by {
        let x = l[i] as int;
        vstd::arithmetic::div_mod::lemma_fundamental_div_mod(x, pk);
        vstd::arithmetic::div_mod::lemma_mod_bound(x, pk);
        let q = x / pk;
        let r = x % pk;
        assert(x * a == q * pow32() + r * a) by (nonlinear_arith)
            requires
                x == pk * q + r,
                a * pk == pow32(),
        ;
        assert(0 <= r * a < pow32()) by (nonlinear_arith)
            requires
                0 <= r < pk,
                a > 0,
                a * pk == pow32(),
        ;
        vstd::arithmetic::div_mod::lemma_fundamental_div_mod_converse(x * a, pow32(), q, r * a);
        vstd::arithmetic::div_mod::lemma_div_is_ordered(x, 0x7fff_ffff_ffff_ffff, pk);
        vstd::arithmetic::div_mod::lemma_div_is_ordered(-0x8000_0000_0000_0000, x, pk);
        vstd::arithmetic::div_mod::lemma_div_is_ordered_by_denominator(0x7fff_ffff_ffff_ffff, 1, pk);
    }
    assert(s2 =~= Seq::new(l.len(), |i: int| shr(l[i], k)));
}

/// The token sampled from `logits` at temperature `temp` with rng state
/// `rs` (which advances by one transition).
pub open spec fn sample_spec(logits: Seq<Fx>, temp: Fx, rs: u64) -> u8 {
    let p = sample_probs(logits, temp);
    pick_spec(p, fmul_spec(unit_of(xorshift(rs)), sum_prefix(p, VOCAB as int)), 0) as u8
}

/// The next token: teacher-forced from the prefix, else sampled.
pub open spec fn gen_next(logits: Seq<Fx>, prefix: Seq<u8>, temp: Fx, rs: u64, pos: int) -> u8 {
    if pos < prefix.len() { prefix[pos] } else { sample_spec(logits, temp, rs) }
}

/// The rng state after choosing the token at `pos`.
pub open spec fn gen_rs(prefix: Seq<u8>, rs: u64, pos: int) -> u64 {
    if pos < prefix.len() { rs } else { xorshift(rs) }
}

/// State of a generation run: workspace, rng state, emitted tokens.
pub open spec fn gen_run(
    sv: ScratchV,
    w: Seq<Fx>,
    prefix: Seq<u8>,
    temp: Fx,
    rs: u64,
    pos: int,
    token: u8,
    out: Seq<u8>,
) -> (ScratchV, u64, Seq<u8>)
    decreases BLOCK - pos,
{
    if pos >= BLOCK {
        (sv, rs, out)
    } else {
        let fp = forward_pos_spec(sv, w, pos, token as int);
        let next = gen_next(fp.1, prefix, temp, rs, pos);
        if next == BOS {
            (fp.0, gen_rs(prefix, rs, pos), out)
        } else {
            gen_run(fp.0, w, prefix, temp, gen_rs(prefix, rs, pos), pos + 1, next, out.push(next))
        }
    }
}

/// The next token is a valid token id when the prefix is.
pub proof fn lemma_gen_next_range(logits: Seq<Fx>, prefix: Seq<u8>, temp: Fx, rs: u64, pos: int)
    requires
        forall|i: int| 0 <= i < prefix.len() ==> prefix[i] < VOCAB,
        0 <= pos,
    ensures
        gen_next(logits, prefix, temp, rs, pos) < VOCAB,
{
    if pos >= prefix.len() {
        let p = sample_probs(logits, temp);
        lemma_pick_range(p, fmul_spec(unit_of(xorshift(rs)), sum_prefix(p, VOCAB as int)), 0);
    }
}

/// Result of sampling a full name: workspace, rng state, tokens.
pub open spec fn generate_spec(sv: ScratchV, w: Seq<Fx>, prefix: Seq<u8>, temp: Fx, rs: u64) -> (ScratchV, u64, Seq<u8>) {
    gen_run(sv, w, prefix, temp, rs, 0, BOS, Seq::empty())
}

/// Emitted tokens are letters, at most one per position.
pub proof fn lemma_gen_run_tokens(
    sv: ScratchV,
    w: Seq<Fx>,
    prefix: Seq<u8>,
    temp: Fx,
    rs: u64,
    pos: int,
    token: u8,
    out: Seq<u8>,
)
    requires
        0 <= pos <= BLOCK,
        out.len() <= pos,
        forall|i: int| 0 <= i < prefix.len() ==> prefix[i] < VOCAB,
        forall|i: int| 0 <= i < out.len() ==> out[i] < BOS,
    ensures
        ({
            let r = gen_run(sv, w, prefix, temp, rs, pos, token, out);
            &&& r.2.len() <= BLOCK
            &&& r.2.len() >= out.len()
            &&& r.2.subrange(0, out.len() as int) == out
            &&& forall|i: int| 0 <= i < r.2.len() ==> r.2[i] < BOS
        }),
    decreases BLOCK - pos,
{
    if pos >= BLOCK {
        assert(out.subrange(0, out.len() as int) =~= out);
    } else {
        let fp = forward_pos_spec(sv, w, pos, token as int);
        let next = gen_next(fp.1, prefix, temp, rs, pos);
        lemma_gen_next_range(fp.1, prefix, temp, rs, pos);
        if next == BOS {
            assert(out.subrange(0, out.len() as int) =~= out);
        } else {
            let out1 = out.push(next);
            lemma_gen_run_tokens(fp.0, w, prefix, temp, gen_rs(prefix, rs, pos), pos + 1, next, out1);
            let r1 = gen_run(fp.0, w, prefix, temp, gen_rs(prefix, rs, pos), pos + 1, next, out1);
            assert(r1.2.subrange(0, out.len() as int) =~= r1.2.subrange(0, out1.len() as int).subrange(0, out.len() as int));
            assert(out1.subrange(0, out.len() as int) =~= out);
        }
    }
}

/// The pick is a token index.
pub proof fn lemma_pick_range(p: Seq<Fx>, r: Fx, from: int)
    requires
        0 <= from,
    ensures
        0 <= pick_spec(p, r, from) < VOCAB,
    decreases VOCAB - from,
{
    if from < VOCAB && !(r < p[from]) {
        lemma_pick_range(p, wsub(r, p[from]), from + 1);
    }
}

/// A prefix without BOS is reproduced at the start of the generated name.
pub proof fn lemma_gen_run_prefix(
    sv: ScratchV,
    w: Seq<Fx>,
    prefix: Seq<u8>,
    temp: Fx,
    rs: u64,
    pos: int,
    token: u8,
    out: Seq<u8>,
)
    requires
        0 <= pos <= prefix.len() < BLOCK,
        out == prefix.subrange(0, pos),
        forall|i: int| 0 <= i < prefix.len() ==> prefix[i] < BOS,
    ensures
        ({
            let r = gen_run(sv, w, prefix, temp, rs, pos, token, out);
            &&& r.2.len() >= prefix.len()
            &&& r.2.subrange(0, prefix.len() as int) == prefix
        }),
    decreases BLOCK - pos,
{
    let forall_tokens = forall|i: int| 0 <= i < prefix.len() ==> prefix[i] < VOCAB;
    assert(forall_tokens);
    if pos == prefix.len() {
        assert forall|i: int| 0 <= i < out.len() implies out[i] < BOS by {}
        lemma_gen_run_tokens(sv, w, prefix, temp, rs, pos, token, out);
    } else {
        let fp = forward_pos_spec(sv, w, pos, token as int);
        let next = prefix[pos];
        assert(prefix.subrange(0, pos + 1) =~= out.push(next));
        lemma_gen_run_prefix(fp.0, w, prefix, temp, rs, pos + 1, next, out.push(next));
    }
}

/// Sample the next token from raw logits at temperature `temp`.
fn sample_token(logits: Vec<Fx>, temp: Fx, rng: &mut Rng) -> (next: u8)
    requires
        logits@.len() == VOCAB,
        temp > 0,
    ensures
        next == sample_spec(logits@, temp, old(rng).0),
        final(rng).0 == xorshift(old(rng).0),
{
    let mut logits = logits;
    let inv_temp = fdiv(ONE, temp);
    let ghost raw = logits@;
    let mut i: usize = 0;
    while i < VOCAB
        invariant
            i <= VOCAB,
            logits@.len() == VOCAB,
            raw.len() == VOCAB,
            inv_temp == fdiv_spec(ONE, temp),
            forall|j: int| 0 <= j < i ==> logits@[j] == fmul_spec(raw[j], inv_temp),
            forall|j: int| i <= j < VOCAB ==> logits@[j] == raw[j],
        decreases VOCAB - i,
    {
        let v = fmul(logits[i], inv_temp);
        logits.set(i, v);
        i = i + 1;
    }
    assert(logits@ =~= Seq::new(raw.len(), |j: int| fmul_spec(raw[j], inv_temp)));
    softmax_inplace(&mut logits, VOCAB);
    let ghost p = logits@;
    assert(p == sample_probs(raw, temp));
    let mut total: Fx = 0;
    let mut i: usize = 0;
    while i < VOCAB
        invariant
            i <= VOCAB,
            logits@ == p,
            p.len() == VOCAB,
            total == sum_prefix(p, i as int),
        decreases VOCAB - i,
    {
        total = total.wrapping_add(logits[i]);
        i = i + 1;
    }
    let u = rng.next_unit();
    let mut r = fmul(u, total);
    let ghost r0 = r;
    let mut picked: u8 = (VOCAB - 1) as u8;
    let mut i: usize = 0;
    while i < VOCAB
        invariant_except_break
            i <= VOCAB,
            logits@ == p,
            p.len() == VOCAB,
            picked == VOCAB - 1,
            pick_spec(p, r, i as int) == pick_spec(p, r0, 0),
        ensures
            picked == pick_spec(p, r0, 0),
        decreases VOCAB - i,
    {
        if r < logits[i] {
            picked = i as u8;
            break;
        }
        r = r.wrapping_sub(logits[i]);
        i = i + 1;
    }
    picked
}

/// Autoregressive sampling, faithful to microgpt inference: start from BOS,
/// teacher-force `prefix`, then sample with temperature `temp` until BOS or
/// the context window ends. Writes the tokens (prefix included) to the front
/// of `out` and returns how many.
pub fn generate(
    w: &Weights,
    s: &mut Scratch,
    prefix: &[u8],
    temp: Fx,
    rng: &mut Rng,
    out: &mut Vec<u8>,
) -> (n: usize)
    requires
        old(s)@.wf(),
        w.params@.len() == N_PARAMS,
        temp > 0,
        prefix@.len() < BLOCK,
        forall|i: int| 0 <= i < prefix@.len() ==> prefix@[i] < VOCAB,
        old(out)@.len() == BLOCK,
    ensures
        ({
            let (sv, rs, toks) = generate_spec(old(s)@, w.params@, prefix@, temp, old(rng).0);
            &&& final(s)@ == sv
            &&& final(rng).0 == rs
            &&& n == toks.len()
            &&& final(out)@.subrange(0, n as int) == toks
            &&& final(out)@.subrange(n as int, BLOCK as int) == old(out)@.subrange(n as int, BLOCK as int)
        }),
        final(s)@.wf(),
        final(out)@.len() == BLOCK,
        n <= BLOCK,
        forall|i: int| 0 <= i < n ==> final(out)@[i] < BOS,
        (forall|i: int| 0 <= i < prefix@.len() ==> prefix@[i] < BOS) ==> (
            n >= prefix@.len() && final(out)@.subrange(0, prefix@.len() as int) == prefix@),
{
    let ghost target = generate_spec(old(s)@, w.params@, prefix@, temp, old(rng).0);
    let ghost out0 = out@;
    proof {
        lemma_gen_run_tokens(old(s)@, w.params@, prefix@, temp, old(rng).0, 0, BOS, Seq::empty());
        if forall|i: int| 0 <= i < prefix@.len() ==> prefix@[i] < BOS {
            assert(Seq::<u8>::empty() =~= prefix@.subrange(0, 0));
            lemma_gen_run_prefix(old(s)@, w.params@, prefix@, temp, old(rng).0, 0, BOS, Seq::empty());
        }
    }
    let mut token: u8 = BOS;
    let mut n_out: usize = 0;
    let mut pos: usize = 0;
    assert(out@.subrange(0, 0) =~= Seq::<u8>::empty());
    while pos < BLOCK
        invariant_except_break
            pos <= BLOCK,
            n_out <= pos,
            s@.wf(),
            w.params@.len() == N_PARAMS,
            temp > 0,
            prefix@.len() < BLOCK,
            forall|i: int| 0 <= i < prefix@.len() ==> prefix@[i] < VOCAB,
            token < VOCAB,
            out@.len() == BLOCK,
            out0.len() == BLOCK,
            out@.subrange(n_out as int, BLOCK as int) == out0.subrange(n_out as int, BLOCK as int),
            gen_run(s@, w.params@, prefix@, temp, rng.0, pos as int, token, out@.subrange(0, n_out as int)) == target,
        ensures
            s@ == target.0,
            rng.0 == target.1,
            out@.subrange(0, n_out as int) == target.2,
            out@.len() == BLOCK,
            out0.len() == BLOCK,
            n_out <= BLOCK,
            out@.subrange(n_out as int, BLOCK as int) == out0.subrange(n_out as int, BLOCK as int),
            s@.wf(),
        decreases BLOCK - pos,
    {
        let ghost sv0 = s@;
        let ghost rs0 = rng.0;
        let mut logits = forward_pos(w, s, pos, token as usize);
        let next: u8 = if pos < prefix.len() {
            prefix[pos]
        } else {
            sample_token(logits, temp, rng)
        };
        proof {
            lemma_gen_next_range(forward_pos_spec(sv0, w.params@, pos as int, token as int).1, prefix@, temp, rs0, pos as int);
        }
        if next == BOS {
            break;
        }
        let ghost before = out@;
        out.set(n_out, next);
        proof {
            assert(out@.subrange(0, n_out + 1) =~= before.subrange(0, n_out as int).push(next));
            assert(out@.subrange(n_out + 1, BLOCK as int) =~= before.subrange(n_out as int, BLOCK as int).subrange(1, BLOCK - n_out));
            assert(out0.subrange(n_out + 1, BLOCK as int) =~= out0.subrange(n_out as int, BLOCK as int).subrange(1, BLOCK - n_out));
        }
        n_out = n_out + 1;
        token = next;
        pos = pos + 1;
    }
    proof {
        assert forall|i: int| 0 <= i < n_out implies out@[i] < BOS by {
            assert(out@[i] == out@.subrange(0, n_out as int)[i]);
        }
        if forall|i: int| 0 <= i < prefix@.len() ==> prefix@[i] < BOS {
            assert(out@.subrange(0, prefix@.len() as int) =~= out@.subrange(0, n_out as int).subrange(0, prefix@.len() as int));
        }
    }
    n_out
}

/// Tokenize an ASCII lowercase letter. Returns None on other bytes.
pub fn tokenize(ch: u8) -> (r: Option<u8>)
    ensures
        (97u8 <= ch <= 122u8) ==> r == Some((ch - 97u8) as u8),
        !(97u8 <= ch <= 122u8) ==> r is None,
        r matches Some(t) ==> t < BOS && detok_spec(t) == ch,
{
    if 97u8 <= ch && ch <= 122u8 {
        Some(ch - 97u8)
    } else {
        None
    }
}

/// ASCII letter of a token id.
pub open spec fn detok_spec(tok: u8) -> u8 {
    (97u8 + tok) as u8
}

/// Token id back to ASCII.
pub fn detokenize(tok: u8) -> (ch: u8)
    requires
        tok < BOS,
    ensures
        ch == detok_spec(tok),
        97u8 <= ch <= 122u8,
{
    97u8 + tok
}

/// The BOS-delimited token sequence of a name given by its letters' bytes.
pub open spec fn name_doc(b: Seq<u8>) -> Seq<u8> {
    seq![BOS] + Seq::new(b.len(), |i: int| (b[i] - 97) as u8) + seq![BOS]
}

/// BOS-delimited token sequence for a name: token `c - 'a'` per letter.
pub fn doc_tokens(name: &str) -> (t: Vec<u8>)
    requires
        forall|i: int| 0 <= i < name.spec_bytes().len() ==> 97 <= #[trigger] name.spec_bytes()[i],
    ensures
        t@ == name_doc(name.spec_bytes()),
{
    let b = name.as_bytes();
    let mut t: Vec<u8> = Vec::new();
    t.push(BOS);
    let mut i: usize = 0;
    while i < b.len()
        invariant
            i <= b@.len(),
            b@ == name.spec_bytes(),
            forall|j: int| 0 <= j < b@.len() ==> 97 <= #[trigger] b@[j],
            t@ == seq![BOS] + Seq::new(i as nat, |j: int| (b@[j] - 97) as u8),
        decreases b@.len() - i,
    {
        t.push(b[i] - 97);
        i = i + 1;
        assert(t@ =~= seq![BOS] + Seq::new(i as nat, |j: int| (b@[j] - 97) as u8));
    }
    t.push(BOS);
    assert(t@ =~= name_doc(name.spec_bytes()));
    t
}

} // verus!
