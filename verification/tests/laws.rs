use p_gpt::adam::{adam_range, fdiv_fast, AdamParams};
use p_gpt::backprop::train_fwd_bwd;
use p_gpt::fixed::{fdiv, fmul, fmul16, Fx, ONE};
use p_gpt::math::{exp_fx, ln_fx, sqrt_fx, sqrt_fx_coarse, LN2};
use p_gpt::model::{forward_pos, linear, linear_t, softmax_inplace, Moments, Scratch, Weights, BOS, N_PARAMS};
use p_gpt::program::pick_doc_index;
use p_gpt::rng::Rng;

fn weights(seed: u64) -> Weights {
    let mut w = Weights::new();
    w.init_range(0, N_PARAMS, &mut Rng::new(seed));
    w
}

fn doc(name: &str) -> Vec<u8> {
    let mut t = vec![BOS];
    t.extend(name.bytes().map(|b| b - b'a'));
    t.push(BOS);
    t
}

#[test]
fn coarse_root_brackets_the_exact_root() {
    for &x in &[0i64, 1, 2, 3, ONE / 7, ONE, 2 * ONE, 12_345_678_901, 1 << 40, i64::MAX] {
        let c = sqrt_fx_coarse(x);
        let e = sqrt_fx(x);
        assert_eq!(c % 65536, 0);
        assert!(c <= e && e < c + 65536, "x={x} coarse={c} exact={e}");
    }
    assert_eq!(sqrt_fx_coarse(4 * ONE), 2 * ONE);
}

#[test]
fn transposed_product_is_the_product_with_the_transpose() {
    // A 3 x 2 matrix at offset 1 of a flat buffer, and its 2 x 3 transpose.
    let w: Vec<Fx> = vec![99, 3 * ONE, -ONE, ONE / 2, 5 * ONE, -2 * ONE, ONE];
    let wt: Vec<Fx> = vec![3 * ONE, ONE / 2, -2 * ONE, -ONE, 5 * ONE, ONE];
    let dy: Vec<Fx> = vec![ONE, 2 * ONE, -ONE];
    let a = linear_t(&w, 1, 3, 2, &dy);
    let b = linear(&wt, 0, 2, 3, &dy);
    assert_eq!(a, b);
    // 3 + 1 + 2 = 6 and -1 + 10 - 1 = 8.
    assert_eq!(a, vec![6 * ONE, 8 * ONE]);
}

#[test]
fn fast_division_agrees_for_negative_divisors() {
    for &(a, b) in &[(ONE / 3, -ONE), (-ONE / 5, -3 * ONE), (12345, -7), ((1 << 29) - 1, -ONE / 2), (3 * ONE, -ONE)] {
        assert_eq!(fdiv_fast(a, b), fdiv(a, b));
    }
    assert_eq!(fdiv_fast(ONE / 2, -ONE), -ONE / 2);
}

#[test]
fn exp_on_the_softmax_domain_is_at_most_one() {
    assert_eq!(exp_fx(0), ONE);
    for &x in &[-1i64, -ONE / 1000, -ONE, -5 * ONE, -21 * ONE, -22 * ONE, -23 * ONE, i64::MIN] {
        let e = exp_fx(x);
        assert!((0..=ONE).contains(&e), "exp({x}) = {e}");
        assert!(e < ONE);
    }
}

#[test]
fn log_of_a_probability_is_non_positive() {
    assert_eq!(ln_fx(ONE), 0);
    for &x in &[1i64, 2, 1000, ONE / 3, ONE / 2, ONE - 1] {
        let l = ln_fx(x);
        assert!(-32 * LN2 <= l && l < 0, "ln({x}) = {l}");
    }
}

#[test]
fn softmax_outputs_are_probabilities() {
    let cases: Vec<Vec<Fx>> = vec![
        vec![0, 0, 0],
        vec![5 * ONE, -3 * ONE, ONE, 40 * ONE, -40 * ONE],
        vec![1 << 61, -(1 << 61), 0, 7],
        vec![i64::MAX, 0, i64::MAX - ONE, 1],
        vec![i64::MIN, -1, i64::MIN + 3 * ONE],
        (0..27).map(|i| (i as i64 - 13) * ONE / 4).collect(),
    ];
    for l in cases {
        let n = l.len();
        let mut p = l.clone();
        softmax_inplace(&mut p, n);
        let mut sum: i64 = 0;
        for &x in &p {
            assert!((0..=ONE).contains(&x));
            sum += x;
        }
        assert!(0 < sum && sum <= ONE, "sum = {sum}");
    }
}

#[test]
fn forward_position_reads_only_earlier_cache_rows() {
    let w = weights(42);
    let toks = doc("isabella");
    let t = 4;
    // Workspace A runs positions 0..t of the document; workspace B first runs
    // a different, longer document, then the same positions.
    let mut a = Scratch::new();
    let mut b = Scratch::new();
    let other = doc("christopher");
    for (p, &tok) in other.iter().take(12).enumerate() {
        forward_pos(&w, &mut b, p, tok as usize);
    }
    for p in 0..t {
        forward_pos(&w, &mut a, p, toks[p] as usize);
        forward_pos(&w, &mut b, p, toks[p] as usize);
    }
    assert_ne!(a.k[t + 1], b.k[t + 1]);
    let la = forward_pos(&w, &mut a, t, toks[t] as usize);
    let lb = forward_pos(&w, &mut b, t, toks[t] as usize);
    assert_eq!(la, lb);
    assert_eq!(a.x3[t], b.x3[t]);
    assert_eq!(a.k[t], b.k[t]);
    // Rows of later positions are left as they were.
    assert_ne!(a.x0[t + 1], b.x0[t + 1]);
    assert!(a.x0[t + 1].iter().all(|&v| v == 0));
}

#[test]
fn training_loss_is_non_negative() {
    let w = weights(42);
    let mut s = Scratch::new();
    for name in ["a", "emma", "olivia", "christopherjohn", "zz"] {
        let loss = train_fwd_bwd(&w, &mut s, &doc(name));
        assert!(loss >= 0, "{name}: {loss}");
    }
}

#[test]
fn adam_accepts_any_bias_power_but_one() {
    // A power above ONE gives a negative correction term; far out of range
    // it wraps in two's complement rather than failing.
    let grads = vec![ONE / 10; N_PARAMS];
    for &pow in &[ONE + 5, -ONE, i64::MIN, i64::MAX] {
        let mut w = weights(1);
        let before = w.params.clone();
        let mut mom = Moments::new();
        let p = AdamParams { lr_t: ONE / 100, pow_beta1: pow, pow_beta2: pow };
        adam_range(&mut w, &mut mom, &grads, 8, 16, p);
        assert_eq!(w.params[..8], before[..8]);
        assert_eq!(w.params[16..], before[16..]);
        assert!(mom.m[8..16].iter().all(|&m| m != 0));
    }
}

#[test]
fn stride_walk_visits_every_record_once_per_round() {
    for &n in &[1u64, 7, 48, 1000] {
        for &start in &[0u64, 5, 123_456] {
            let mut seen = vec![false; n as usize];
            for step in start..start + n {
                let (community, idx) = pick_doc_index(step, n, 0);
                assert!(!community);
                assert!(!seen[idx as usize], "n={n} start={start} step={step}");
                seen[idx as usize] = true;
            }
            assert!(seen.iter().all(|&b| b));
        }
    }
}

#[test]
fn fast_product_is_exact_below_two_to_the_thirty_one() {
    assert_eq!(fmul16(ONE, ONE), ONE);
    let cases = [
        (3 * ONE + 12345, -(7 * ONE) - 99),
        (-(1i64 << 46), (1i64 << 46) - 1),
        (ONE / 3, ONE / 7),
        (-5, 123_456_789),
    ];
    for &(a, b) in &cases {
        let (x, y) = (a >> 16, b >> 16);
        assert_eq!(fmul16(a, b), x * y);
        assert_eq!(fmul16(a, b), fmul(x << 16, y << 16));
    }
}
