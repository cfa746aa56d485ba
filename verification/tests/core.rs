use p_gpt::fixed::{fdiv, fmul, Fx, ONE};
use p_gpt::math::{exp_fx, ln_fx, sqrt_fx};
use p_gpt::rng::Rng;

fn to_f64(x: Fx) -> f64 {
    x as f64 / ONE as f64
}

fn from_f64(x: f64) -> Fx {
    (x * ONE as f64) as i64
}

#[test]
fn mul_div_roundtrip() {
    let a = ONE * 3 / 2; // 1.5
    let b = ONE * 5 / 4; // 1.25
    assert!((to_f64(fmul(a, b)) - 1.875).abs() < 1e-9);
    assert!((to_f64(fdiv(a, b)) - 1.2).abs() < 1e-9);
    assert_eq!(fmul(-a, b), -fmul(a, b));
}

#[test]
fn exp_matches_std() {
    for i in 0..2200 {
        let x = -i as f64 * 0.01;
        let got = to_f64(exp_fx(from_f64(x)));
        let want = x.exp();
        assert!((got - want).abs() < 5e-7, "exp({x}): {got} vs {want}");
    }
}

#[test]
fn sqrt_matches_std() {
    for i in 1..5000u32 {
        let x = i as f64 * 0.037;
        let got = to_f64(sqrt_fx(from_f64(x)));
        let want = x.sqrt();
        assert!((got - want).abs() < 1e-6, "sqrt({x}): {got} vs {want}");
    }
}

#[test]
fn ln_matches_std() {
    for i in 1..5000u32 {
        let x = i as f64 * 0.0093;
        let got = to_f64(ln_fx(from_f64(x)));
        let want = x.ln();
        assert!((got - want).abs() < 1e-6, "ln({x}): {got} vs {want}");
    }
}

#[test]
fn gauss_moments() {
    let mut rng = Rng::new(42);
    let n = 100_000;
    let (mut sum, mut sum2) = (0f64, 0f64);
    for _ in 0..n {
        let g = rng.next_gauss() as f64 / ONE as f64;
        sum += g;
        sum2 += g * g;
    }
    let mean = sum / n as f64;
    let var = sum2 / n as f64 - mean * mean;
    assert!(mean.abs() < 0.01, "mean {mean}");
    assert!((var - 1.0).abs() < 0.02, "var {var}");
}
