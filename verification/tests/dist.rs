//! Distributions and random draws.

use rand::Rng;
use rand_chacha::ChaCha8Rng;
use tailbench::binary64::Binary64;
use tailbench::distributions::{ClosedForm, Distribution, DistributionError, Draw};
use tailbench::gamma::burst_parameters;
use tailbench::normal::{inverse_standard_normal_cdf, normal_region, Region};
use tailbench::rng::call_rng;

fn b(x: f64) -> Binary64 {
    Binary64::from_bits(x.to_bits())
}

fn f(x: Binary64) -> f64 {
    f64::from_bits(x.to_bits())
}

/// What a draw comes to.
fn evaluate(draw: Draw, rng: &mut ChaCha8Rng) -> f64 {
    match draw {
        Draw::Ms { ms } => f(ms),
        Draw::Between { min_ms, max_ms } => rng.gen_range(f(min_ms)..=f(max_ms)),
        Draw::Normal { median_ms, sigma, u1, u2 } => {
            let u1 = f(u1).max(f64::MIN_POSITIVE);
            let z = (-2.0 * u1.ln()).sqrt() * (2.0 * std::f64::consts::PI * f(u2)).cos();
            f(median_ms) * (f(sigma) * z).exp()
        }
        Draw::Power { scale_ms, base, exponent } => f(scale_ms) * f(base).powf(f(exponent)),
    }
}

fn normal_quantile(q: f64) -> f64 {
    let root = match normal_region(b(q)) {
        Region::Lower => (-2.0 * q.ln()).sqrt(),
        Region::Central => 0.0,
        Region::Upper => (-2.0 * (1.0 - q).ln()).sqrt(),
    };
    f(inverse_standard_normal_cdf(b(q), b(root)))
}

fn close(form: ClosedForm) -> f64 {
    match form {
        ClosedForm::Ms { ms } => f(ms),
        ClosedForm::NormalQuantile { median_ms, sigma, q } => {
            f(median_ms) * (f(sigma) * normal_quantile(f(q))).exp()
        }
        ClosedForm::Exponential { scale_ms, exponent } => f(scale_ms) * f(exponent).exp(),
        ClosedForm::Power { scale_ms, base, exponent } => {
            f(scale_ms) * f(base).powf(f(exponent))
        }
    }
}

fn sample_n(d: &Distribution, n: usize, seed: u64) -> Vec<f64> {
    let mut rng = call_rng(seed, 0, 0, 0);
    let mut v: Vec<f64> = (0..n)
        .map(|_| {
            let draw = d.sample_ms(&mut rng);
            evaluate(draw, &mut rng)
        })
        .collect();
    v.sort_by(|a, b| a.partial_cmp(b).unwrap());
    v
}

fn quantile(sorted: &[f64], q: f64) -> f64 {
    sorted[((q * sorted.len() as f64) as usize).min(sorted.len() - 1)]
}

fn lognormal() -> Distribution {
    Distribution::LogNormal { median_ms: b(8.0), sigma: b(0.6) }
}

#[test]
fn quantiles_converge_to_closed_form() {
    let cases = vec![
        Distribution::Constant { ms: b(5.0) },
        Distribution::Uniform { min_ms: b(1.0), max_ms: b(9.0) },
        lognormal(),
        Distribution::Pareto { scale_ms: b(4.0), alpha: b(3.0) },
    ];
    for d in cases {
        let s = sample_n(&d, 200_000, 7);
        for q in [0.5, 0.9, 0.99] {
            let measured = quantile(&s, q);
            let analytic = close(d.analytic_quantile(b(q)).unwrap());
            let rel = (measured - analytic).abs() / analytic.max(1e-9);
            assert!(
                rel < 0.05,
                "{d:?} q={q}: measured {measured:.3} vs analytic {analytic:.3}"
            );
        }
    }
}

/// Bimodal models a cache miss, and is where mean and p99 diverge hardest.
#[test]
fn bimodal_slow_fraction_and_p99() {
    let d = Distribution::Bimodal { fast_ms: b(3.0), slow_ms: b(180.0), p_slow: b(0.02) };
    let n = 200_000;
    let s = sample_n(&d, n, 11);
    let slow = s.iter().filter(|x| **x > 100.0).count() as f64 / n as f64;
    // Binomial CI at n=200k, p=0.02 is about +/- 0.0006; allow 3x.
    assert!((slow - 0.02).abs() < 0.002, "slow fraction {slow}");
    // p99 is exactly slow_ms whenever p_slow > 0.01.
    assert_eq!(quantile(&s, 0.99), 180.0);
    // Mean stays near 6.5ms -- a 28x gap to p99.
    let mean: f64 = s.iter().sum::<f64>() / n as f64;
    assert!(
        (mean - close(d.analytic_mean().unwrap())).abs() < 0.5,
        "mean {mean}"
    );
}

#[test]
fn same_seed_same_sequence() {
    let d = lognormal();
    assert_eq!(sample_n(&d, 1000, 3), sample_n(&d, 1000, 3));
    assert_ne!(sample_n(&d, 1000, 3), sample_n(&d, 1000, 4));
}

fn draw(rid: u64, ds: u16, att: u32) -> f64 {
    let mut r = call_rng(42, rid, ds, att);
    let drawn = lognormal().sample_ms(&mut r);
    evaluate(drawn, &mut r)
}

/// A draw depends only on its key, never on call order.
#[test]
fn draws_are_order_independent() {
    let forward: Vec<f64> = (0..500).map(|i| draw(i, 1, 0)).collect();
    let backward: Vec<f64> = (0..500).rev().map(|i| draw(i, 1, 0)).collect();
    let mut b = backward;
    b.reverse();
    assert_eq!(forward, b, "draw order changed the values");
}

#[test]
fn distinct_keys_give_distinct_draws() {
    assert_ne!(draw(1, 0, 0), draw(2, 0, 0), "request_id ignored");
    assert_ne!(draw(1, 0, 0), draw(1, 1, 0), "downstream_id ignored");
    // attempt is in the key so that retries do not collide.
    assert_ne!(draw(1, 0, 0), draw(1, 0, 1), "attempt ignored");
}

/// Swapping two field values must not reproduce a stream.
#[test]
fn swapped_fields_do_not_collide() {
    // downstream_id 0 is the first-declared downstream -- the common case.
    assert_ne!(draw(1, 0, 2), draw(2, 0, 1), "request_id/attempt swap collides");
    assert_ne!(draw(3, 0, 1), draw(1, 0, 3), "request_id/attempt swap collides");
    // The degenerate case: request_id == attempt.
    assert_ne!(draw(0, 0, 0), draw(1, 0, 1), "request_id == attempt collapses");
    assert_ne!(draw(2, 0, 2), draw(3, 0, 3), "request_id == attempt collapses");
    // request_id/downstream_id swap.
    assert_ne!(draw(1, 2, 0), draw(2, 1, 0), "request_id/downstream swap collides");

    // Exhaustive over a small grid: every distinct tuple, a distinct draw.
    let mut seen = std::collections::HashMap::new();
    for rid in 0..40u64 {
        for ds in 0..4u16 {
            for att in 0..4u32 {
                let bits = draw(rid, ds, att).to_bits();
                if let Some(prev) = seen.insert(bits, (rid, ds, att)) {
                    panic!("{prev:?} and {:?} share a stream", (rid, ds, att));
                }
            }
        }
    }
}

#[test]
fn pareto_rejects_infinite_mean() {
    assert!(Distribution::Pareto { scale_ms: b(1.0), alpha: b(0.9) }.validate().is_err());
    assert!(Distribution::Pareto { scale_ms: b(1.0), alpha: b(1.5) }.validate().is_ok());
}

#[test]
fn every_distribution_fault_is_found() {
    let cases = vec![
        (
            Distribution::Constant { ms: b(f64::NAN) },
            DistributionError::ConstantMs { ms: b(f64::NAN) },
        ),
        (
            Distribution::Uniform { min_ms: b(-1.0), max_ms: b(1.0) },
            DistributionError::UniformBounds { min_ms: b(-1.0), max_ms: b(1.0) },
        ),
        (
            Distribution::Uniform { min_ms: b(2.0), max_ms: b(1.0) },
            DistributionError::UniformOrder { min_ms: b(2.0), max_ms: b(1.0) },
        ),
        (
            Distribution::LogNormal { median_ms: b(0.0), sigma: b(1.0) },
            DistributionError::LogNormalMedian { median_ms: b(0.0) },
        ),
        (
            Distribution::LogNormal { median_ms: b(1.0), sigma: b(0.0) },
            DistributionError::LogNormalSigma { sigma: b(0.0) },
        ),
        (
            Distribution::Bimodal { fast_ms: b(1.0), slow_ms: b(f64::INFINITY), p_slow: b(0.5) },
            DistributionError::BimodalBounds { fast_ms: b(1.0), slow_ms: b(f64::INFINITY) },
        ),
        (
            Distribution::Bimodal { fast_ms: b(3.0), slow_ms: b(2.0), p_slow: b(0.5) },
            DistributionError::BimodalOrder { fast_ms: b(3.0), slow_ms: b(2.0) },
        ),
        (
            Distribution::Bimodal { fast_ms: b(1.0), slow_ms: b(2.0), p_slow: b(1.5) },
            DistributionError::BimodalShare { p_slow: b(1.5) },
        ),
        (
            Distribution::Pareto { scale_ms: b(0.0), alpha: b(2.0) },
            DistributionError::ParetoScale { scale_ms: b(0.0) },
        ),
        (
            Distribution::Pareto { scale_ms: b(1.0), alpha: b(1.0) },
            DistributionError::ParetoAlpha { alpha: b(1.0) },
        ),
        (Distribution::Empirical { samples_ms: vec![] }, DistributionError::EmpiricalEmpty),
        (
            Distribution::Empirical { samples_ms: vec![b(1.0), b(-0.5), b(f64::NAN)] },
            DistributionError::EmpiricalSamples { ms: b(-0.5) },
        ),
    ];
    for (d, e) in cases {
        assert_eq!(d.validate(), Err(e));
    }
    for d in [
        Distribution::Constant { ms: b(-0.0) },
        Distribution::Uniform { min_ms: b(1.0), max_ms: b(1.0) },
        lognormal(),
        Distribution::Bimodal { fast_ms: b(1.0), slow_ms: b(2.0), p_slow: b(1.0) },
        Distribution::Empirical { samples_ms: vec![b(0.0)] },
    ] {
        assert_eq!(d.validate(), Ok(()));
    }
}

#[test]
fn unit_draws_match_the_generator() {
    let mut ours = call_rng(9, 8, 7, 6);
    let mut theirs = call_rng(9, 8, 7, 6);
    for _ in 0..100 {
        let x = tailbench::rng::unit_draw(&mut ours);
        assert_eq!(f(x), theirs.gen::<f64>());
    }
}

#[test]
fn index_draws_match_the_generator() {
    let mut ours = call_rng(1, 2, 3, 4);
    let mut theirs = call_rng(1, 2, 3, 4);
    for n in 1..200usize {
        assert_eq!(tailbench::rng::index_draw(&mut ours, n), theirs.gen_range(0..n));
    }
}

#[test]
fn empirical_draws_are_samples() {
    let samples: Vec<Binary64> = [4.0, 5.0, 6.0].iter().map(|x| b(*x)).collect();
    let d = Distribution::Empirical { samples_ms: samples };
    let s = sample_n(&d, 3000, 5);
    for x in [4.0, 5.0, 6.0] {
        let share = s.iter().filter(|y| **y == x).count();
        assert!((800..1200).contains(&share), "{x} drawn {share} times");
    }
}

#[test]
fn closed_forms_have_known_values() {
    let u = Distribution::Uniform { min_ms: b(1.0), max_ms: b(9.0) };
    assert_eq!(close(u.analytic_quantile(b(0.25)).unwrap()), 3.0);
    assert_eq!(close(u.analytic_mean().unwrap()), 5.0);
    let m = Distribution::Bimodal { fast_ms: b(3.0), slow_ms: b(180.0), p_slow: b(0.02) };
    assert_eq!(close(m.analytic_quantile(b(0.97)).unwrap()), 3.0);
    assert_eq!(close(m.analytic_quantile(b(0.98)).unwrap()), 180.0);
    let p = Distribution::Pareto { scale_ms: b(4.0), alpha: b(3.0) };
    assert_eq!(close(p.analytic_mean().unwrap()), 6.0);
    assert!((close(p.analytic_quantile(b(0.875)).unwrap()) - 8.0).abs() < 1e-9);
    let e = Distribution::Empirical { samples_ms: vec![b(1.0), b(2.0), b(6.0)] };
    assert_eq!(close(e.analytic_mean().unwrap()), 3.0);
    assert!(e.analytic_quantile(b(0.5)).is_none());
    let l = lognormal();
    assert!((close(l.analytic_quantile(b(0.5)).unwrap()) - 8.0).abs() < 1e-6);
    assert!((close(l.analytic_mean().unwrap()) - 8.0 * (0.18f64).exp()).abs() < 1e-12);
}

#[test]
fn normal_quantiles_are_known() {
    for (p, z) in [
        (0.5, 0.0),
        (0.975, 1.959963984540054),
        (0.99, 2.3263478740408408),
        (0.01, -2.3263478740408408),
        (0.999, 3.090232306167813),
        (0.84134474606854, 1.0),
    ] {
        assert!((normal_quantile(p) - z).abs() < 1e-8, "{p}: {}", normal_quantile(p));
    }
    assert_eq!(normal_region(b(0.02)), Region::Lower);
    assert_eq!(normal_region(b(0.02425)), Region::Central);
    assert_eq!(normal_region(b(0.98)), Region::Upper);
}

#[test]
fn normal_quantiles_mirror_each_other() {
    assert_eq!(normal_quantile(0.5), 0.0);
    for i in 1..512 {
        let p = i as f64 / 1024.0;
        assert_eq!(normal_quantile(1.0 - p), -normal_quantile(p), "{p}");
    }
    // The edge of the central region lies inside, its mirror image outside.
    let edge: f64 = 1.0 - 0.02425;
    assert_eq!(normal_region(b(edge)), Region::Central);
    assert_eq!(normal_region(b(1.0 - edge)), Region::Lower);
    assert!((normal_quantile(edge) + normal_quantile(1.0 - edge)).abs() < 1e-8);
}

#[test]
fn more_than_one_percent_slow_makes_the_p99_slow() {
    for (p_slow, p99) in [(0.02, 180.0), (0.010000000000000002, 180.0), (0.009, 3.0)] {
        let d = Distribution::Bimodal { fast_ms: b(3.0), slow_ms: b(180.0), p_slow: b(p_slow) };
        assert_eq!(d.analytic_quantile(b(0.99)), Some(ClosedForm::Ms { ms: b(p99) }));
    }
}

#[test]
fn poisson_is_the_burst_of_cv_one() {
    for rate in [0.1, 3.0, 300.0] {
        let (shape, scale) = burst_parameters(b(rate), b(1.0));
        assert_eq!((shape, scale), (b(1.0), b(1.0 / rate)));
    }
}

#[test]
fn nothing_lies_below_the_lowest_quantile() {
    assert_eq!(lognormal().analytic_quantile(b(0.0)), Some(ClosedForm::Ms { ms: b(0.0) }));
    assert_eq!(lognormal().analytic_quantile(b(-0.0)), Some(ClosedForm::Ms { ms: b(0.0) }));
    let z = inverse_standard_normal_cdf(b(0.0), b(f64::INFINITY));
    assert_eq!(f(z), f64::NEG_INFINITY);
}

#[test]
fn quantiles_grow() {
    for d in [
        Distribution::Constant { ms: b(3.0) },
        Distribution::Uniform { min_ms: b(1.0), max_ms: b(9.0) },
        lognormal(),
        Distribution::Bimodal { fast_ms: b(3.0), slow_ms: b(180.0), p_slow: b(0.02) },
        Distribution::Pareto { scale_ms: b(4.0), alpha: b(1.5) },
    ] {
        let xs: Vec<f64> =
            (0..1000).map(|i| close(d.analytic_quantile(b(i as f64 / 1000.0)).unwrap())).collect();
        assert!(xs[0] >= 0.0, "{d:?}");
        assert!(xs.windows(2).all(|w| w[0] <= w[1]), "{d:?}");
    }
}
