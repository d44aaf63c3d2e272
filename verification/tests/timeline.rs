//! Schedules.

use rand::Rng;
use tailbench::binary64::Binary64;
use tailbench::clock::{duration_to_ms, duration_to_secs, ms_to_duration, ns_since};
use tailbench::config::{
    Arrival, Config, DownstreamCfg, Load, RequestClassCfg, Scenario, Slo,
};
use tailbench::distributions::Distribution;
use tailbench::gamma::{accepted, burst_parameters, candidate, needs_boost, shape_constants};
use tailbench::rng::{class_rng, payload_nonce};
use tailbench::timeline::{generate_offsets, Arrivals, Offsets, Timeline};

fn b(x: f64) -> Binary64 {
    Binary64::from_bits(x.to_bits())
}

fn f(x: Binary64) -> f64 {
    f64::from_bits(x.to_bits())
}

fn cfg(arrival: Arrival, rate: f64, duration: f64) -> Config {
    let class = |name: &str, weight: f64, requires: &[&str]| RequestClassCfg {
        name: name.to_string(),
        weight: b(weight),
        requires: requires.iter().map(|s| s.to_string()).collect(),
    };
    Config {
        scenario: Scenario {
            id: "t".to_string(),
            seed: 77,
            duration_s: b(duration),
            warmup_s: b(0.0),
        },
        load: Load {
            arrival,
            rate_rps: b(rate),
            burstiness_cv: Some(b(2.0)),
            target_utilization: None,
        },
        slo: Slo { budget_ms: b(50.0), penalty_ms: None },
        request_classes: vec![
            class("light", 0.7, &["svc_a"]),
            class("heavy", 0.3, &["svc_a", "svc_b"]),
        ],
        downstreams: vec![DownstreamCfg {
            id: "svc_a".to_string(),
            distribution: Distribution::Constant { ms: b(1.0) },
            capacity: 4,
            timeout_ms: b(250.0),
        }],
    }
}

fn constant(rate: f64, duration: f64) -> Vec<u128> {
    match generate_offsets(&cfg(Arrival::Constant, rate, duration)) {
        Offsets::Ready { offsets } => offsets,
        _ => panic!("constant arrivals are ready"),
    }
}

#[test]
fn constant_arrivals_come_at_multiples_of_the_gap() {
    let ms: Vec<u128> = constant(10.0, 1.0).iter().map(|ns| ns / 1_000_000).collect();
    assert_eq!(ms, [0, 100, 200, 300, 400, 500, 600, 700, 800, 900]);
    for (rate, duration) in [(200.0, 2.0), (3.0, 10.0), (600.0, 1.5), (0.1, 5.0)] {
        let horizon = std::time::Duration::from_secs_f64(duration).as_secs_f64();
        let want: Vec<u128> = (0..)
            .map(|i| i as f64 / rate)
            .take_while(|t| *t < horizon)
            .map(|t| std::time::Duration::from_secs_f64(t).as_nanos())
            .collect();
        assert_eq!(constant(rate, duration), want);
    }
}

#[test]
fn a_schedule_may_be_empty() {
    // The whole schedule lies within its first half nanosecond.
    assert!(constant(100.0, 1e-10).is_empty());
}

#[test]
fn gaps_are_added_up_to_the_horizon() {
    let mut arrivals = match generate_offsets(&cfg(Arrival::Poisson, 100.0, 1.0)) {
        Offsets::ByGaps { arrivals } => arrivals,
        _ => panic!("gaps are drawn"),
    };
    let gaps = [0.25, 0.1, 0.0, 0.3, 0.2999, 0.5];
    let mut t = 0.0;
    let mut want = Vec::new();
    for gap in gaps {
        t += gap;
        let before = t < 1.0;
        if before {
            want.push(std::time::Duration::from_secs_f64(t).as_nanos());
        }
        assert_eq!(arrivals.advance(b(gap)), before);
        if !before {
            break;
        }
    }
    assert_eq!(arrivals.finish(), want);
    let mut far = Arrivals::new(b(2.0));
    assert!(!far.advance(b(f64::INFINITY)));
    assert!(far.finish().is_empty());
}

#[test]
fn classes_follow_their_weights() {
    let c = cfg(Arrival::Constant, 500.0, 4.0);
    let t = Timeline::generate(&c, constant(500.0, 4.0));
    let mut crng = class_rng(77);
    let mut heavy = 0;
    for (i, r) in t.requests.iter().enumerate() {
        assert_eq!(r.request_id, i as u64);
        assert_eq!(r.nonce, payload_nonce(77, i as u64));
        let u: f64 = crng.gen();
        if u < 0.7 {
            assert_eq!(r.class, "light");
            assert_eq!(r.required, vec!["svc_a".to_string()]);
        } else {
            assert_eq!(r.class, "heavy");
            assert_eq!(r.required, vec!["svc_a".to_string(), "svc_b".to_string()]);
            heavy += 1;
        }
    }
    assert!((500..700).contains(&heavy), "{heavy} of {}", t.len());
    assert_eq!(t.duration, 4_000_000_000);
    assert!(!t.is_empty());
}

fn native_load(offsets: &[u128]) -> Vec<f64> {
    let secs: Vec<f64> = offsets
        .iter()
        .map(|o| std::time::Duration::from_nanos(*o as u64).as_secs_f64())
        .collect();
    let (mut lo, mut hi) = (0usize, 0usize);
    let mut out = Vec::new();
    for t in secs.iter() {
        while lo < secs.len() && secs[lo] < t - 0.25 {
            lo += 1;
        }
        while hi < secs.len() && secs[hi] <= t + 0.25 {
            hi += 1;
        }
        out.push((hi - lo) as f64 / 0.5);
    }
    out
}

#[test]
fn offered_load_counts_the_window() {
    let c = cfg(Arrival::Constant, 40.0, 3.0);
    let offsets = constant(40.0, 3.0);
    let want = native_load(&offsets);
    let t = Timeline::generate(&c, offsets);
    let got: Vec<f64> = t.requests.iter().map(|r| f(r.offered_load_rps)).collect();
    assert_eq!(got, want);
    // In the middle the window holds the arrivals of half a second.
    assert!((got[60] - 40.0).abs() <= 2.0);
    let uneven = vec![0, 10, 250_000_000, 250_000_011, 900_000_000];
    let t = Timeline::generate(&c, uneven);
    let got: Vec<f64> = t.requests.iter().map(|r| f(r.offered_load_rps)).collect();
    assert_eq!(got, vec![6.0, 6.0, 8.0, 4.0, 2.0]);
}

#[test]
fn requirements_can_be_dropped() {
    let c = cfg(Arrival::Constant, 10.0, 1.0);
    let t = Timeline::generate(&c, constant(10.0, 1.0));
    let (n, nonce) = (t.len(), t.requests[3].nonce);
    let t = t.without_requirements();
    assert_eq!(t.len(), n);
    assert_eq!(t.requests[3].nonce, nonce);
    assert!(t.requests.iter().all(|r| r.required.is_empty()));
    let copy = t.clone();
    assert_eq!(copy.requests[3].offset, t.requests[3].offset);
}

#[test]
fn the_class_mix_leaves_arrivals_alone() {
    let mut other = cfg(Arrival::Constant, 100.0, 1.0);
    other.request_classes[0].weight = b(0.1);
    other.request_classes[1].weight = b(0.9);
    let offsets = match generate_offsets(&other) {
        Offsets::Ready { offsets } => offsets,
        _ => panic!("constant arrivals are ready"),
    };
    assert_eq!(offsets, constant(100.0, 1.0));
}

#[test]
fn times_convert() {
    assert_eq!(ns_since(10, 25), 15);
    assert_eq!(ns_since(25, 10), 0);
    assert_eq!(ns_since(0, (1 << 64) + 5), 5);
    assert_eq!(ms_to_duration(b(250.0)), 250_000_000);
    assert_eq!(ms_to_duration(b(0.0000019)), 1);
    assert_eq!(ms_to_duration(b(-1.0)), 0);
    assert_eq!(ms_to_duration(b(1e300)), u64::MAX);
    assert_eq!(f(duration_to_ms(1_500_000)), 1.5);
    for ns in [0u64, 1, 999_999_999, 1_000_000_001, 123_456_789_012_345] {
        let want = std::time::Duration::from_nanos(ns).as_secs_f64();
        assert_eq!(f(duration_to_secs(ns as u128)), want);
    }
}

#[test]
fn gamma_steps_match_the_formulas() {
    let (shape, scale) = burst_parameters(b(100.0), b(2.0));
    assert_eq!((f(shape), f(scale)), (0.25, 1.0 / (100.0 * 0.25)));
    assert!(needs_boost(shape));
    assert!(!needs_boost(b(1.0)));
    let (d, nine_d) = shape_constants(b(1.25));
    assert_eq!(f(d), 1.25 - 1.0 / 3.0);
    assert_eq!(f(nine_d), 9.0 * (1.25 - 1.0 / 3.0));
    let root = (9.0 * (1.25 - 1.0 / 3.0f64)).sqrt();
    let c = 1.0 / root;
    for x in [-3.5f64, -1.0, 0.0, 0.7, 2.5] {
        let v = (1.0 + c * x).powi(3);
        match candidate(b(root), b(x)) {
            Some(got) => assert_eq!(f(got), v),
            None => assert!(v <= 0.0),
        }
        if v > 0.0 {
            for u in [0.001f64, 0.5, 0.999] {
                let want = u.ln() < 0.5 * x * x + f(d) - f(d) * v + f(d) * v.ln();
                assert_eq!(accepted(b(u.ln()), b(x), d, b(v), b(v.ln())), want);
            }
        }
    }
}
