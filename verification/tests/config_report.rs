//! Validation rules and aggregation.

use tailbench::binary64::Binary64;
use tailbench::config::{
    Arrival, Config, ConfigError, DownstreamCfg, Load, RequestClassCfg, Scenario, Slo,
};
use tailbench::distributions::{Distribution, DistributionError};
use tailbench::report::{ceil_robust, cvar, percentile, sort_values};

fn b(x: f64) -> Binary64 {
    Binary64::from_bits(x.to_bits())
}

fn f(x: Binary64) -> f64 {
    f64::from_bits(x.to_bits())
}

fn base() -> Config {
    Config {
        scenario: Scenario {
            id: "t".to_string(),
            seed: 1,
            duration_s: b(10.0),
            warmup_s: b(1.0),
        },
        load: Load {
            arrival: Arrival::Poisson,
            rate_rps: b(100.0),
            burstiness_cv: None,
            target_utilization: None,
        },
        slo: Slo { budget_ms: b(100.0), penalty_ms: None },
        request_classes: vec![RequestClassCfg {
            name: "c".to_string(),
            weight: b(1.0),
            requires: vec!["svc_a".to_string()],
        }],
        downstreams: vec![DownstreamCfg {
            id: "svc_a".to_string(),
            distribution: Distribution::Constant { ms: b(5.0) },
            capacity: 8,
            timeout_ms: b(200.0),
        }],
    }
}

fn changed(change: impl Fn(&mut Config)) -> Config {
    let mut c = base();
    change(&mut c);
    c
}

#[test]
fn base_config_is_valid() {
    assert!(base().validate().is_ok());
}

#[test]
fn rejects_bad_configs() {
    let cases = vec![
        ("warmup >= duration", changed(|c| c.scenario.warmup_s = b(10.0))),
        ("zero rate", changed(|c| c.load.rate_rps = b(0.0))),
        ("zero capacity", changed(|c| c.downstreams[0].capacity = 0)),
        ("weights not 1", changed(|c| c.request_classes[0].weight = b(0.5))),
        ("empty requires", changed(|c| c.request_classes[0].requires = vec![])),
        (
            "undeclared downstream",
            changed(|c| c.request_classes[0].requires = vec!["nope".to_string()]),
        ),
        ("penalty <= budget", changed(|c| c.slo.penalty_ms = Some(b(50.0)))),
        ("bursty without cv", changed(|c| c.load.arrival = Arrival::Bursty)),
        (
            "target_utilization not supported",
            changed(|c| c.load.target_utilization = Some(b(0.85))),
        ),
    ];
    for (name, config) in cases {
        assert!(config.validate().is_err(), "{name} should be rejected");
    }
}

fn rejection(change: impl Fn(&mut Config)) -> ConfigError {
    changed(change).validate().unwrap_err()
}

#[test]
fn every_rejection_names_the_offending_value() {
    let id = || "svc_a".to_string();
    let name = || "c".to_string();
    assert_eq!(
        rejection(|c| c.scenario.duration_s = b(0.0)),
        ConfigError::Duration { duration_s: b(0.0) }
    );
    assert_eq!(
        rejection(|c| c.scenario.duration_s = b(f64::INFINITY)),
        ConfigError::Duration { duration_s: b(f64::INFINITY) }
    );
    assert_eq!(
        rejection(|c| c.scenario.warmup_s = b(-0.5)),
        ConfigError::Warmup { warmup_s: b(-0.5) }
    );
    assert_eq!(
        rejection(|c| c.scenario.warmup_s = b(10.0)),
        ConfigError::WarmupNotBelowDuration { warmup_s: b(10.0), duration_s: b(10.0) }
    );
    assert_eq!(
        rejection(|c| c.load.target_utilization = Some(b(0.85))),
        ConfigError::TargetUtilization { target_utilization: b(0.85) }
    );
    assert_eq!(
        rejection(|c| c.load.rate_rps = b(-3.0)),
        ConfigError::Rate { rate_rps: b(-3.0) }
    );
    assert_eq!(
        rejection(|c| c.load.arrival = Arrival::Bursty),
        ConfigError::BurstinessMissing
    );
    assert_eq!(
        rejection(|c| {
            c.load.arrival = Arrival::Bursty;
            c.load.burstiness_cv = Some(b(1.0));
        }),
        ConfigError::Burstiness { cv: b(1.0) }
    );
    assert_eq!(
        rejection(|c| c.slo.budget_ms = b(0.0)),
        ConfigError::Budget { budget_ms: b(0.0) }
    );
    assert_eq!(
        rejection(|c| c.slo.penalty_ms = Some(b(100.0))),
        ConfigError::Penalty { penalty_ms: b(100.0), budget_ms: b(100.0) }
    );
    assert_eq!(rejection(|c| c.downstreams = vec![]), ConfigError::NoDownstream);
    assert_eq!(
        rejection(|c| {
            let d = c.downstreams[0].clone();
            c.downstreams.push(d);
        }),
        ConfigError::DuplicateDownstream { id: id() }
    );
    assert_eq!(
        rejection(|c| c.downstreams[0].capacity = 0),
        ConfigError::Capacity { id: id(), capacity: 0 }
    );
    assert_eq!(
        rejection(|c| c.downstreams[0].timeout_ms = b(f64::NAN)),
        ConfigError::Timeout { id: id(), timeout_ms: b(f64::NAN) }
    );
    assert_eq!(
        rejection(|c| c.downstreams[0].timeout_ms = b(-7.0)),
        ConfigError::Timeout { id: id(), timeout_ms: b(-7.0) }
    );
    assert_eq!(
        rejection(|c| c.downstreams[0].distribution = Distribution::Constant { ms: b(-1.0) }),
        ConfigError::Distribution {
            id: id(),
            error: DistributionError::ConstantMs { ms: b(-1.0) },
        }
    );
    assert_eq!(rejection(|c| c.request_classes = vec![]), ConfigError::NoRequestClass);
    assert_eq!(
        rejection(|c| {
            let d = c.request_classes[0].clone();
            c.request_classes.push(d);
        }),
        ConfigError::DuplicateClass { name: name() }
    );
    assert_eq!(
        rejection(|c| c.request_classes[0].weight = b(0.0)),
        ConfigError::Weight { name: name(), weight: b(0.0) }
    );
    assert_eq!(
        rejection(|c| c.request_classes[0].requires = vec![]),
        ConfigError::NothingRequired { name: name() }
    );
    assert_eq!(
        rejection(|c| c.request_classes[0].requires.push("nope".to_string())),
        ConfigError::Undeclared { name: name(), downstream: "nope".to_string() }
    );
    assert_eq!(
        rejection(|c| c.request_classes[0].weight = b(0.5)),
        ConfigError::Weights { total: b(0.5) }
    );
}

#[test]
fn earlier_sections_are_checked_first() {
    assert_eq!(
        rejection(|c| {
            c.downstreams = vec![];
            c.load.rate_rps = b(0.0);
        }),
        ConfigError::Rate { rate_rps: b(0.0) }
    );
}

#[test]
fn weights_may_miss_one_by_a_rounding_error() {
    let c = changed(|c| {
        let class = c.request_classes[0].clone();
        c.request_classes = (0..10)
            .map(|i| {
                let mut k = class.clone();
                k.name = format!("c{i}");
                k.weight = b(0.1);
                k
            })
            .collect();
    });
    assert!(c.validate().is_ok());
}

#[test]
fn penalty_defaults_to_ten_budgets() {
    assert_eq!(f(base().slo.penalty_ms()), 1000.0);
    assert_eq!(f(changed(|c| c.slo.penalty_ms = Some(b(250.0))).slo.penalty_ms()), 250.0);
}

#[test]
fn downstream_index_follows_the_configuration() {
    let c = changed(|c| {
        let mut d = c.downstreams[0].clone();
        d.id = "svc_b".to_string();
        c.downstreams.push(d);
    });
    assert_eq!(c.downstream_index("svc_a"), Some(0));
    assert_eq!(c.downstream_index("svc_b"), Some(1));
    assert_eq!(c.downstream_index("svc_c"), None);
}

#[test]
fn percentile_is_nearest_rank() {
    let xs: Vec<Binary64> = (1..=100).map(|i| b(i as f64)).collect();
    assert_eq!(f(percentile(&xs, b(0.99))), 99.0);
    assert_eq!(f(percentile(&xs, b(0.50))), 50.0);
    assert_eq!(f(percentile(&xs, b(1.0))), 100.0);
}

#[test]
fn cvar_is_mean_of_worst_tail() {
    let xs: Vec<Binary64> = (1..=100).map(|i| b(i as f64)).collect();
    assert_eq!(f(cvar(&xs, b(0.99))), 100.0);
    // Worst 10 of 100 -> mean(91..100) = 95.5
    assert_eq!(f(cvar(&xs, b(0.90))), 95.5);
}

/// p99 is flat in the penalty below 1% failures and equals it above; CVaR
/// responds throughout.
#[test]
fn cvar_responds_to_failures_where_p99_does_not() {
    let good: Vec<Binary64> = (0..995).map(|_| b(10.0)).collect();
    let with_failures = |k: usize, penalty: f64| {
        let mut v = good.clone();
        v.extend(std::iter::repeat(b(penalty)).take(k));
        sort_values(&v)
    };

    // 5 failures in 1000 = 0.5%, below the p99 threshold.
    let a = with_failures(5, 1000.0);
    let c = with_failures(5, 5000.0);
    assert_eq!(
        percentile(&a, b(0.99)),
        percentile(&c, b(0.99)),
        "p99 should be blind to the penalty value below 1% failures"
    );
    assert!(
        f(cvar(&c, b(0.99))) > f(cvar(&a, b(0.99))),
        "cvar must respond to the penalty value"
    );
}

#[test]
fn ranks_out_of_range_are_held() {
    let xs: Vec<Binary64> = (1..=4).map(|i| b(i as f64)).collect();
    assert_eq!(f(percentile(&xs, b(0.0))), 1.0);
    assert_eq!(f(percentile(&xs, b(-1.0))), 1.0);
    assert_eq!(f(percentile(&xs, b(7.0))), 4.0);
    assert_eq!(f(percentile(&xs, b(f64::INFINITY))), 4.0);
    assert_eq!(f(percentile(&xs, b(f64::NAN))), 1.0);
    assert_eq!(f(cvar(&xs, b(0.0))), 2.5);
    assert_eq!(f(cvar(&xs, b(1.0))), 4.0);
    let none: Vec<Binary64> = Vec::new();
    assert!(f(percentile(&none, b(0.5))).is_nan());
    assert!(f(cvar(&none, b(0.5))).is_nan());
}

#[test]
fn ceiling_forgives_rounding_errors() {
    // (1 - 0.99) * 100 is 1.0000000000000009.
    assert_eq!(ceil_robust(b((1.0 - 0.99) * 100.0)), 1);
    assert_eq!(ceil_robust(b(1.1)), 2);
    assert_eq!(ceil_robust(b(2.0)), 2);
    assert_eq!(ceil_robust(b(1.9999999999)), 2);
    assert_eq!(ceil_robust(b(1.00000001)), 2);
    assert_eq!(ceil_robust(b(-3.5)), 0);
    assert_eq!(ceil_robust(b(f64::NAN)), 0);
    assert_eq!(ceil_robust(b(f64::INFINITY)), u64::MAX);
}

#[test]
fn sorting_is_by_value() {
    let xs = [3.0, -1.0, 0.0, 2.5, -0.0, -7.25, 1e300, 5e-324, f64::INFINITY];
    let mut want = xs.to_vec();
    want.sort_by(|a, b| a.partial_cmp(b).unwrap());
    let got = sort_values(&xs.iter().map(|x| b(*x)).collect());
    let bits: Vec<u64> = want.iter().map(|x| x.to_bits()).collect();
    assert_eq!(got.iter().map(|x| x.to_bits()).collect::<Vec<u64>>(), bits);
}
