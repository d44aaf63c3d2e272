//! Aggregated reports and their text.

use tailbench::binary64::Binary64;
use tailbench::record::{Outcome, RequestRecord};
use tailbench::report::{build, cvar, percentile, Report, ReportInput};
use tailbench::span::{CallOutcome, CallSpan};
use tailbench::text::{
    push_decimal, push_fixed_1, push_fixed_2, push_fixed_3, push_left, push_padded_2,
    push_padded_4, push_right, push_signed_3,
};

fn b(x: f64) -> Binary64 {
    Binary64::from_bits(x.to_bits())
}

fn f(x: Binary64) -> f64 {
    f64::from_bits(x.to_bits())
}

fn record(id: u64, outcome: Outcome, intended: u64, took: Option<u64>) -> RequestRecord {
    let span = |outcome| CallSpan {
        downstream_id: "svc_a".to_string(),
        attempt: 0,
        queue_wait_ns: 1,
        service_ns: 2,
        outcome,
    };
    RequestRecord {
        request_id: id,
        class: "c".to_string(),
        intended_dispatch_ns: intended,
        actual_dispatch_ns: intended,
        deadline_ns: intended + 50_000_000,
        first_byte_ns: None,
        completion_ns: took.map(|t| intended + t),
        outcome,
        expired: false,
        offered_load_rps: b(1.0),
        response_digest: None,
        digest_ok: None,
        required_calls_met: true,
        spans: vec![span(CallOutcome::Success), span(CallOutcome::Timeout)],
        late_dispatch_ns: 0,
    }
}

fn sample() -> Vec<RequestRecord> {
    let mut out = Vec::new();
    for i in 0..200u64 {
        let intended = i * 10_000_000;
        let (outcome, took) = match i % 20 {
            3 => (Outcome::Expired, Some(70_000_000)),
            5 => (Outcome::Incorrect, Some(1_000_000)),
            7 => (Outcome::Error, Some(2_000_000)),
            9 => (Outcome::NeverServed, None),
            _ => (Outcome::Success, Some(1_000_000 + i * 12_345)),
        };
        out.push(record(i, outcome, intended, took));
    }
    out
}

fn report(records: &Vec<RequestRecord>, omission: bool) -> Report {
    build(ReportInput {
        records,
        warmup_s: b(0.5),
        duration_s: b(2.0),
        penalty_ms: b(500.0),
        coordinated_omission_failure: omission,
    })
}

#[test]
fn reports_match_plain_arithmetic() {
    let records = sample();
    let r = report(&records, false);
    let post: Vec<&RequestRecord> =
        records.iter().filter(|r| r.intended_dispatch_ns >= 500_000_000).collect();
    let n = post.len();
    assert_eq!((r.n, r.n_post_warmup), (200, 150));
    assert_eq!(n, 150);
    let mut scored: Vec<f64> = post
        .iter()
        .map(|r| match r.outcome {
            Outcome::Success => {
                (r.completion_ns.unwrap() - r.intended_dispatch_ns) as f64 / 1e6
            }
            _ => 500.0,
        })
        .collect();
    scored.sort_by(|a, b| a.partial_cmp(b).unwrap());
    assert_eq!(f(r.max), 500.0);
    assert_eq!(f(r.mean), scored.iter().sum::<f64>() / n as f64);
    assert_eq!(f(r.p50), scored[74]);
    assert_eq!(f(r.p90), scored[134]);
    assert_eq!(f(r.p99), scored[148]);
    assert_eq!(f(r.p999), scored[149]);
    assert_eq!(f(r.cvar_99), scored[148..].iter().sum::<f64>() / 2.0);
    assert_eq!(f(r.cvar_999), 500.0);
    let ok = post.iter().filter(|r| r.outcome == Outcome::Success).count();
    assert_eq!(f(r.throughput_rps), ok as f64 / 1.5);
    assert_eq!(f(r.ok_rate), ok as f64 / 150.0);
    let share = |o: Outcome| post.iter().filter(|r| r.outcome == o).count() as f64 / 150.0;
    assert_eq!(f(r.expiry_rate), share(Outcome::Expired));
    assert_eq!(f(r.incorrect_rate), share(Outcome::Incorrect));
    assert_eq!(f(r.error_rate), share(Outcome::Error));
    assert_eq!(r.never_served_count, 7);
    assert_eq!(r.dropped_count, 0);
    assert_eq!((r.downstream_calls, r.downstream_timeouts), (300, 150));
    let mut oks: Vec<f64> = post
        .iter()
        .filter(|r| r.outcome == Outcome::Success)
        .map(|r| (r.completion_ns.unwrap() - r.intended_dispatch_ns) as f64 / 1e6)
        .collect();
    oks.sort_by(|a, b| a.partial_cmp(b).unwrap());
    assert_eq!(f(r.p99_ok_only), oks[oks.len() - 2]);
    assert_eq!(f(r.penalty_ms), 500.0);
    assert!(!r.failed);
    assert_eq!(r.failure_reason, None);
}

#[test]
fn failures_have_reasons() {
    let mut records = sample();
    let r = report(&records, true);
    assert!(r.failed);
    assert_eq!(
        r.failure_reason.as_deref(),
        Some("coordinated omission: late dispatches over threshold")
    );
    records[100].outcome = Outcome::Dropped;
    records[101].outcome = Outcome::Dropped;
    // One dropped within the warmup does not count.
    records[1].outcome = Outcome::Dropped;
    let r = report(&records, false);
    assert!(r.failed);
    assert_eq!(r.dropped_count, 2);
    assert_eq!(r.failure_reason.as_deref(), Some("2 requests dropped by the service"));
    assert_eq!(
        report(&records, true).failure_reason.as_deref(),
        Some("2 requests dropped by the service")
    );
}

#[test]
fn empty_runs_report_undefined_tails() {
    let r = report(&Vec::new(), false);
    assert_eq!((r.n, r.n_post_warmup), (0, 0));
    for x in [r.cvar_99, r.p99, r.p50, r.max, r.p99_ok_only] {
        assert!(f(x).is_nan());
    }
    assert_eq!(f(r.mean), 0.0);
    assert_eq!(f(r.ok_rate), 0.0);
    assert!(r.summary().contains("cvar_99    NaN ms"));
}

#[test]
fn a_run_shorter_than_its_warmup_measures_epsilon() {
    let records = sample();
    let r = build(ReportInput {
        records: &records,
        warmup_s: b(1.0),
        duration_s: b(1.0),
        penalty_ms: b(500.0),
        coordinated_omission_failure: false,
    });
    let ok = records
        .iter()
        .filter(|r| r.intended_dispatch_ns >= 1_000_000_000 && r.outcome == Outcome::Success)
        .count();
    assert_eq!(f(r.throughput_rps), ok as f64 / f64::EPSILON);
}

#[test]
fn failing_never_improves_the_tail() {
    let served = sample();
    let mut failing = sample();
    for (i, r) in failing.iter_mut().enumerate() {
        if i % 13 == 0 {
            r.outcome = Outcome::Error;
        }
    }
    let (a, c) = (report(&served, false), report(&failing, false));
    assert!(f(a.p50) <= f(c.p50));
    assert!(f(a.p99) <= f(c.p99));
    assert!(f(a.cvar_99) <= f(c.cvar_99));
    assert!(f(a.cvar_999) <= f(c.cvar_999));
    assert!(f(a.max) <= f(c.max));
    assert!(f(a.mean) <= f(c.mean));
}

#[test]
fn summaries_read_as_expected() {
    let mut r = report(&sample(), true);
    r.throughput_rps = b(1234.56);
    let want = format!(
        "RUN FAILED: coordinated omission: late dispatches over threshold\n\n\
         requests   {} ({} post-warmup)\n\
         cvar_99    {:.2} ms   <- primary\n\
         p99        {:.2} ms\n\
         p50/p90    {:.2} / {:.2} ms\n\
         p99.9/max  {:.2} / {:.2} ms\n\
         mean       {:.2} ms\n\
         throughput {:.1} rps\n\
         \n\
         ok         {:.3}%\n\
         expired    {:.3}%\n\
         incorrect  {:.3}%\n\
         error      {:.3}%\n\
         dropped    {}\n\
         unserved   {}\n\
         \n\
         diagnostic: p99(ok only) {:.2} ms, cvar_99(ok only) {:.2} ms\n\
         downstream: {} calls, {} timeouts\n",
        r.n,
        r.n_post_warmup,
        f(r.cvar_99),
        f(r.p99),
        f(r.p50),
        f(r.p90),
        f(r.p999),
        f(r.max),
        f(r.mean),
        f(r.throughput_rps),
        f(r.ok_rate) * 100.0,
        f(r.expiry_rate) * 100.0,
        f(r.incorrect_rate) * 100.0,
        f(r.error_rate) * 100.0,
        r.dropped_count,
        r.never_served_count,
        f(r.p99_ok_only),
        f(r.cvar_99_ok_only),
        r.downstream_calls,
        r.downstream_timeouts,
    );
    assert_eq!(r.summary(), want);
    r.failure_reason = None;
    assert!(r.summary().starts_with("RUN FAILED: gate violation\n\nrequests"));
    r.failed = false;
    assert!(r.summary().starts_with("requests   200 (150 post-warmup)\n"));
}

#[test]
fn fixed_point_text_matches_std() {
    let mut xs = vec![
        0.0,
        -0.0,
        1.0,
        0.125,
        0.375,
        2.675,
        0.005,
        0.0005,
        99.995,
        999.9995,
        -1.5,
        1e15,
        123456789.123456,
        4503599627370495.5,
        9007199254740993.0,
        1e22,
        1e100,
        f64::MAX,
        f64::MIN_POSITIVE,
        f64::INFINITY,
        f64::NEG_INFINITY,
        f64::NAN,
    ];
    let mut state: u64 = 12345;
    for _ in 0..300 {
        state = state.wrapping_mul(6364136223846793005).wrapping_add(1442695040888963407);
        xs.push((state >> 30) as f64 / 1e4);
        xs.push((state >> 50) as f64 / 64.0);
        xs.push(f64::from_bits(state));
    }
    for x in xs {
        let mut s = String::from(">");
        push_fixed_1(&mut s, b(x));
        assert_eq!(s, format!(">{x:.1}"));
        let mut s = String::new();
        push_fixed_2(&mut s, b(x));
        assert_eq!(s, format!("{x:.2}"));
        let mut s = String::new();
        push_fixed_3(&mut s, b(x));
        assert_eq!(s, format!("{x:.3}"));
    }
}

#[test]
fn integers_as_text_match_std() {
    for n in [0, 7, 10, 99, 100, 1234, 12345, u64::MAX] {
        let mut s = String::new();
        push_decimal(&mut s, n);
        assert_eq!(s, format!("{n}"));
        let mut s = String::new();
        push_padded_2(&mut s, n);
        assert_eq!(s, format!("{n:02}"));
        let mut s = String::new();
        push_padded_4(&mut s, n);
        assert_eq!(s, format!("{n:04}"));
    }
}

#[test]
fn ranks_and_tails_are_those_of_exact_fractions() {
    for n in 1..=3_000u64 {
        let sorted: Vec<Binary64> = (1..=n).map(|i| b(i as f64)).collect();
        for (q, num, den) in [(0.5, 1, 2), (0.9, 9, 10), (0.99, 99, 100), (0.999, 999, 1000)] {
            let rank = (num * n).div_ceil(den);
            assert_eq!(f(percentile(&sorted, b(q))), rank as f64, "n {n} q {q}");
        }
        for (q, den) in [(0.99, 100u64), (0.999, 1000)] {
            let k = n.div_ceil(den);
            let tail: Vec<f64> = (n - k + 1..=n).map(|i| i as f64).collect();
            let mean = tail.iter().sum::<f64>() / k as f64;
            assert_eq!(f(cvar(&sorted, b(q))), mean, "n {n} q {q}");
        }
    }
}

#[test]
fn percentiles_are_in_order() {
    let r = report(&sample(), false);
    let all = [f(r.p50), f(r.p90), f(r.p99), f(r.p999), f(r.max)];
    assert!(all.windows(2).all(|w| w[0] <= w[1]), "{all:?}");
}

#[test]
fn p99_is_flat_below_one_percent_failures_and_the_penalty_above() {
    let with = |failures: u64, penalty: f64| {
        let records: Vec<RequestRecord> = (0..1_000u64)
            .map(|i| {
                let outcome = if i < failures { Outcome::Expired } else { Outcome::Success };
                record(i, outcome, i, Some(1_000_000 + i * 1_000))
            })
            .collect();
        let r = build(ReportInput {
            records: &records,
            warmup_s: b(0.0),
            duration_s: b(1.0),
            penalty_ms: b(penalty),
            coordinated_omission_failure: false,
        });
        (f(r.p99), f(r.cvar_99))
    };
    assert_eq!(with(10, 100.0).0, with(10, 900.0).0);
    assert!(with(10, 100.0).0 < 2.0);
    assert!(with(5, 100.0).1 < with(5, 900.0).1);
    assert!(with(5, 100.0).1 < with(6, 100.0).1);
    assert_eq!(with(11, 100.0), (100.0, 100.0));
    assert_eq!(with(11, 900.0), (900.0, 900.0));
    assert_eq!(with(500, 900.0), (900.0, 900.0));
}

#[test]
fn each_failure_adds_its_penalty_to_the_headline() {
    for penalty in [100.0, 900.0] {
        for failures in 0..=10u64 {
            // Every third of the first requests fails.
            let fails = |i: u64| i % 3 == 0 && i / 3 < failures;
            let records: Vec<RequestRecord> = (0..1_000u64)
                .map(|i| {
                    let outcome = if fails(i) { Outcome::Error } else { Outcome::Success };
                    record(i, outcome, i, Some(1_000_000 + i * 1_000))
                })
                .collect();
            let r = build(ReportInput {
                records: &records,
                warmup_s: b(0.0),
                duration_s: b(1.0),
                penalty_ms: b(penalty),
                coordinated_omission_failure: false,
            });
            let worst = (990 + failures..1_000).map(|i| (1_000_000 + i * 1_000) as f64 / 1e6);
            let penalties = (0..failures).map(|_| penalty);
            let sum: f64 = worst.chain(penalties).sum();
            assert_eq!(f(r.cvar_99), sum / 10.0, "{failures} at {penalty}");
        }
    }
}

#[test]
fn columns_are_padded_as_in_std() {
    for text in ["", "p50", "123456", "1234567", "\u{e4}b"] {
        let mut l = String::from("|");
        push_left(&mut l, text, 6);
        assert_eq!(l, format!("|{text:<6}"));
        let mut r = String::from("|");
        push_right(&mut r, text, 6);
        assert_eq!(r, format!("|{text:>6}"));
    }
    for x in [0.0, -0.0, 1.5, -2.0005, f64::INFINITY, f64::NEG_INFINITY, f64::NAN] {
        let mut s = String::new();
        push_signed_3(&mut s, b(x));
        assert_eq!(s, format!("{x:+.3}"));
    }
}
