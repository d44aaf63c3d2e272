//! The open-loop property and whole runs, on a clock that is turned by hand.

use tailbench::binary64::Binary64;
use tailbench::config::{
    Arrival, Config, DownstreamCfg, Load, RequestClassCfg, Scenario, Slo,
};
use tailbench::distributions::Distribution;
use tailbench::load_generator::{
    budget, build_record, drain_until, finish, never_served, RunOutcome, Tally,
};
use tailbench::oracle::Oracle;
use tailbench::protocol::{ProgramReply, ServiceReply};
use tailbench::record::Outcome;
use tailbench::report::{self, ReportInput};
use tailbench::rng::call_digest;
use tailbench::digest::fold_digest;
use tailbench::span::{CallOutcome, CallSpan};
use tailbench::timeline::{generate_offsets, Offsets, ScheduledRequest, Timeline};

fn b(x: f64) -> Binary64 {
    Binary64::from_bits(x.to_bits())
}

fn f(x: Binary64) -> f64 {
    f64::from_bits(x.to_bits())
}

const MS: u128 = 1_000_000;

fn cfg() -> Config {
    Config {
        scenario: Scenario {
            id: "t".to_string(),
            seed: 42,
            duration_s: b(2.0),
            warmup_s: b(0.0),
        },
        load: Load {
            arrival: Arrival::Constant,
            rate_rps: b(200.0),
            burstiness_cv: None,
            target_utilization: None,
        },
        slo: Slo { budget_ms: b(50.0), penalty_ms: None },
        request_classes: vec![RequestClassCfg {
            name: "c".to_string(),
            weight: b(1.0),
            requires: vec!["svc_a".to_string()],
        }],
        downstreams: vec![DownstreamCfg {
            id: "svc_a".to_string(),
            distribution: Distribution::Constant { ms: b(1.0) },
            capacity: 1024,
            timeout_ms: b(250.0),
        }],
    }
}

fn timeline(cfg: &Config) -> Timeline {
    match generate_offsets(cfg) {
        Offsets::Ready { offsets } => Timeline::generate(cfg, offsets),
        _ => panic!("constant arrivals are ready"),
    }
}

#[derive(Clone, Copy)]
enum Mode {
    /// Correct: required call recorded, right digest, on time.
    Correct,
    /// On time, right-looking digest, but no downstream call was made.
    SkipWork,
    /// Call recorded but the digest is fabricated.
    BadDigest,
    /// Correct work, always past the deadline.
    Late,
    /// Takes far longer than the inter-arrival gap.
    Slow(u128),
}

/// What a service in this mode replies, and how long it takes.
fn reply_for(mode: Mode, req: &ScheduledRequest) -> (ProgramReply, u128) {
    let span = CallSpan {
        downstream_id: "svc_a".to_string(),
        attempt: 0,
        queue_wait_ns: 0,
        service_ns: 1_000_000,
        outcome: CallOutcome::Success,
    };
    let mut ds = vec![call_digest(42, req.request_id, 0)];
    let good = fold_digest(req.nonce, &mut ds);
    let (digest, spans, took) = match mode {
        Mode::Correct => (Some(good), vec![span], MS),
        Mode::SkipWork => (Some(good), Vec::new(), MS),
        Mode::BadDigest => (Some(good ^ 0xDEAD), vec![span], MS),
        Mode::Late => (Some(good), vec![span], 80 * MS),
        Mode::Slow(d) => (Some(good), vec![span], d),
    };
    (ServiceReply { tag: 0, digest, spans, error: None }, took)
}

/// Runs the dispatch loop. The clock moves only when the loop sleeps; `lag` is
/// how late each wake-up comes.
fn run_lagging(mode: Mode, lag: u128) -> (RunOutcome, usize) {
    let cfg = cfg();
    let timeline = timeline(&cfg);
    let oracle = Oracle::new(&cfg);
    let budget = budget(&cfg);
    let mut tally = Tally::new(&cfg);
    let mut records = Vec::new();
    let start: u128 = 7_000_000_000;
    let mut now = start;
    let mut dispatched = 0;
    for req in timeline.requests.iter() {
        let turn = tally.dispatch(req.offset, now - start);
        if let Some(until) = turn.sleep_until {
            now = start + until + lag;
        }
        let actual = now;
        dispatched += 1;
        let (reply, took) = reply_for(mode, req);
        let resp: Result<ProgramReply, ()> = Ok(reply);
        records.push(build_record(
            req,
            &oracle,
            resp,
            start,
            actual,
            actual + took,
            budget,
            turn.lateness,
        ));
    }
    assert_eq!(drain_until(&timeline, budget), 3_050 * MS);
    (finish(&tally, &timeline, records, budget), dispatched)
}

fn run(mode: Mode) -> (RunOutcome, usize) {
    run_lagging(mode, 0)
}

fn run_mode(mode: Mode) -> Vec<Outcome> {
    run(mode).0.records.iter().map(|r| r.outcome).collect()
}

/// A service 100x slower than the inter-arrival gap must still receive every
/// scheduled request.
#[test]
fn generator_is_open_loop() {
    let n = timeline(&cfg()).len();
    let (out, sent) = run(Mode::Slow(500 * MS));
    assert_eq!(n, 400);
    assert_eq!(sent, n, "service received {sent} of {n} scheduled requests");
    assert_eq!(out.records.len(), n, "every request must produce a record");
}

/// Latency is measured from intended dispatch, so generator lag lands in the
/// numbers instead of vanishing.
#[test]
fn latency_measured_from_intended_dispatch() {
    let (out, _) = run_lagging(Mode::Slow(200 * MS), 3 * MS);
    for r in out.records.iter().filter(|r| r.completion_ns.is_some()) {
        let e2e = r.e2e_ns().unwrap();
        let from_actual = r.completion_ns.unwrap() - r.actual_dispatch_ns;
        assert!(
            e2e >= from_actual,
            "e2e from intended ({e2e}) must be >= from actual ({from_actual})"
        );
    }
    // The first is due at once; the others are woken late.
    assert_eq!(out.records[1].e2e_ns(), Some(203_000_000));
}

#[test]
fn correct_service_scores_ok() {
    let outcomes = run_mode(Mode::Correct);
    let ok = outcomes.iter().filter(|o| **o == Outcome::Success).count();
    assert!(
        ok as f64 / outcomes.len() as f64 > 0.95,
        "only {ok}/{} ok",
        outcomes.len()
    );
}

/// Skipping a required downstream is caught even when the response is on time
/// with a plausible digest.
#[test]
fn skipped_work_is_incorrect() {
    assert!(run_mode(Mode::SkipWork).iter().all(|o| *o == Outcome::Incorrect));
}

/// The digest depends on values only obtainable by calling the downstream.
#[test]
fn fabricated_digest_is_incorrect() {
    assert!(run_mode(Mode::BadDigest).iter().all(|o| *o == Outcome::Incorrect));
}

/// Past the deadline the response has no value, correct or not.
#[test]
fn late_but_correct_is_expired() {
    assert!(run_mode(Mode::Late).iter().all(|o| *o == Outcome::Expired));
}

/// Abandoning requests must score worse than completing them slowly, or the
/// environment rewards giving up.
#[test]
fn expiring_is_worse_than_being_slow() {
    let cfg = cfg();
    let penalty = cfg.slo.penalty_ms();
    let score = |mode: Mode| {
        let (out, _) = run(mode);
        f(report::build(ReportInput {
            records: &out.records,
            warmup_s: cfg.scenario.warmup_s,
            duration_s: cfg.scenario.duration_s,
            penalty_ms: penalty,
            coordinated_omission_failure: false,
        })
        .cvar_99)
    };
    let completing = score(Mode::Correct);
    let expiring = score(Mode::Late);
    assert!(
        expiring > completing,
        "expiring ({expiring:.1}) must score worse than completing ({completing:.1})"
    );
    assert_eq!(expiring, 500.0);
    assert_eq!(score(Mode::Slow(49 * MS)), 49.0);
}

#[test]
fn unserved_requests_are_recorded() {
    let cfg = cfg();
    let timeline = timeline(&cfg);
    let budget = budget(&cfg);
    let oracle = Oracle::new(&cfg);
    let tally = Tally::new(&cfg);
    // Replies to three requests only, out of order.
    let mut records = Vec::new();
    for i in [7usize, 2, 399] {
        let req = &timeline.requests[i];
        let (reply, took) = reply_for(Mode::Correct, req);
        let resp: Result<ProgramReply, ()> = Ok(reply);
        let at = req.offset;
        records.push(build_record(req, &oracle, resp, 0, at, at + took, budget, 0));
    }
    let out = finish(&tally, &timeline, records, budget);
    assert_eq!(out.records.len(), 400);
    for (i, r) in out.records.iter().enumerate() {
        assert_eq!(r.request_id, i as u64);
        if [7, 2, 399].contains(&i) {
            assert_eq!(r.outcome, Outcome::Success);
        } else {
            assert_eq!(r.outcome, Outcome::NeverServed);
            assert!(r.expired);
            assert_eq!(r.completion_ns, None);
            assert_eq!(r.deadline_ns, i as u64 * 5_000_000 + 50_000_000);
        }
    }
}

#[test]
fn failed_calls_are_errors() {
    let cfg = cfg();
    let timeline = timeline(&cfg);
    let oracle = Oracle::new(&cfg);
    let req = &timeline.requests[3];
    let resp: Result<ProgramReply, &str> = Err("reset");
    let r = build_record(req, &oracle, resp, 100, 100 + 15 * MS, 100 + 16 * MS, 50 * MS, 0);
    assert_eq!(r.outcome, Outcome::Error);
    assert_eq!(r.completion_ns, Some(16_000_000));
    assert_eq!(r.actual_dispatch_ns, 15_000_000);
    assert_eq!(r.response_digest, None);
    assert!(!r.expired);
    assert_eq!(r.class, "c");
    let resp: Result<ProgramReply, &str> = Err("reset");
    let late = build_record(req, &oracle, resp, 0, 15 * MS, 66 * MS, 50 * MS, 0);
    assert_eq!(late.outcome, Outcome::Expired);
    assert!(late.expired);
    let gone = never_served(req, 50 * MS);
    assert_eq!(gone.actual_dispatch_ns, gone.intended_dispatch_ns);
}

#[test]
fn late_dispatches_are_counted_and_fail_the_run() {
    let mut c = cfg();
    c.scenario.warmup_s = b(1.0);
    let mut tally = Tally::new(&c);
    // Exactly at the threshold is not late.
    assert_eq!(tally.dispatch(0, MS).lateness, MS);
    assert_eq!(tally.late_dispatches, 0);
    // Late within the warmup does not count against the run.
    tally.dispatch(10 * MS, 12 * MS);
    assert_eq!((tally.late_dispatches, tally.late_post_warmup), (1, 0));
    assert!(!tally.coordinated_omission());
    for i in 0..1000u128 {
        tally.dispatch(1000 * MS + i, 1000 * MS + i);
    }
    assert!(!tally.coordinated_omission());
    // One in a thousand is the limit, two are over it.
    tally.dispatch(1500 * MS, 1502 * MS);
    assert_eq!((tally.post_warmup, tally.late_post_warmup), (1001, 1));
    assert!(!tally.coordinated_omission());
    tally.dispatch(1500 * MS, 1502 * MS);
    assert!(tally.coordinated_omission());
    assert_eq!(tally.late_dispatches, 3);
}

#[test]
fn dispatch_waits_only_for_what_is_due_later() {
    let mut tally = Tally::new(&cfg());
    assert_eq!(tally.dispatch(5 * MS, 2 * MS).sleep_until, Some(5 * MS));
    assert_eq!(tally.dispatch(5 * MS, 5 * MS).sleep_until, None);
    assert_eq!(tally.dispatch(5 * MS, 9 * MS).sleep_until, None);
}

#[test]
fn generator_lag_gives_no_extra_time() {
    let cfg = cfg();
    let timeline = timeline(&cfg);
    let oracle = Oracle::new(&cfg);
    let req = &timeline.requests[10];
    let record = |actual: u128, lateness: u128| {
        let resp: Result<ProgramReply, ()> = Ok(reply_for(Mode::Correct, req).0);
        build_record(req, &oracle, resp, 0, actual, 101 * MS, 50 * MS, lateness)
    };
    let prompt = record(50 * MS, 0);
    let late = record(90 * MS, 40 * MS);
    assert_eq!(prompt.deadline_ns, late.deadline_ns);
    assert_eq!(prompt.e2e_ns(), late.e2e_ns());
    assert_eq!(prompt.outcome, Outcome::Expired);
    assert_eq!(late.outcome, Outcome::Expired);
    assert_eq!(late.late_dispatch_ns, 40_000_000);
}
