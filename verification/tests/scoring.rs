//! The success definition, and what records are worth.

use tailbench::binary64::Binary64;
use tailbench::call::{CallCtx, CallReply};
use tailbench::clock::duration_to_ms;
use tailbench::config::{
    Arrival, Config, DownstreamCfg, Load, RequestClassCfg, Scenario, Slo,
};
use tailbench::distributions::Distribution;
use tailbench::load_generator::budget;
use tailbench::oracle::Oracle;
use tailbench::program::{handle, plan};
use tailbench::protocol::{ServiceReply, ServiceRequest};
use tailbench::record::{Outcome, RequestRecord, RunManifest};
use tailbench::rng::{call_digest, payload_nonce};
use tailbench::span::{CallOutcome, CallSpan};
use tailbench::target::{fanout_response, synthetic_response};
use tailbench::timeline::ScheduledRequest;

fn b(x: f64) -> Binary64 {
    Binary64::from_bits(x.to_bits())
}

fn f(x: Binary64) -> f64 {
    f64::from_bits(x.to_bits())
}

fn config() -> Config {
    let downstream = |id: &str| DownstreamCfg {
        id: id.to_string(),
        distribution: Distribution::Constant { ms: b(1.0) },
        capacity: 4,
        timeout_ms: b(250.0),
    };
    Config {
        scenario: Scenario {
            id: "t".to_string(),
            seed: 42,
            duration_s: b(2.0),
            warmup_s: b(0.0),
        },
        load: Load {
            arrival: Arrival::Constant,
            rate_rps: b(200.0),
            burstiness_cv: None,
            target_utilization: None,
        },
        slo: Slo { budget_ms: b(50.0), penalty_ms: None },
        request_classes: vec![RequestClassCfg {
            name: "c".to_string(),
            weight: b(1.0),
            requires: vec!["svc_a".to_string(), "svc_b".to_string()],
        }],
        downstreams: vec![downstream("svc_a"), downstream("svc_b")],
    }
}

fn request(id: u64) -> ScheduledRequest {
    ScheduledRequest {
        request_id: id,
        offset: 5_000_000 * id as u128,
        class: "c".to_string(),
        required: vec!["svc_a".to_string(), "svc_b".to_string()],
        nonce: payload_nonce(42, id),
        offered_load_rps: b(200.0),
    }
}

fn message(req: &ScheduledRequest, tag: u64) -> ServiceRequest {
    tailbench::loadgen_client::request_message(req, tag)
}

fn reply(id: u64, ds: u16) -> CallReply {
    CallReply {
        digest: Some(call_digest(42, id, ds)),
        queue_wait_ns: 10,
        service_ns: 1_000_000,
        outcome: CallOutcome::Success,
    }
}

fn served(id: u64) -> ServiceReply {
    let req = request(id);
    handle(
        &message(&req, 9),
        vec![
            ("svc_a".to_string(), Ok(reply(id, 0))),
            ("svc_b".to_string(), Ok(reply(id, 1))),
        ],
    )
}

fn verdict(reply: ServiceReply, completion: u64, deadline: u64) -> (Outcome, Option<bool>, bool) {
    let oracle = Oracle::new(&config());
    let resp: Result<ServiceReply, ()> = Ok(reply);
    oracle.classify(&request(3), &resp, completion, deadline)
}

#[test]
fn honest_work_succeeds() {
    assert_eq!(verdict(served(3), 10, 10), (Outcome::Success, Some(true), true));
}

#[test]
fn late_work_expires_however_correct() {
    assert_eq!(verdict(served(3), 11, 10), (Outcome::Expired, Some(true), true));
}

#[test]
fn skipped_calls_are_incorrect() {
    let mut r = served(3);
    r.spans = Vec::new();
    assert_eq!(verdict(r, 1, 10), (Outcome::Incorrect, Some(true), false));
    let mut r = served(3);
    r.spans[1].outcome = CallOutcome::Timeout;
    assert_eq!(verdict(r, 1, 10), (Outcome::Incorrect, Some(true), false));
}

#[test]
fn wrong_digests_are_incorrect() {
    let mut r = served(3);
    r.digest = Some(r.digest.unwrap() ^ 0xDEAD);
    assert_eq!(verdict(r, 1, 10), (Outcome::Incorrect, Some(false), true));
    let mut r = served(3);
    r.digest = None;
    assert_eq!(verdict(r, 1, 10), (Outcome::Incorrect, None, true));
}

#[test]
fn answers_kept_from_another_request_fail() {
    assert_eq!(verdict(served(4), 1, 10).0, Outcome::Incorrect);
}

#[test]
fn errors_are_errors() {
    let mut r = served(3);
    r.error = Some("svc_a: gone".to_string());
    assert_eq!(verdict(r, 10, 10), (Outcome::Error, None, false));
    let oracle = Oracle::new(&config());
    let resp: Result<ServiceReply, &str> = Err("connection closed");
    assert_eq!(oracle.classify(&request(3), &resp, 1, 10), (Outcome::Error, None, false));
}

#[test]
fn late_errors_expire_too() {
    let mut r = served(3);
    r.error = Some("svc_a: gone".to_string());
    r.digest = None;
    assert_eq!(verdict(r, 11, 10), (Outcome::Expired, None, true));
    let oracle = Oracle::new(&config());
    let resp: Result<ServiceReply, &str> = Err("connection closed");
    assert_eq!(oracle.classify(&request(3), &resp, 10, 10), (Outcome::Error, None, false));
    assert_eq!(oracle.classify(&request(3), &resp, 11, 10), (Outcome::Expired, None, false));
}

#[test]
fn extra_calls_and_order_do_not_matter() {
    let mut r = served(3);
    r.spans.reverse();
    let extra = CallSpan {
        downstream_id: "svc_a".to_string(),
        attempt: 1,
        queue_wait_ns: 0,
        service_ns: 5,
        outcome: CallOutcome::Timeout,
    };
    r.spans.insert(0, extra);
    assert_eq!(verdict(r, 1, 10).0, Outcome::Success);
}

#[test]
fn oracle_numbers_downstreams_in_order() {
    let oracle = Oracle::new(&config());
    assert_eq!(oracle.index_of("svc_a"), Some(0));
    assert_eq!(oracle.index_of("svc_b"), Some(1));
    assert_eq!(oracle.index_of("svc"), None);
    let mut req = request(3);
    req.required = vec!["svc_b".to_string(), "unknown".to_string()];
    let mut digests = vec![call_digest(42, 3, 1)];
    assert_eq!(
        oracle.expected_digest(&req),
        tailbench::digest::fold_digest(req.nonce, &mut digests)
    );
}

#[test]
fn program_plans_every_required_call() {
    let req = request(3);
    let (ctx, names) = plan(&message(&req, 1));
    assert_eq!(ctx, CallCtx { request_id: 3, attempt: 0 });
    assert_eq!(names, vec!["svc_a".to_string(), "svc_b".to_string()]);
}

#[test]
fn program_stops_at_the_first_failed_call() {
    let req = request(3);
    let r = handle(
        &message(&req, 77),
        vec![
            ("svc_a".to_string(), Ok(reply(3, 0))),
            ("svc_b".to_string(), Err("channel closed".to_string())),
            ("svc_c".to_string(), Err("unseen".to_string())),
        ],
    );
    assert_eq!(r.tag, 77);
    assert_eq!(r.digest, None);
    assert_eq!(r.error.as_deref(), Some("svc_b: channel closed"));
    assert_eq!(r.spans.len(), 1);
    assert_eq!(r.spans[0].downstream_id, "svc_a");
}

#[test]
fn program_folds_only_the_digests_there_are() {
    let req = request(3);
    let mut timed_out = reply(3, 1);
    timed_out.digest = None;
    timed_out.outcome = CallOutcome::Timeout;
    let r = handle(
        &message(&req, 1),
        vec![
            ("svc_a".to_string(), Ok(reply(3, 0))),
            ("svc_b".to_string(), Ok(timed_out)),
        ],
    );
    let mut digests = vec![call_digest(42, 3, 0)];
    assert_eq!(r.digest, Some(tailbench::digest::fold_digest(req.nonce, &mut digests)));
    assert_eq!(r.spans[1].outcome, CallOutcome::Timeout);
    assert!(r.error.is_none());
}

#[test]
fn targets_answer_like_the_program() {
    let req = request(3);
    let ok: Result<_, String> = fanout_response(
        &req,
        vec![
            ("svc_a".to_string(), Ok(reply(3, 0))),
            ("svc_b".to_string(), Ok(reply(3, 1))),
        ],
    );
    let response = ok.unwrap();
    assert_eq!(response.digest, served(3).digest);
    assert_eq!(response.spans.len(), 2);
    assert!(response.failure.is_none());
    let failed = fanout_response(&req, vec![("svc_a".to_string(), Err(5u8))]);
    assert_eq!(failed.unwrap_err(), 5);
    let mut none: Vec<u64> = Vec::new();
    assert_eq!(
        synthetic_response(&req).digest,
        Some(tailbench::digest::fold_digest(req.nonce, &mut none))
    );
}

fn record(outcome: Outcome, intended: u64, completion: Option<u64>) -> RequestRecord {
    RequestRecord {
        request_id: 0,
        class: "c".to_string(),
        intended_dispatch_ns: intended,
        actual_dispatch_ns: intended + 5,
        deadline_ns: intended + 50_000_000,
        first_byte_ns: None,
        completion_ns: completion,
        outcome,
        expired: false,
        offered_load_rps: b(1.0),
        response_digest: None,
        digest_ok: None,
        required_calls_met: true,
        spans: Vec::new(),
        late_dispatch_ns: 0,
    }
}

#[test]
fn records_score_latency_or_penalty() {
    let ok = record(Outcome::Success, 1_000_000, Some(3_500_000));
    assert_eq!(ok.e2e_ns(), Some(2_500_000));
    assert_eq!(f(ok.scored_latency_ms(b(500.0))), 2.5);
    let odd = record(Outcome::Success, 0, Some(1_234_567));
    assert_eq!(f(odd.scored_latency_ms(b(500.0))), 1_234_567.0 / 1e6);
    for outcome in [
        Outcome::Expired,
        Outcome::Incorrect,
        Outcome::Error,
        Outcome::Dropped,
        Outcome::NeverServed,
    ] {
        assert!(!outcome.is_ok());
        let r = record(outcome, 1_000_000, Some(3_500_000));
        assert_eq!(f(r.scored_latency_ms(b(500.0))), 500.0);
    }
    assert!(Outcome::Success.is_ok());
    let open = record(Outcome::Success, 10, None);
    assert_eq!(open.e2e_ns(), None);
    assert_eq!(f(open.scored_latency_ms(b(500.0))), 500.0);
    assert_eq!(record(Outcome::Success, 10, Some(4)).e2e_ns(), Some(0));
}

/// The budget of a scenario as it is kept and scored, in milliseconds, and its
/// penalty.
fn measured(budget_ms: f64, penalty_ms: Option<f64>) -> (f64, f64) {
    let mut cfg = config();
    cfg.slo = Slo { budget_ms: b(budget_ms), penalty_ms: penalty_ms.map(b) };
    assert_eq!(cfg.validate(), Ok(()));
    (f(duration_to_ms(budget(&cfg) as u64)), f(cfg.slo.penalty_ms()))
}

#[test]
fn the_penalty_exceeds_the_measured_budget() {
    let mut budget_ms = 1e-300;
    while budget_ms < 1e13 {
        let (kept, penalty) = measured(budget_ms, None);
        assert!(kept < penalty, "{budget_ms}");
        budget_ms *= 1.7;
    }
    for (budget_ms, penalty_ms) in [(50.0, 50.000001), (1e-9, 1e-6), (1e12, 1e12 + 0.01)] {
        let (kept, penalty) = measured(budget_ms, Some(penalty_ms));
        assert!(kept < penalty, "{budget_ms} {penalty_ms}");
    }
    // Within the rounding to nanoseconds.
    assert_eq!(measured(6e-7, Some(7e-7)), (1e-6, 7e-7));
}

#[test]
fn span_totals_include_the_queue() {
    let ctx = CallCtx { request_id: 3, attempt: 2 };
    let span = tailbench::call::span_of("svc_a", ctx, &reply(3, 0));
    assert_eq!(span.downstream_id, "svc_a");
    assert_eq!(span.attempt, 2);
    assert_eq!(span.total_ns(), 1_000_010);
    assert_eq!(span.clone().total_ns(), 1_000_010);
}

#[test]
fn only_pinned_runs_are_authoritative() {
    let mut m = RunManifest {
        scenario_id: "t".to_string(),
        scenario_path: "t.toml".to_string(),
        seed: 1,
        git_sha: None,
        program_sha256: "unknown".to_string(),
        git_dirty: false,
        program_variant: None,
        environment: "linux-pinned".to_string(),
        cpuset: None,
        worker_threads: None,
        kernel: None,
        budget_ms: b(1.0),
        penalty_ms: b(10.0),
        warmup_s: b(0.0),
        duration_s: b(1.0),
        scheduled_requests: 0,
        late_dispatches: 0,
        coordinated_omission_failure: false,
    };
    assert!(m.is_authoritative());
    m.environment = "unpinned".to_string();
    assert!(!m.is_authoritative());
}
