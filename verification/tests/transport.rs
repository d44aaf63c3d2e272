//! Framing, reply matching, downstream calls and the readiness handshake.

use tailbench::binary64::Binary64;
use tailbench::call::{CallCtx, CallReply, Pending};
use tailbench::config::{
    Arrival, Config, DownstreamCfg, Load, RequestClassCfg, Scenario, Slo,
};
use tailbench::distributions::{Distribution, Draw};
use tailbench::downstream::{probe_ctx, DownstreamCluster, Permitted};
use tailbench::ready::{after_look, is_disconnect, IoFailure, Wait};
use tailbench::rng::{call_digest, call_rng};
use tailbench::span::CallOutcome;
use tailbench::wire::{announced_length, frame, length_prefix, unframe};

fn b(x: f64) -> Binary64 {
    Binary64::from_bits(x.to_bits())
}

#[test]
fn frames_are_read_back() {
    for body in [vec![], vec![7], (0..300u32).map(|i| i as u8).collect::<Vec<u8>>()] {
        let mut bytes = frame(&body);
        assert_eq!(&bytes[..4], &(body.len() as u32).to_le_bytes());
        let used = bytes.len();
        bytes.extend([1, 2, 3]);
        assert_eq!(unframe(&bytes), Some((body, used)));
    }
}

#[test]
fn unfinished_frames_wait() {
    let bytes = frame(&vec![1, 2, 3, 4, 5]);
    for n in 0..bytes.len() {
        assert_eq!(unframe(&bytes[..n].to_vec()), None);
    }
    assert!(unframe(&bytes).is_some());
}

#[test]
fn length_prefixes_are_little_endian() {
    for n in [0usize, 1, 255, 256, 65_537, 0x0102_0304, u32::MAX as usize] {
        let prefix = length_prefix(n);
        assert_eq!(prefix, (n as u32).to_le_bytes().to_vec());
        assert_eq!(announced_length([prefix[0], prefix[1], prefix[2], prefix[3]]), n as u32);
    }
}

#[test]
fn replies_find_their_callers() {
    let mut pending: Pending<&str> = Pending::new();
    let a = pending.register("first");
    let c = pending.register("second");
    assert_eq!((a, c), (0, 1));
    assert_eq!(pending.complete(c), Some("second"));
    assert_eq!(pending.complete(c), None);
    assert_eq!(pending.complete(a), Some("first"));
    assert_eq!(pending.complete(99), None);
    assert_eq!(pending.register("third"), 2);
}

fn cluster(distribution: Distribution) -> DownstreamCluster {
    let downstream = |id: &str, capacity| DownstreamCfg {
        id: id.to_string(),
        distribution: distribution.clone(),
        capacity,
        timeout_ms: b(250.0),
    };
    DownstreamCluster::new(Config {
        scenario: Scenario {
            id: "t".to_string(),
            seed: 5,
            duration_s: b(1.0),
            warmup_s: b(0.0),
        },
        load: Load {
            arrival: Arrival::Constant,
            rate_rps: b(1.0),
            burstiness_cv: None,
            target_utilization: None,
        },
        slo: Slo { budget_ms: b(50.0), penalty_ms: None },
        request_classes: vec![RequestClassCfg {
            name: "c".to_string(),
            weight: b(1.0),
            requires: vec!["svc_a".to_string()],
        }],
        downstreams: vec![downstream("svc_a", 3), downstream("svc_b", 9)],
    })
}

const CTX: CallCtx = CallCtx { request_id: 12, attempt: 1 };

#[test]
fn slots_follow_the_configuration() {
    let c = cluster(Distribution::Constant { ms: b(20.0) });
    assert_eq!(c.slot("svc_a"), Some(0));
    assert_eq!(c.slot("svc_b"), Some(1));
    assert_eq!(c.slot("svc_c"), None);
    assert_eq!((c.len(), c.capacity(0), c.capacity(1)), (2, 3, 9));
}

#[test]
fn time_in_the_queue_counts_toward_the_timeout() {
    let c = cluster(Distribution::Constant { ms: b(20.0) });
    // 240 ms queued and 20 ms to serve make 260 ms: over the timeout of 250.
    let late = c.serve(1, CTX, 240_000_000, 20_000_000);
    assert_eq!(late.served_ns, 10_000_000);
    assert_eq!(
        late.reply,
        CallReply {
            digest: None,
            queue_wait_ns: 240_000_000,
            service_ns: 10_000_000,
            outcome: CallOutcome::Timeout,
        }
    );
    let ok = c.serve(1, CTX, 229_999_999, 20_000_000);
    assert_eq!(ok.served_ns, 20_000_000);
    assert_eq!(
        ok.reply,
        CallReply {
            digest: Some(call_digest(5, 12, 1)),
            queue_wait_ns: 229_999_999,
            service_ns: 20_000_000,
            outcome: CallOutcome::Success,
        }
    );
    // Exactly at the timeout is too late.
    assert_eq!(c.serve(1, CTX, 230_000_000, 20_000_000).reply.outcome, CallOutcome::Timeout);
}

#[test]
fn a_call_stuck_in_the_queue_is_not_served() {
    let c = cluster(Distribution::Constant { ms: b(20.0) });
    assert_eq!(
        c.permitted(0, CTX, 250_000_000),
        Permitted::Done {
            reply: CallReply {
                digest: None,
                queue_wait_ns: 250_000_000,
                service_ns: 0,
                outcome: CallOutcome::Timeout,
            }
        }
    );
    assert_eq!(
        c.permitted(0, CTX, 249_999_999),
        Permitted::Serve { draw: Draw::Ms { ms: b(20.0) } }
    );
}

#[test]
fn service_times_come_from_the_call_site() {
    let d = Distribution::LogNormal { median_ms: b(8.0), sigma: b(0.6) };
    let c = cluster(d.clone());
    let mut rng = call_rng(5, 12, 1, 1);
    assert_eq!(
        c.permitted(1, CTX, 0),
        Permitted::Serve { draw: d.sample_ms(&mut rng) }
    );
    let again = CallCtx { request_id: 12, attempt: 2 };
    assert!(c.permitted(1, CTX, 0) != c.permitted(1, again, 0));
    assert!(c.permitted(1, CTX, 0) != c.permitted(0, CTX, 0));
}

#[test]
fn probes_stay_clear_of_a_run() {
    assert_eq!(probe_ctx(0), CallCtx { request_id: u64::MAX, attempt: 0 });
    assert_eq!(probe_ctx(3).request_id, u64::MAX - 3);
}

#[test]
fn waiting_for_a_peer_ends() {
    assert_eq!(after_look(0, true), Wait::Ready);
    assert_eq!(after_look(0, false), Wait::Again);
    assert_eq!(after_look(299, true), Wait::Ready);
    assert_eq!(after_look(300, false), Wait::TimedOut);
}

#[test]
fn disconnects_are_told_from_errors() {
    assert!(is_disconnect(Some(IoFailure::UnexpectedEof)));
    assert!(is_disconnect(Some(IoFailure::BrokenPipe)));
    assert!(!is_disconnect(Some(IoFailure::Other)));
    assert!(!is_disconnect(None));
}
