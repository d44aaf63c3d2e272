//! The load generator as a command.

use tailbench::binary64::Binary64;
use tailbench::calendar::{date_of, utc_stamp, Date};
use tailbench::config::{Arrival, Config, Load, Scenario, Slo};
use tailbench::load_generator::RunOutcome;
use tailbench::distributions::{ClosedForm, Distribution};
use tailbench::loadgen::{
    after_try, comparison_line, environment, is_blank, is_dirty, manifest, mean, notice, printed_sha256, replay_file,
    replay_text, run_dir_name, slug, trimmed, variance, variant, DirectoryStep, Provenance, Quantile,
    Replays,
};
use tailbench::report::{build, ReportInput};

fn b(x: f64) -> Binary64 {
    Binary64::from_bits(x.to_bits())
}

fn f(x: Binary64) -> f64 {
    f64::from_bits(x.to_bits())
}

#[test]
fn stamps_are_utc() {
    assert_eq!(utc_stamp(0), "19700101-000000");
    assert_eq!(utc_stamp(951_782_400), "20000229-000000");
    assert_eq!(utc_stamp(951_868_799), "20000229-235959");
    assert_eq!(utc_stamp(1_700_000_000), "20231114-221320");
    assert_eq!(utc_stamp(4_107_542_400), "21000301-000000");
    assert_eq!(utc_stamp(4_107_542_399), "21000228-235959");
    assert_eq!(utc_stamp(253_402_300_800), "100000101-000000");
}

#[test]
fn dates_follow_one_another() {
    let mut prev = date_of(0);
    assert_eq!(prev, Date { year: 1970, month: 1, day: 1 });
    for days in 1..200_000u64 {
        let d = date_of(days);
        let next_day = d.year == prev.year && d.month == prev.month && d.day == prev.day + 1;
        let next_month = d.year == prev.year && d.month == prev.month + 1 && d.day == 1;
        let next_year =
            d.year == prev.year + 1 && d.month == 1 && d.day == 1 && prev.month == 12;
        assert!(next_day || next_month || next_year, "{prev:?} then {d:?}");
        prev = d;
    }
}

#[test]
fn directories_are_named_by_time_and_scenario() {
    assert_eq!(slug("fanout/bimodal v2"), "fanout-bimodal-v2");
    assert_eq!(slug("été_1"), "-t--1");
    assert_eq!(run_dir_name("20231114-221320", "smoke", 0), "20231114-221320-smoke");
    assert_eq!(run_dir_name("20231114-221320", "smoke", 12), "20231114-221320-smoke-12");
}

#[test]
fn replays_have_numbered_files() {
    assert_eq!(replay_file("requests", 1, 0, ".jsonl"), "requests.jsonl");
    assert_eq!(replay_file("requests", 5, 0, ".jsonl"), "requests.0.jsonl");
    assert_eq!(replay_file("run", 12, 11, ".json"), "run.11.json");
}

#[test]
fn only_linux_with_a_cpuset_is_pinned() {
    assert_eq!(environment(true, true), "linux-pinned");
    assert_eq!(environment(true, false), "unpinned");
    assert_eq!(environment(false, true), "unpinned");
    assert_eq!(notice("linux-pinned"), None);
    assert_eq!(
        notice("unpinned").unwrap(),
        "\nNON-AUTHORITATIVE: environment=unpinned. Authoritative runs require a \
         Linux host with cpusets applied."
    );
}

#[test]
fn command_output_is_trimmed_as_in_std() {
    let spaces = "\u{9}\u{b}\u{85}\u{a0}\u{1680}\u{2003}\u{2028}\u{202f}\u{3000}";
    for text in [
        "",
        "  ",
        "abc",
        " a b \n",
        "\r\nmain\r\n",
        &format!("{spaces}x{spaces}"),
        "\u{200b}zero width stays\u{200b}",
    ] {
        assert_eq!(trimmed(text), text.trim());
        assert_eq!(is_blank(text), text.trim().is_empty());
    }
}

#[test]
fn spaces_are_those_of_unicode() {
    for n in 0..0x1_1000u32 {
        if let Some(c) = char::from_u32(n) {
            let s = c.to_string();
            assert_eq!(is_blank(&s), c.is_whitespace(), "U+{n:04X}");
        }
    }
}

#[test]
fn hashes_are_taken_from_checksum_output() {
    let hash = "0123456789abcdef0123456789ABCDEF0123456789abcdef0123456789ABCDEF";
    assert_eq!(
        printed_sha256(&format!("{hash}  crates/main.rs\n")),
        Some(hash.to_ascii_lowercase())
    );
    assert_eq!(printed_sha256(&format!("  {hash}")), Some(hash.to_ascii_lowercase()));
    assert_eq!(printed_sha256(&format!("{hash}0  x")), None);
    assert_eq!(printed_sha256(&hash[1..]), None);
    assert_eq!(printed_sha256(&hash.replace('a', "g")), None);
    assert_eq!(printed_sha256("sha256sum: no such file"), None);
    assert_eq!(printed_sha256(""), None);
}

#[test]
fn provenance_is_read_from_git() {
    assert!(!is_dirty(&vec![]));
    assert!(!is_dirty(&b" \t\n\x0c\r"[..].to_vec()));
    assert!(is_dirty(&b" M src/main.rs\n"[..].to_vec()));
    assert!(is_dirty(&b"\x0b"[..].to_vec()));
    assert_eq!(variant("hedged-calls\n"), Some("hedged-calls".to_string()));
    assert_eq!(variant("HEAD\n"), None);
    assert_eq!(variant("  \n"), None);
}

#[test]
fn replay_noise_is_mean_and_variance() {
    let xs = vec![b(10.0), b(12.5), b(11.0)];
    assert_eq!(f(mean(&xs)), (10.0 + 12.5 + 11.0) / 3.0);
    let m = (10.0 + 12.5 + 11.0) / 3.0;
    let want = ((10.0f64 - m).powi(2) + (12.5f64 - m).powi(2) + (11.0f64 - m).powi(2)) / 2.0;
    assert_eq!(f(variance(&xs)), want);
    assert_eq!(f(variance(&vec![b(3.0)])), 0.0);
    let mut replays = Replays::new();
    let records = Vec::new();
    let mut rep = build(ReportInput {
        records: &records,
        warmup_s: b(0.0),
        duration_s: b(1.0),
        penalty_ms: b(1.0),
        coordinated_omission_failure: false,
    });
    for (cvar, p99, failed) in [(10.0, 5.0, false), (20.0, 6.0, true), (30.0, 7.0, false)] {
        rep.cvar_99 = b(cvar);
        rep.p99 = b(p99);
        rep.failed = failed;
        replays.take(&rep);
    }
    assert!(replays.any_failed);
    assert_eq!(
        replay_text(3, &replays, b(10.0), b(1.0)),
        "\nreplay over 3 runs:\n  cvar_99  mean 20.00 ms  sd 10.000 ms\n  \
         p99      mean 6.00 ms  sd 1.000 ms"
    );
}

#[test]
fn manifests_describe_the_run() {
    let cfg = Config {
        scenario: Scenario {
            id: "smoke".to_string(),
            seed: 9,
            duration_s: b(2.0),
            warmup_s: b(0.5),
        },
        load: Load {
            arrival: Arrival::Constant,
            rate_rps: b(1.0),
            burstiness_cv: None,
            target_utilization: None,
        },
        slo: Slo { budget_ms: b(50.0), penalty_ms: None },
        request_classes: vec![],
        downstreams: vec![],
    };
    let outcome = RunOutcome {
        records: Vec::new(),
        late_dispatches: 4,
        coordinated_omission_failure: true,
    };
    let from = Provenance {
        scenario_path: "scenarios/smoke.toml".to_string(),
        git_sha: Some("abc".to_string()),
        program_sha256: "unknown".to_string(),
        git_dirty: true,
        program_variant: None,
        environment: "unpinned".to_string(),
        cpuset: None,
        worker_threads: Some(4),
        kernel: None,
    };
    let m = manifest(&cfg, &outcome, from);
    assert_eq!(m.scenario_id, "smoke");
    assert_eq!(m.scenario_path, "scenarios/smoke.toml");
    assert_eq!((m.seed, m.late_dispatches, m.scheduled_requests), (9, 4, 0));
    assert_eq!((f(m.budget_ms), f(m.penalty_ms)), (50.0, 500.0));
    assert!(m.coordinated_omission_failure && m.git_dirty);
    assert!(!m.is_authoritative());
}

#[test]
fn measured_quantiles_are_compared_with_the_closed_form() {
    let records = Vec::new();
    let mut rep = build(ReportInput {
        records: &records,
        warmup_s: b(0.0),
        duration_s: b(1.0),
        penalty_ms: b(100.0),
        coordinated_omission_failure: false,
    });
    rep.p50 = b(5.25);
    rep.p90 = b(9.5);
    rep.p99 = b(181.0);
    let uniform = Distribution::Uniform { min_ms: b(0.0), max_ms: b(10.0) };
    let c = Quantile::P90.compare(&rep, &uniform).unwrap();
    assert_eq!(c.quantile, Quantile::P90);
    assert_eq!((f(c.measured), c.analytic), (9.5, ClosedForm::Ms { ms: b(9.0) }));
    let bimodal = Distribution::Bimodal { fast_ms: b(3.0), slow_ms: b(180.0), p_slow: b(0.02) };
    let c = Quantile::P99.compare(&rep, &bimodal).unwrap();
    assert_eq!((f(c.measured), c.analytic), (181.0, ClosedForm::Ms { ms: b(180.0) }));
    assert_eq!(Quantile::P50.compare(&rep, &bimodal).unwrap().measured, b(5.25));
    let trace = Distribution::Empirical { samples_ms: vec![b(1.0)] };
    assert!(Quantile::P50.compare(&rep, &trace).is_none());

    for (q, label, m, a) in [
        (Quantile::P50, "p50", 5.25, 5.0),
        (Quantile::P90, "p90", 9.0, 9.5),
        (Quantile::P99, "p99", 123456789.5, 0.0),
        (Quantile::P99, "p99", f64::NAN, 1.0),
    ] {
        assert_eq!(
            comparison_line(q, b(m), b(a)),
            format!("  {label:<6} {m:>10.3} {a:>10.3} {:>+10.3}", m - a)
        );
    }
}

#[test]
fn stamps_sort_by_time() {
    let secs = [0, 1, 59, 60, 3_599, 3_600, 86_399, 86_400, 2_678_399, 2_678_400, 31_535_999];
    let mut all: Vec<u64> = secs.iter().flat_map(|s| [*s, s + 951_782_400]).collect();
    all.sort();
    let names: Vec<String> =
        all.iter().map(|s| run_dir_name(&utc_stamp(*s), "a-scenario", 0)).collect();
    assert!(names.windows(2).all(|w| w[0] < w[1]), "{names:?}");
    assert!(utc_stamp(253_402_300_799) > utc_stamp(253_402_300_800));
}

#[test]
fn only_empty_directories_are_taken() {
    assert_eq!(after_try(0, true), DirectoryStep::Take);
    assert_eq!(after_try(0, false), DirectoryStep::Next);
    assert_eq!(after_try(98, false), DirectoryStep::Next);
    assert_eq!(after_try(99, false), DirectoryStep::GiveUp);
    assert_eq!(after_try(99, true), DirectoryStep::Take);
    assert_eq!(after_try(u32::MAX, false), DirectoryStep::GiveUp);
}
