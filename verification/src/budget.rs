//! A valid scenario's penalty exceeds its budget, also once both are measured.
//!
//! The budget is written in milliseconds and kept in nanoseconds; latencies are
//! counted in nanoseconds and scored in milliseconds. Each step rounds. What is
//! left of the budget after these steps is still below the penalty, unless a
//! penalty was asked for that lies within the rounding.

use vstd::arithmetic::power2::lemma2_to64;
use vstd::arithmetic::power2::lemma2_to64_rest;
use vstd::arithmetic::power2::lemma_pow2_adds;
use vstd::arithmetic::power2::lemma_pow2_strictly_increases;
use vstd::arithmetic::power2::pow2;
use vstd::prelude::*;

use crate::arithmetic::lemma_signed;
use crate::arithmetic::one;
use crate::binary64::size_of_magnitude;
use crate::binary64::Binary64;
use crate::binary64::HIDDEN;
use crate::clock::ns_to_ms;
use crate::clock::MILLION;
use crate::clock::THOUSAND;
use crate::config::Config;
use crate::config::TEN;
use crate::conversion::is_time;
use crate::conversion::nanoseconds;
use crate::conversion::whole;
use crate::load_generator::budget_of;
use crate::load_generator::lemma_success_beats_failure;
use crate::loadgen::mean_of;
use crate::order::lemma_rounded_zero;
use crate::order::lemma_whole_units;
use crate::precision::lemma_nearest_integer_close;
use crate::precision::lemma_rounded_not_far_down;
use crate::precision::lemma_rounded_not_far_up;
use crate::record::Outcome;
use crate::record::RequestRecord;
use crate::report::cvar_of;
use crate::report::percentile_of;
use crate::report::scores;
use crate::report::sorted_values;
use crate::rounding::lemma_powers;
use crate::rounding::rounded;
use crate::seconds::lemma_ns_to_ms_monotone;
use crate::seconds::lemma_whole_finite;
use crate::seconds::LONGEST;
use crate::tail::exceeds;
use crate::tail::fails;
use crate::tail::lemma_failing_never_helps;

verus! {

/// The budget of a scenario in seconds.
pub open spec fn budget_in_seconds(c: Config) -> Binary64 {
    c.slo.budget_ms.over(Binary64 { bits: THOUSAND })
}

/// Half a nanosecond and one part in 2^50 lie between the two, at least: more
/// than rounding takes away.
pub open spec fn clear_of(penalty_ms: Binary64, budget_ms: Binary64) -> bool {
    0x4_0000_0000_0000 * (2_000_000 * penalty_ms.units()) >= 0x4_0000_0000_0001 * (2_000_000
        * budget_ms.units() + one())
}

/// The penalty of a scenario is the default one, or clear of the budget.
pub open spec fn penalty_clear(c: Config) -> bool {
    c.slo.penalty_ms is None || clear_of(c.slo.penalty(), c.slo.budget_ms)
}

proof fn lemma_sizes()
    ensures
        size_of_magnitude(TEN as nat) == 10 * one(),
        size_of_magnitude(THOUSAND as nat) == 1000 * one(),
        size_of_magnitude(MILLION as nat) == 1_000_000 * one(),
        one() >= 0x1_0000_0000_0000_0000_0000_0000_0000_0000,
{
    lemma_powers();
    lemma2_to64();
    lemma2_to64_rest();
    lemma_pow2_adds(49, 1025);
    lemma_pow2_adds(43, 1031);
    lemma_pow2_adds(33, 1041);
    lemma_pow2_adds(64, 64);
    lemma_pow2_strictly_increases(128, 1074);
    assert(TEN as nat / HIDDEN as nat == 1026 && TEN as nat % HIDDEN as nat == 0x4_0000_0000_0000);
    assert(THOUSAND as nat / HIDDEN as nat == 1032 && THOUSAND as nat % HIDDEN as nat
        == 0xF_4000_0000_0000);
    assert(MILLION as nat / HIDDEN as nat == 1042 && MILLION as nat % HIDDEN as nat
        == 0xE_8480_0000_0000);
    let a = pow2(1025);
    let b = pow2(1031);
    let c = pow2(1041);
    assert((10 * 0x2_0000_0000_0000) * a == 10 * (0x2_0000_0000_0000 * a)) by (nonlinear_arith);
    assert((1000 * 0x800_0000_0000) * b == 1000 * (0x800_0000_0000 * b)) by (nonlinear_arith);
    assert((1_000_000 * 0x2_0000_0000) * c == 1_000_000 * (0x2_0000_0000 * c))
        by (nonlinear_arith);
}

/// 10 is ten times 1.
pub proof fn lemma_ten()
    ensures
        (Binary64 { bits: TEN }).not_negative(),
        (Binary64 { bits: TEN }).units() == 10 * one(),
{
    lemma_sizes();
}

/// A unit is far below a nanosecond.
pub proof fn lemma_unit_is_fine()
    ensures
        one() >= 0x1_0000_0000_0000_0000_0000_0000_0000_0000,
{
    lemma_sizes();
}

/// How far up the budget is rounded in seconds.
proof fn lemma_seconds_not_far_up(b: Binary64)
    requires
        b.positive(),
    ensures
        ({
            let x = b.over(Binary64 { bits: THOUSAND });
            1000 * (x.size() * 0x20_0000_0000_0000) <= b.size() * 0x20_0000_0000_0001 + 1000
                * 0x10_0000_0000_0000
        }),
{
    lemma_sizes();
    let o = one();
    let d = Binary64 { bits: THOUSAND }.size();
    let m = rounded(b.size() * o, d);
    lemma_rounded_not_far_up(b.size() * o, d);
    lemma_signed(false, m);
    lemma_signed(true, m);
    let x = size_of_magnitude(m);
    let n = b.size();
    assert(1000 * (x * 0x20_0000_0000_0000) <= n * 0x20_0000_0000_0001 + 1000
        * 0x10_0000_0000_0000) by (nonlinear_arith)
        requires
            ((1000 * o) * x) * 0x20_0000_0000_0000 <= (n * o) * 0x20_0000_0000_0001 + (1000 * o)
                * 0x10_0000_0000_0000,
            o > 0,
    ;
}

/// How far up a count of nanoseconds is rounded in milliseconds.
proof fn lemma_ms_not_far_up(ns: nat)
    requires
        ns <= LONGEST,
    ensures
        ({
            let w = whole(ns).size();
            &&& w * 0x20_0000_0000_0000 <= (ns * one()) * 0x20_0000_0000_0001 + 0x10_0000_0000_0000
            &&& 1_000_000 * (ns_to_ms(ns).size() * 0x20_0000_0000_0000) <= w * 0x20_0000_0000_0001
                + 1_000_000 * 0x10_0000_0000_0000
        }),
{
    lemma_sizes();
    let o = one();
    lemma_whole_finite(ns);
    lemma_whole_units(ns);
    lemma_rounded_not_far_up(ns * o, 1);
    let w = whole(ns).size();
    let d = Binary64 { bits: MILLION }.size();
    let m = rounded(w * o, d);
    lemma_rounded_not_far_up(w * o, d);
    lemma_signed(false, m);
    let x = size_of_magnitude(m);
    assert(1_000_000 * (x * 0x20_0000_0000_0000) <= w * 0x20_0000_0000_0001 + 1_000_000
        * 0x10_0000_0000_0000) by (nonlinear_arith)
        requires
            ((1_000_000 * o) * x) * 0x20_0000_0000_0000 <= (w * o) * 0x20_0000_0000_0001 + (
            1_000_000 * o) * 0x10_0000_0000_0000,
            o > 0,
    ;
}

/// The nanoseconds of a time, from what it is worth.
proof fn lemma_nanoseconds_close(x: Binary64)
    requires
        is_time(x),
    ensures
        2 * (nanoseconds(x) * one()) <= 2_000_000_000 * x.size() + one(),
        nanoseconds(x) <= LONGEST,
{
    lemma_sizes();
    let o = one();
    let n = nanoseconds(x);
    lemma_nearest_integer_close(x.size() * 1_000_000_000, o);
    assert(o * n == n * o) by (nonlinear_arith);
    assert(n <= LONGEST) by (nonlinear_arith)
        requires
            2 * (n * o) <= 2_000_000_000 * x.size() + o,
            x.size() < 0x1_0000_0000_0000_0000 * o,
            o > 0,
            LONGEST == 0x1_0000_0000_0000_0000 * 1_000_000_000,
    ;
}

/// What is left of a budget once it is measured: it may grow by half a
/// nanosecond and four parts in 2^53.
proof fn lemma_measured_budget(b: Binary64)
    requires
        b.positive(),
        is_time(b.over(Binary64 { bits: THOUSAND })),
    ensures
        ({
            let m = ns_to_ms(nanoseconds(b.over(Binary64 { bits: THOUSAND })));
            &&& m.finite() && !m.negative()
            &&& 0x20_0000_0000_0000 * (2_000_000 * m.units()) <= 0x20_0000_0000_0004 * (2_000_000
                * b.size() + one())
        }),
{
    let x = b.over(Binary64 { bits: THOUSAND });
    let ns = nanoseconds(x);
    lemma_sizes();
    lemma_seconds_not_far_up(b);
    lemma_nanoseconds_close(x);
    lemma_ms_not_far_up(ns);
    lemma_ns_to_ms_monotone(ns, ns);
}

/// The default penalty is ten budgets, or hardly less.
proof fn lemma_default_penalty(b: Binary64)
    requires
        b.positive(),
        b.times(Binary64 { bits: TEN }).finite(),
    ensures
        b.times(Binary64 { bits: TEN }).size() * 0x20_0000_0000_0000 + 0x10_0000_0000_0000 >= (10
            * b.size()) * 0x1F_FFFF_FFFF_FFFF,
{
    lemma_sizes();
    let o = one();
    let d = Binary64 { bits: TEN }.size();
    let n = b.size();
    let m = rounded(n * d, o);
    lemma_signed(false, m);
    lemma_signed(true, m);
    lemma_rounded_not_far_down(n * d, o);
    let p = size_of_magnitude(m);
    assert(p * 0x20_0000_0000_0000 + 0x10_0000_0000_0000 >= (10 * n) * 0x1F_FFFF_FFFF_FFFF)
        by (nonlinear_arith)
        requires
            (o * p) * 0x20_0000_0000_0000 + o * 0x10_0000_0000_0000 >= (n * (10 * o))
                * 0x1F_FFFF_FFFF_FFFF,
            o > 0,
    ;
}

/// A valid scenario's penalty exceeds its budget as it is kept and scored: in
/// whole nanoseconds, turned back into milliseconds. A penalty that was asked
/// for has to be clear of the budget.
pub proof fn lemma_penalty_exceeds_budget(c: Config)
    requires
        c.valid(),
        is_time(budget_in_seconds(c)),
        penalty_clear(c),
    ensures
        budget_of(c) <= LONGEST,
        ns_to_ms(budget_of(c)).less(c.slo.penalty()),
{
    let b = c.slo.budget_ms;
    let p = c.slo.penalty();
    let x = budget_in_seconds(c);
    let ns = budget_of(c);
    assert(c.slo_fault() is None);
    lemma_sizes();
    lemma_measured_budget(b);
    lemma_nanoseconds_close(x);
    if c.slo.penalty_ms is None {
        if ns == 0 {
            lemma_ms_of_nothing();
        } else {
            lemma_default_penalty(b);
            lemma_seconds_not_far_up(b);
            assert(ns * one() >= one()) by (nonlinear_arith)
                requires
                    ns >= 1,
            ;
        }
    }
}

proof fn lemma_ms_of_nothing()
    ensures
        ns_to_ms(0).units() == 0,
{
    lemma_sizes();
    lemma_whole_units(0);
    lemma_rounded_zero(1);
    assert(0 * one() == 0) by (nonlinear_arith);
    let d = Binary64 { bits: MILLION }.size();
    lemma_rounded_zero(d);
    assert(size_of_magnitude(0) == 0);
    lemma_signed(false, 0);
}

/// Giving up never pays: in a valid scenario every success within the budget
/// scores less than every failure.
pub proof fn lemma_giving_up_never_pays(c: Config, good: RequestRecord, bad: RequestRecord)
    requires
        c.valid(),
        is_time(budget_in_seconds(c)),
        penalty_clear(c),
        good.outcome == Outcome::Success,
        good.latency() matches Some(ns) && ns <= budget_of(c),
        bad.outcome != Outcome::Success,
    ensures
        good.scored(c.slo.penalty()).less(bad.scored(c.slo.penalty())),
{
    lemma_penalty_exceeds_budget(c);
    lemma_success_beats_failure(good, bad, budget_of(c), c.slo.penalty());
}

/// In a valid scenario the penalty exceeds what every success within the
/// budget scores.
pub proof fn lemma_penalty_exceeds_scores(c: Config, records: Seq<RequestRecord>)
    requires
        c.valid(),
        is_time(budget_in_seconds(c)),
        penalty_clear(c),
        forall|i: int|
            0 <= i < records.len() && !fails(#[trigger] records[i]) ==> records[i].latency()->0
                <= budget_of(c),
    ensures
        exceeds(c.slo.penalty(), records),
{
    lemma_penalty_exceeds_budget(c);
    assert forall|i: int| 0 <= i < records.len() && !fails(#[trigger] records[i]) implies records[i].scored(
        c.slo.penalty(),
    ).less(c.slo.penalty()) by {
        lemma_ns_to_ms_monotone(records[i].latency()->0, budget_of(c));
    }
}

/// Failing cannot improve the tail of a valid scenario: where some requests of
/// a run succeed within the budget and in another run fail instead, nothing
/// that is reported of the other run's latencies is lower.
pub proof fn lemma_failing_cannot_win(
    c: Config,
    served: Seq<RequestRecord>,
    failing: Seq<RequestRecord>,
    q: Binary64,
)
    requires
        c.valid(),
        is_time(budget_in_seconds(c)),
        penalty_clear(c),
        0 < served.len() <= usize::MAX,
        served.len() == failing.len(),
        forall|i: int|
            0 <= i < served.len() ==> {
                ||| (#[trigger] served[i]).scored(c.slo.penalty()) == (
                #[trigger] failing[i]).scored(c.slo.penalty())
                ||| served[i].latency() matches Some(ns) && ns <= budget_of(c)
                    && served[i].outcome == Outcome::Success && failing[i].outcome
                    != Outcome::Success
            },
    ensures
        ({
            let s = sorted_values(scores(served, c.slo.penalty()));
            let f = sorted_values(scores(failing, c.slo.penalty()));
            &&& percentile_of(s, q).less_or_equal(percentile_of(f, q))
            &&& cvar_of(s, q).less_or_equal(cvar_of(f, q))
            &&& s[served.len() - 1].less_or_equal(f[served.len() - 1])
            &&& mean_of(s).less_or_equal(mean_of(f))
        }),
{
    lemma_penalty_exceeds_budget(c);
    lemma_failing_never_helps(served, failing, budget_of(c), c.slo.penalty(), q);
}

} // verus!
