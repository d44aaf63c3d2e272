//! Units of time, against exact arithmetic.
//!
//! Times are written in seconds and milliseconds, and kept in nanoseconds.
//! Whole numbers convert exactly; all others to within what rounding takes.

use vstd::arithmetic::div_mod::lemma_fundamental_div_mod;
use vstd::arithmetic::div_mod::lemma_fundamental_div_mod_converse;
use vstd::arithmetic::power2::lemma2_to64;
use vstd::arithmetic::power2::lemma2_to64_rest;
use vstd::arithmetic::power2::lemma_pow2_adds;
use vstd::arithmetic::power2::pow2;
use vstd::prelude::*;

use crate::arithmetic::distance;
use crate::arithmetic::lemma_signed;
use crate::arithmetic::one;
use crate::binary64::size_of_magnitude;
use crate::binary64::Binary64;
use crate::binary64::HIDDEN;
use crate::clock::ms_to_ns;
use crate::clock::ns_to_ms;
use crate::clock::ns_to_secs;
use crate::clock::BILLION;
use crate::clock::MILLION;
use crate::clock::THOUSAND;
use crate::config::Config;
use crate::conversion::is_time;
use crate::conversion::nanoseconds;
use crate::conversion::whole;
use crate::downstream::DownstreamCluster;
use crate::load_generator::budget_of;
use crate::means::lemma_product_near;
use crate::means::lemma_quotient_near;
use crate::means::lemma_ratio_near;
use crate::means::lemma_settled_near;
use crate::means::near_ratio;
use crate::order::lemma_plus_units;
use crate::order::lemma_rounded_zero;
use crate::order::lemma_whole_units;
use crate::precision::lemma_nearest_integer_close;
use crate::ranks::lemma_unity;
use crate::record::Outcome;
use crate::record::RequestRecord;
use crate::report::warmup_end;
use crate::rounding::lemma_powers;
use crate::rounding::lemma_rounded_exact;
use crate::rounding::lemma_rounded_scaled;
use crate::rounding::rounded;
use crate::seconds::lemma_whole_exact;
use crate::seconds::lemma_whole_positive;

verus! {

/// The factors between the units of time are whole numbers.
proof fn lemma_factors()
    ensures
        whole(1000) == (Binary64 { bits: THOUSAND }),
        whole(1_000_000) == (Binary64 { bits: MILLION }),
        whole(1_000_000_000) == (Binary64 { bits: BILLION }),
{
    lemma_powers();
    lemma2_to64();
    lemma2_to64_rest();
    lemma_pow2_adds(43, 1031);
    lemma_pow2_adds(33, 1041);
    lemma_pow2_adds(23, 1051);
    lemma_fundamental_div_mod_converse(THOUSAND as int, HIDDEN as int, 1032, 0xF_4000_0000_0000);
    lemma_fundamental_div_mod_converse(MILLION as int, HIDDEN as int, 1042, 0xE_8480_0000_0000);
    lemma_fundamental_div_mod_converse(BILLION as int, HIDDEN as int, 1052, 0xD_CD65_0000_0000);
    let a = pow2(1031);
    let b = pow2(1041);
    let c = pow2(1051);
    assert((1000 * 0x800_0000_0000) * a == 1000 * (0x800_0000_0000 * a)) by (nonlinear_arith);
    assert((1_000_000 * 0x2_0000_0000) * b == 1_000_000 * (0x2_0000_0000 * b))
        by (nonlinear_arith);
    assert((1_000_000_000 * 0x80_0000) * c == 1_000_000_000 * (0x80_0000 * c))
        by (nonlinear_arith);
    lemma_rounded_exact(THOUSAND as nat, 1);
    lemma_rounded_exact(MILLION as nat, 1);
    lemma_rounded_exact(BILLION as nat, 1);
}

/// Whole numbers up to 2^53 are finite, not negative, and worth what they
/// count.
pub proof fn lemma_count(n: nat)
    requires
        n <= 0x20_0000_0000_0000,
    ensures
        whole(n).not_negative(),
        !whole(n).negative(),
        whole(n).size() == n * one(),
{
    lemma_whole_exact(n);
    lemma_whole_units(n);
    assert(size_of_magnitude(0) == 0);
    if n > 0 {
        lemma_whole_positive(n);
    } else {
        lemma_rounded_zero(1);
        assert(0 * one() == 0) by (nonlinear_arith);
    }
}

/// A multiple over its factor.
pub proof fn lemma_exact_ratio(k: nat, d: nat)
    requires
        d > 0,
        k * d <= 0x20_0000_0000_0000,
        d <= 0x20_0000_0000_0000,
    ensures
        whole(k * d).over(whole(d)) == whole(k),
{
    let o = one();
    lemma_unity();
    lemma_count(k * d);
    lemma_count(d);
    assert(d * o > 0) by (nonlinear_arith)
        requires
            d > 0,
            o > 0,
    ;
    lemma_rounded_scaled(k * o, 1, d * o);
    assert((d * o) * (k * o) == ((k * d) * o) * o) by (nonlinear_arith);
    assert((d * o) * 1 == d * o);
}

/// A product of whole numbers.
proof fn lemma_exact_product(k: nat, d: nat)
    requires
        k <= 0x20_0000_0000_0000,
        d <= 0x20_0000_0000_0000,
    ensures
        whole(k).times(whole(d)) == whole(k * d),
{
    let o = one();
    lemma_unity();
    lemma_count(k);
    lemma_count(d);
    lemma_rounded_scaled((k * d) * o, 1, o);
    assert(o * ((k * d) * o) == (k * o) * (d * o)) by (nonlinear_arith);
    assert(o * 1 == o);
}

/// A whole number is its own integer part.
proof fn lemma_integer_part(n: nat)
    requires
        n <= 0x20_0000_0000_0000,
    ensures
        whole(n).saturated() == n,
{
    lemma_unity();
    lemma_count(n);
    lemma_fundamental_div_mod_converse((n * one()) as int, one() as int, n as int, 0);
}

/// A million nanoseconds are a millisecond: whole milliseconds convert exactly,
/// both ways.
pub proof fn lemma_whole_milliseconds(k: nat)
    requires
        k * 1_000_000 <= 0x20_0000_0000_0000,
    ensures
        ns_to_ms(k * 1_000_000) == whole(k),
        ms_to_ns(whole(k)) == k * 1_000_000,
{
    lemma_factors();
    lemma_exact_ratio(k, 1_000_000);
    lemma_exact_product(k, 1_000_000);
    lemma_integer_part(k * 1_000_000);
}

/// Nanoseconds in milliseconds are a millionth of their number.
pub proof fn lemma_milliseconds_near(ns: nat)
    requires
        ns <= 0x20_0000_0000_0000,
    ensures
        near_ratio(ns_to_ms(ns), ns, 1_000_000),
{
    lemma_factors();
    lemma_ratio_near(ns, 1_000_000);
}

/// A warmup of whole seconds ends after as many billion nanoseconds.
pub proof fn lemma_whole_warmup(k: nat)
    requires
        k * 1_000_000_000 <= 0x20_0000_0000_0000,
    ensures
        warmup_end(whole(k)) == k * 1_000_000_000,
{
    lemma_factors();
    lemma_exact_product(k, 1_000_000_000);
    lemma_integer_part(k * 1_000_000_000);
}

/// The integer part of a multiple: no more than the multiple, and not a whole
/// one less, up to one part in 2^53.
pub open spec fn part_of_multiple(n: nat, x: Binary64, factor: nat) -> bool {
    &&& 0x20_0000_0000_0000 * (n * one()) <= 0x20_0000_0000_0001 * (factor * x.units())
        + 0x10_0000_0000_0000
    &&& 0x20_0000_0000_0000 * ((n + 1) * one()) + 0x10_0000_0000_0000 >= 0x1F_FFFF_FFFF_FFFF * (
    factor * x.units())
}

proof fn lemma_part(x: Binary64, factor: nat)
    requires
        x.not_negative(),
        0 < factor <= 1_000_000_000,
        x.times(whole(factor)).saturated() < u64::MAX,
    ensures
        part_of_multiple(x.times(whole(factor)).saturated(), x, factor),
{
    let o = one();
    let p = x.times(whole(factor));
    let n = p.saturated();
    lemma_unity();
    assert(size_of_magnitude(0) == 0);
    lemma_count(factor);
    lemma_whole_positive(factor);
    let m = rounded(x.size() * whole(factor).size(), o);
    lemma_signed(true, m);
    lemma_signed(false, m);
    assert(!p.nan());
    if !p.negative() {
        assert(p.finite());
        lemma_product_near(x, whole(factor));
        let y = p.units();
        let fx = factor * x.units();
        assert(x.units() * (factor * o) == fx * o) by (nonlinear_arith)
            requires
                fx == factor * x.units(),
        ;
        assert(0x20_0000_0000_0000 * distance(y - fx) <= fx + 0x10_0000_0000_0000)
            by (nonlinear_arith)
            requires
                0x20_0000_0000_0000 * distance(y * o - fx * o) <= fx * o + o * 0x10_0000_0000_0000,
                o > 0,
        ;
        lemma_fundamental_div_mod(p.size() as int, o as int);
        assert(n * o == o * n && (n + 1) * o == o * n + o) by (nonlinear_arith);
    } else {
        crate::binary64::lemma_size_ordered(0, x.magnitude());
        assert(x.size() == 0);
        assert(factor * x.units() == 0) by (nonlinear_arith)
            requires
                x.units() == 0,
        ;
        assert(n == 0);
        assert(n * o == 0) by (nonlinear_arith)
            requires
                n == 0,
        ;
        assert((n + 1) * o == o) by (nonlinear_arith)
            requires
                n == 0,
        ;
    }
}

/// A latency in milliseconds is so many million nanoseconds, cut off to whole
/// ones.
pub proof fn lemma_nanoseconds_of_ms(ms: Binary64)
    requires
        ms.not_negative(),
        ms_to_ns(ms) < u64::MAX,
    ensures
        part_of_multiple(ms_to_ns(ms), ms, 1_000_000),
{
    lemma_factors();
    lemma_part(ms, 1_000_000);
}

/// The warmup ends after so many billion nanoseconds, cut off to whole ones.
pub proof fn lemma_warmup_in_nanoseconds(warmup_s: Binary64)
    requires
        warmup_s.not_negative(),
        warmup_end(warmup_s) < u64::MAX,
    ensures
        part_of_multiple(warmup_end(warmup_s), warmup_s, 1_000_000_000),
{
    lemma_factors();
    lemma_part(warmup_s, 1_000_000_000);
}

/// A downstream's timeout is what its configuration says, in nanoseconds.
pub proof fn lemma_timeout_in_nanoseconds(cluster: DownstreamCluster, slot: int)
    requires
        0 <= slot < cluster.downstreams().len(),
        cluster.downstreams()[slot].timeout_ms.not_negative(),
        cluster.timeout(slot) < u64::MAX,
    ensures
        part_of_multiple(
            cluster.timeout(slot),
            cluster.downstreams()[slot].timeout_ms,
            1_000_000,
        ),
{
    lemma_nanoseconds_of_ms(cluster.downstreams()[slot].timeout_ms);
}

/// A time in seconds is so many billion nanoseconds, to the nearest.
pub proof fn lemma_nanoseconds_nearest(seconds: Binary64)
    requires
        seconds.not_negative(),
    ensures
        2 * distance(nanoseconds(seconds) * one() - 1_000_000_000 * seconds.units()) <= one(),
{
    let o = one();
    let n = nanoseconds(seconds);
    lemma_unity();
    assert(size_of_magnitude(0) == 0);
    lemma_nearest_integer_close(seconds.size() * 1_000_000_000, o);
    assert(o * n == n * o) by (nonlinear_arith);
}

/// The budget is so many million nanoseconds, to the nearest and up to one part
/// in 2^53.
pub proof fn lemma_budget_in_nanoseconds(c: Config)
    requires
        c.slo.budget_ms.positive(),
        is_time(c.slo.budget_ms.over(Binary64 { bits: THOUSAND })),
    ensures
        0x20_0000_0000_0000 * distance(
            2 * (budget_of(c) * one()) - 2_000_000 * c.slo.budget_ms.units(),
        ) <= 0x20_0000_0000_0000 * one() + 2_000_000 * c.slo.budget_ms.units() + 2_000_000_000
            * 0x10_0000_0000_0000,
{
    let o = one();
    let b = c.slo.budget_ms;
    let x = b.over(Binary64 { bits: THOUSAND });
    lemma_unity();
    lemma_factors();
    lemma_count(1000);
    lemma_whole_positive(1000);
    lemma_quotient_near(b, whole(1000));
    let y = x.units();
    assert(0x20_0000_0000_0000 * distance(1000 * y - b.units()) <= b.units() + 1000
        * 0x10_0000_0000_0000) by (nonlinear_arith)
        requires
            0x20_0000_0000_0000 * distance((1000 * o) * y - b.units() * o) <= b.units() * o + (1000
                * o) * 0x10_0000_0000_0000,
            o > 0,
    ;
    lemma_nanoseconds_nearest(x);
}

/// A budget of whole milliseconds is exactly as many million nanoseconds.
pub proof fn lemma_whole_budget(c: Config, k: nat)
    requires
        0 < k * 1_000_000 <= 0x4_0000_0000_0000,
        c.slo.budget_ms == whole(k),
        is_time(c.slo.budget_ms.over(Binary64 { bits: THOUSAND })),
    ensures
        budget_of(c) == k * 1_000_000,
{
    let o = one();
    lemma_count(k);
    lemma_whole_positive(k);
    lemma_budget_in_nanoseconds(c);
    let n = budget_of(c);
    crate::budget::lemma_unit_is_fine();
    let ko = k * o;
    let no = n * o;
    assert(ko <= 0x4_0000_0000_0000 * o) by (nonlinear_arith)
        requires
            ko == k * o,
            k <= 0x4_0000_0000_0000,
    ;
    assert(1_000_000 * ko <= 0x4_0000_0000_0000 * o) by (nonlinear_arith)
        requires
            ko == k * o,
            k * 1_000_000 <= 0x4_0000_0000_0000,
    ;
    let d = n - k * 1_000_000;
    assert(no - 1_000_000 * ko == d * o) by (nonlinear_arith)
        requires
            no == n * o,
            ko == k * o,
            d == n - k * 1_000_000,
    ;
    if d != 0 {
        assert(distance(d * o) >= o) by (nonlinear_arith)
            requires
                d != 0,
                o > 0,
        ;
    }
}

/// The end of the schedule of whole seconds is exactly that many seconds.
pub proof fn lemma_whole_seconds(k: nat)
    requires
        k <= 0x20_0000_0000_0000,
    ensures
        ns_to_secs(k * 1_000_000_000) == whole(k),
{
    let o = one();
    lemma_factors();
    lemma_unity();
    lemma_count(k);
    lemma_count(0);
    lemma_count(1_000_000_000);
    lemma_fundamental_div_mod_converse(
        (k * 1_000_000_000) as int,
        1_000_000_000,
        k as int,
        0,
    );
    lemma_exact_ratio(0, 1_000_000_000);
    assert(0 * 1_000_000_000 == 0nat);
    assert(0 * o == 0) by (nonlinear_arith);
    let n = k * 1_000_000_000;
    assert(n / 1_000_000_000 == k && n % 1_000_000_000 == 0);
    let rest = whole(0).over(Binary64 { bits: BILLION });
    assert(rest == whole(0) && rest.units() == 0);
    lemma_rounded_exact(whole(k).magnitude(), 1);
    assert(whole(k).size() * 1 == whole(k).size());
    lemma_signed(false, whole(k).magnitude());
    let sum = whole(k).units() + rest.units();
    assert(distance(sum) == whole(k).size());
    if k == 0 {
        lemma_rounded_zero(1);
    } else {
        assert(k * o > 0) by (nonlinear_arith)
            requires
                k > 0,
                o > 0,
        ;
    }
}

/// A success scores the milliseconds from when it was due to its completion: a
/// millionth of the nanoseconds between the two.
pub proof fn lemma_score_of_success(r: RequestRecord, penalty_ms: Binary64)
    requires
        r.outcome == Outcome::Success,
        r.completion_ns matches Some(c) && r.intended_dispatch_ns <= c <= r.intended_dispatch_ns
            + 0x20_0000_0000_0000,
    ensures
        near_ratio(
            r.scored(penalty_ms),
            (r.completion_ns->0 - r.intended_dispatch_ns) as nat,
            1_000_000,
        ),
{
    lemma_milliseconds_near((r.completion_ns->0 - r.intended_dispatch_ns) as nat);
}

/// Nanoseconds in seconds are a billionth of their number, up to one part in
/// 2^51 and a little.
pub proof fn lemma_seconds_near(ns: nat)
    requires
        ns < 0x20_0000_0000_0000 * 1_000_000_000,
    ensures
        ns_to_secs(ns).finite(),
        0x8_0000_0000_0000 * distance(1_000_000_000 * ns_to_secs(ns).units() - ns * one()) <= ns
            * one() + one() + 0x1000_0000_0000_0000_0000_0000,
{
    let o = one();
    let s = ns / 1_000_000_000;
    let f = ns % 1_000_000_000;
    let part = whole(f).over(Binary64 { bits: BILLION });
    let x = ns_to_secs(ns);
    lemma_factors();
    lemma_unity();
    assert(size_of_magnitude(0) == 0);
    lemma_count(s);
    lemma_ratio_near(f, 1_000_000_000);
    crate::seconds::lemma_seconds_monotone(ns, ns);
    lemma_plus_units(whole(s), part);
    let sum = whole(s).units() + part.units();
    assert(whole(s).units() == s * o);
    if sum != 0 {
        lemma_signed(false, rounded(distance(sum), 1));
    } else {
        lemma_rounded_zero(1);
    }
    lemma_settled_near(sum);
    let so = s * o;
    let fo = f * o;
    assert(ns * o == 1_000_000_000 * so + fo) by (nonlinear_arith)
        requires
            ns == 1_000_000_000 * s + f,
            so == s * o,
            fo == f * o,
    ;
    assert(fo <= 1_000_000_000 * o) by (nonlinear_arith)
        requires
            fo == f * o,
            f <= 1_000_000_000,
    ;
}

} // verus!
