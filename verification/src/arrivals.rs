//! Schedules, against exact arithmetic.
//!
//! Arrivals at a constant rate are evenly spaced, drawn gaps add up, and the
//! offered load is the number of arrivals within a quarter of a second on
//! either side, twice.

use vstd::arithmetic::div_mod::lemma_fundamental_div_mod_converse;
use vstd::arithmetic::power2::lemma_pow2_adds;
use vstd::prelude::*;

use crate::arithmetic::distance;
use crate::arithmetic::lemma_signed;
use crate::arithmetic::one;
use crate::binary64::lemma_size_ordered;
use crate::binary64::size_of_magnitude;
use crate::binary64::zero;
use crate::binary64::Binary64;
use crate::binary64::HIDDEN;
use crate::binary64::INFINITY;
use crate::clock::ns_to_secs;
use crate::config::Arrival;
use crate::config::Config;
use crate::conversion::nanoseconds;
use crate::conversion::whole;
use crate::durations::lemma_count;
use crate::durations::lemma_exact_ratio;
use crate::durations::lemma_nanoseconds_nearest;
use crate::durations::lemma_whole_seconds;
use crate::means::exact_sum;
use crate::means::lemma_quotient_near;
use crate::means::lemma_settled_near;
use crate::means::lemma_step;
use crate::means::measurable;
use crate::means::near_sum;
use crate::order::lemma_minus_shrinks;
use crate::order::lemma_plus_grows;
use crate::order::lemma_plus_units;
use crate::order::lemma_rounded_zero;
use crate::order::lemma_settled_monotone;
use crate::precision::lemma_rounded_not_far_up;
use crate::ranks::lemma_unity;
use crate::rounding::lemma_nearest_integer_is;
use crate::rounding::lemma_powers;
use crate::rounding::lemma_rounded_scaled;
use crate::rounding::rounded;
use crate::seconds::lemma_whole_positive;
use crate::timeline::arrives;
use crate::timeline::constant_arrivals;
use crate::timeline::constant_at;
use crate::timeline::in_order;
use crate::timeline::lemma_window_bounds;
use crate::timeline::lemma_window_holds;
use crate::timeline::load_at;
use crate::timeline::walked;
use crate::timeline::window_end;
use crate::timeline::window_start;
use crate::timeline::HALF_WINDOW;
use crate::timeline::LOAD_WINDOW;

verus! {

/// At a constant rate, arrival `i` comes `i` gaps after the first: its offset
/// times the rate is `i` seconds, to the nearest nanosecond and up to one part
/// in 2^53.
pub proof fn lemma_evenly_spaced(
    offsets: Seq<u128>,
    rate: Binary64,
    horizon: Binary64,
    i: int,
)
    requires
        constant_arrivals(offsets, rate, horizon),
        rate.positive(),
        0 <= i < offsets.len(),
        i <= 0x20_0000_0000_0000,
    ensures
        ({
            let o = one();
            let r = rate.units();
            0x20_0000_0000_0000 * distance(2 * ((offsets[i] * o) * r) - 2_000_000_000 * ((i * o)
                * o)) <= 0x20_0000_0000_0000 * (o * r) + 2_000_000_000 * ((i * o) * o + r
                * 0x10_0000_0000_0000)
        }),
{
    let o = one();
    let r = rate.units();
    let t = constant_at(rate, i as nat);
    let x = t.units();
    assert(t.less(horizon));
    assert(offsets[i] == nanoseconds(t));
    lemma_unity();
    assert(size_of_magnitude(0) == 0);
    lemma_size_ordered(0, rate.magnitude());
    lemma_count(i as nat);
    lemma_size_ordered(t.magnitude(), INFINITY as nat);
    lemma_size_ordered(horizon.magnitude(), INFINITY as nat);
    lemma_signed(false, rounded(whole(i as nat).size() * o, rate.size()));
    lemma_quotient_near(whole(i as nat), rate);
    lemma_nanoseconds_nearest(t);
    let n = offsets[i] as int;
    let p = (n * o) * r;
    let q = x * r;
    assert(r * x == q) by (nonlinear_arith)
        requires
            q == x * r,
    ;
    assert(2 * distance(p - 1_000_000_000 * q) <= o * r) by (nonlinear_arith)
        requires
            2 * distance(n * o - 1_000_000_000 * x) <= o,
            p == (n * o) * r,
            q == x * r,
            r > 0,
    ;
}

/// A whole number of requests per second, over a whole number of seconds, makes
/// as many requests as their product.
pub proof fn lemma_rate_times_duration(offsets: Seq<u128>, rate: nat, seconds: nat)
    requires
        constant_arrivals(offsets, whole(rate), whole(seconds)),
        0 < rate,
        0 < seconds,
        rate * seconds <= 0x10_0000_0000_0000,
    ensures
        offsets.len() == rate * seconds,
{
    let n = rate * seconds;
    assert(rate <= n && seconds <= n) by (nonlinear_arith)
        requires
            n == rate * seconds,
            rate > 0,
            seconds > 0,
    ;
    lemma_arrival_in_time(rate, seconds, n);
    lemma_arrival_in_time(rate, seconds, (n - 1) as nat);
    if offsets.len() > n {
        assert(constant_at(whole(rate), n).less(whole(seconds)));
    }
    if offsets.len() < n {
        assert(!constant_at(whole(rate), (n - 1) as nat).less(whole(seconds)));
    }
}

proof fn lemma_arrival_in_time(rate: nat, seconds: nat, i: nat)
    requires
        0 < rate,
        0 < seconds,
        rate * seconds <= 0x10_0000_0000_0000,
        rate <= 0x10_0000_0000_0000,
        seconds <= 0x10_0000_0000_0000,
        i <= rate * seconds,
    ensures
        constant_at(whole(rate), i).less(whole(seconds)) <==> i < rate * seconds,
{
    let o = one();
    let n = rate * seconds;
    let t = constant_at(whole(rate), i);
    let m = rounded((i * o) * o, rate * o);
    lemma_unity();
    lemma_count(i);
    lemma_count(rate);
    lemma_count(seconds);
    lemma_whole_positive(rate);
    lemma_signed(false, m);
    assert(rate * o > 0) by (nonlinear_arith)
        requires
            rate > 0,
            o > 0,
    ;
    assert(t.magnitude() == m);
    if i == n {
        assert(seconds * rate == n) by (nonlinear_arith)
            requires
                n == rate * seconds,
        ;
        lemma_exact_ratio(seconds, rate);
    } else {
        let s = size_of_magnitude(m);
        lemma_rounded_not_far_up((i * o) * o, rate * o);
        if s >= seconds * o {
            let ro = rate * o;
            assert((ro * s) >= (n * o) * o) by (nonlinear_arith)
                requires
                    ro == rate * o,
                    s >= seconds * o,
                    n == rate * seconds,
                    o > 0,
            ;
            assert(((n * o) * o) * 0x20_0000_0000_0000 <= (((n - 1) * o) * o) * 0x20_0000_0000_0001
                + (rate * o) * 0x10_0000_0000_0000) by (nonlinear_arith)
                requires
                    (ro * s) >= (n * o) * o,
                    (ro * s) * 0x20_0000_0000_0000 <= ((i * o) * o) * 0x20_0000_0000_0001 + ro
                        * 0x10_0000_0000_0000,
                    ro == rate * o,
                    i <= n - 1,
                    o > 0,
            ;
            crate::budget::lemma_unit_is_fine();
            assert(rate <= n) by (nonlinear_arith)
                requires
                    n == rate * seconds,
                    seconds >= 1,
            ;
            lemma_no_room(n, rate, o);
        }
        lemma_size_ordered(m, INFINITY as nat);
        lemma_size_ordered(m, whole(seconds).magnitude());
    }
}

/// One arrival less leaves more room than rounding takes.
proof fn lemma_no_room(n: nat, rate: nat, o: nat)
    requires
        0 < rate <= n <= 0x10_0000_0000_0000,
        o >= 0x1_0000_0000_0000_0000_0000_0000_0000_0000,
    ensures
        ((n * o) * o) * 0x20_0000_0000_0000 > (((n - 1) * o) * o) * 0x20_0000_0000_0001 + (rate * o)
            * 0x10_0000_0000_0000,
{
    let a = (n * o) * o;
    let b = o * o;
    assert(((n - 1) * o) * o == a - b) by (nonlinear_arith)
        requires
            a == (n * o) * o,
            b == o * o,
    ;
    assert(a <= 0x10_0000_0000_0000 * b) by (nonlinear_arith)
        requires
            a == (n * o) * o,
            b == o * o,
            n <= 0x10_0000_0000_0000,
    ;
    assert((rate * o) * 0x10_0000_0000_0000 <= b) by (nonlinear_arith)
        requires
            b == o * o,
            rate <= 0x10_0000_0000_0000,
            o >= 0x1_0000_0000_0000_0000_0000_0000_0000_0000,
    ;
    assert(b > 0) by (nonlinear_arith)
        requires
            b == o * o,
            o > 0,
    ;
}

/// Where just the places from `a` up to `b` are such, `b - a` are.
proof fn lemma_stretch<T>(s: Seq<T>, f: spec_fn(T) -> bool, a: nat, b: nat)
    requires
        a <= b <= s.len(),
        forall|j: int| 0 <= j < s.len() ==> (f(#[trigger] s[j]) <==> a <= j < b),
    ensures
        s.filter(f).len() == b - a,
    decreases s.len(),
{
    reveal(Seq::filter);
    if s.len() > 0 {
        let rest = s.drop_last();
        let n = (s.len() - 1) as nat;
        assert(f(s[n as int]) <==> a <= n < b);
        if b <= n {
            lemma_stretch(rest, f, a, b);
        } else if a <= n {
            lemma_stretch(rest, f, a, n);
        } else {
            lemma_stretch(rest, f, n, n);
        }
    }
}

proof fn lemma_windows()
    ensures
        4 * (Binary64 { bits: HALF_WINDOW }).units() == one(),
        2 * (Binary64 { bits: LOAD_WINDOW }).units() == one(),
{
    lemma_powers();
    lemma_pow2_adds(52, 1020);
    lemma_pow2_adds(52, 1021);
    lemma_pow2_adds(1, 1072);
    lemma_pow2_adds(1, 1073);
    lemma_fundamental_div_mod_converse(HALF_WINDOW as int, HIDDEN as int, 1021, 0);
    lemma_fundamental_div_mod_converse(LOAD_WINDOW as int, HIDDEN as int, 1022, 0);
}

/// On arrivals in order, the offered load at an arrival is twice the number of
/// arrivals from a quarter of a second before it to a quarter of a second
/// after: so many in half a second.
pub proof fn lemma_load_is_arrivals_per_second(
    times: Seq<Binary64>,
    i: int,
    quarter: Binary64,
)
    requires
        in_order(times),
        0 <= i < times.len() <= 0x10_0000_0000_0000,
        !quarter.negative(),
        4 * quarter.units() == one(),
    ensures
        load_at(times, i) == whole(
            2 * times.filter(
                |t: Binary64|
                    times[i].minus(quarter).less_or_equal(t) && t.less_or_equal(
                        times[i].plus(quarter),
                    ),
            ).len(),
        ),
{
    let h = Binary64 { bits: HALF_WINDOW };
    let o = one();
    lemma_windows();
    lemma_unity();
    lemma_size_ordered(quarter.magnitude(), h.magnitude());
    assert(quarter == h);
    let a = window_start(times, (i + 1) as nat);
    let b = window_end(times, (i + 1) as nat);
    let f = |t: Binary64|
        times[i].minus(h).less_or_equal(t) && t.less_or_equal(times[i].plus(h));
    assert forall|j: int| 0 <= j < times.len() implies (f(#[trigger] times[j]) <==> a <= j < b) by {
        lemma_window_holds(times, i, j);
    }
    lemma_window_bounds(times, (i + 1) as nat);
    lemma_signed(true, h.magnitude());
    lemma_minus_shrinks(times[i], h);
    lemma_plus_grows(times[i], h);
    assert(f(times[i]));
    let k = (b - a) as nat;
    lemma_stretch(times, f, a as nat, b as nat);
    assert(times.filter(f).len() == k);
    // Over half a second.
    let w = Binary64 { bits: LOAD_WINDOW };
    lemma_count(k);
    lemma_count(2 * k);
    assert((k * o) * o == w.size() * ((2 * k) * o)) by (nonlinear_arith)
        requires
            2 * w.size() == o,
    ;
    lemma_rounded_scaled((2 * k) * o, 1, w.size());
    assert(w.size() * 1 == w.size());
}

/// The gaps walked so far come to when the last arrival came.
pub proof fn lemma_gaps_add_up(gaps: Seq<Binary64>, horizon: Binary64)
    requires
        measurable(gaps),
        gaps.len() <= 0x100_0000_0000,
        walked(gaps, horizon).0.finite(),
    ensures
        near_sum(walked(gaps, horizon).0, gaps),
        walked(gaps, horizon).0.units() >= 0,
        exact_sum(gaps) >= 0,
    decreases gaps.len(),
{
    assert(size_of_magnitude(0) == 0);
    let n = gaps.len();
    if n > 0 {
        let rest = gaps.drop_last();
        let x = gaps.last();
        let before = walked(rest, horizon).0;
        assert(x.not_negative());
        lemma_prefix_measurable(gaps);
        lemma_walk(rest, horizon);
        lemma_gaps_add_up(rest, horizon);
        lemma_plus_units(before, x);
        let s = before.units() + x.units();
        if s == 0 {
            lemma_rounded_zero(1);
        } else {
            lemma_signed(false, rounded(distance(s), 1));
        }
        lemma_settled_near(s);
        lemma_step(n, exact_sum(rest), x.units(), before.units(), walked(gaps, horizon).0.units());
    }
}

/// Time is a number, not below zero, and perhaps infinite; it never runs back.
proof fn lemma_walk(gaps: Seq<Binary64>, horizon: Binary64)
    requires
        measurable(gaps),
    ensures
        !walked(gaps, horizon).0.nan(),
        walked(gaps, horizon).0.units() >= 0,
        walked(gaps, horizon).0.finite() || walked(gaps, horizon).0 == (Binary64 {
            bits: INFINITY,
        }),
        gaps.len() > 0 ==> walked(gaps.drop_last(), horizon).0.less_or_equal(
            walked(gaps, horizon).0,
        ),
    decreases gaps.len(),
{
    assert(size_of_magnitude(0) == 0);
    lemma_size_ordered(0, INFINITY as nat);
    if gaps.len() > 0 {
        let rest = gaps.drop_last();
        let before = walked(rest, horizon).0;
        let x = gaps.last();
        assert(x.not_negative());
        lemma_prefix_measurable(gaps);
        lemma_walk(rest, horizon);
        if before.finite() {
            lemma_plus_units(before, x);
            lemma_plus_grows(before, x);
            let s = before.units() + x.units();
            lemma_settled_monotone(0, s);
            lemma_rounded_zero(1);
            lemma_signed(false, rounded(distance(s), 1));
        }
    }
}

proof fn lemma_prefix_measurable(gaps: Seq<Binary64>)
    requires
        measurable(gaps),
        gaps.len() > 0,
    ensures
        measurable(gaps.drop_last()),
{
    let rest = gaps.drop_last();
    assert forall|i: int| 0 <= i < rest.len() implies (#[trigger] rest[i]).not_negative() by {
        assert(rest[i] == gaps[i]);
    }
}

/// The first arrivals are those of the first gaps, one for each, as long as
/// they come before the horizon: arrival `j` comes when the first `j + 1` gaps
/// have passed. Once the horizon is reached, there are no more.
pub proof fn lemma_one_arrival_per_gap(gaps: Seq<Binary64>, horizon: Binary64, j: int)
    requires
        measurable(gaps),
        0 <= j < gaps.len(),
    ensures
        walked(gaps, horizon).1.len() <= gaps.len(),
        j < walked(gaps, horizon).1.len() <==> walked(gaps.take(j + 1), horizon).0.less(horizon),
        j < walked(gaps, horizon).1.len() ==> walked(gaps, horizon).1[j] == nanoseconds(
            walked(gaps.take(j + 1), horizon).0,
        ),
    decreases gaps.len(),
{
    let n = gaps.len();
    let rest = gaps.drop_last();
    lemma_prefix_measurable(gaps);
    lemma_walk(gaps, horizon);
    assert(gaps.take(n as int) =~= gaps);
    if n > 1 {
        let k = if j < n - 1 {
            j
        } else {
            n - 2
        };
        lemma_one_arrival_per_gap(rest, horizon, k);
        assert(rest.take(k + 1) =~= gaps.take(k + 1));
        lemma_one_arrival_per_gap(rest, horizon, n - 2);
        assert(rest.take(n - 1) =~= rest);
    } else {
        assert(rest =~= Seq::<Binary64>::empty());
    }
}

/// Whole seconds are as many billion nanoseconds, and end the schedule after
/// exactly as many seconds.
proof fn lemma_whole_horizon(k: nat)
    requires
        k <= 0x10_0000_0000_0000,
    ensures
        nanoseconds(whole(k)) == k * 1_000_000_000,
        ns_to_secs(nanoseconds(whole(k))) == whole(k),
{
    let o = one();
    lemma_unity();
    lemma_count(k);
    lemma_whole_seconds(k);
    let x = (k * o) * 1_000_000_000;
    let q = k * 1_000_000_000;
    assert(q * o == x && (q + 1) * o == x + o) by (nonlinear_arith)
        requires
            x == (k * o) * 1_000_000_000,
            q == k * 1_000_000_000,
    ;
    lemma_nearest_integer_is(x, o, q);
}

/// A constant schedule of whole numbers has as many requests as the rate times
/// the seconds.
pub proof fn lemma_schedule_size(
    cfg: Config,
    offsets: Seq<u128>,
    gaps: Seq<Binary64>,
    rate: nat,
    seconds: nat,
)
    requires
        cfg.load.arrival == Arrival::Constant,
        cfg.load.rate_rps == whole(rate),
        cfg.scenario.duration_s == whole(seconds),
        arrives(cfg, gaps, offsets),
        0 < rate,
        0 < seconds,
        rate * seconds <= 0x10_0000_0000_0000,
    ensures
        offsets.len() == rate * seconds,
{
    assert(seconds <= rate * seconds) by (nonlinear_arith)
        requires
            rate >= 1,
    ;
    lemma_whole_horizon(seconds);
    lemma_rate_times_duration(offsets, rate, seconds);
}

} // verus!
