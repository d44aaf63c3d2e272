//! Precomputed arrival timeline.
//!
//! The whole schedule is made before the run starts: the dispatch loop draws
//! nothing, and the schedule cannot depend on how the service behaves.

use rand_chacha::ChaCha8Rng;
use vstd::prelude::*;

use crate::arithmetic::lemma_signed;
use crate::binary64::lemma_size_ordered;
use crate::binary64::size_of_magnitude;
use crate::binary64::zero;
use crate::binary64::Binary64;
use crate::binary64::INFINITY;
use crate::clock::duration_to_secs;
use crate::clock::ns_to_secs;
use crate::config::weight_of_first;
use crate::config::Arrival;
use crate::config::Config;
use crate::config::RequestClassCfg;
use crate::conversion::duration_from_secs;
use crate::conversion::from_u64;
use crate::conversion::is_horizon;
use crate::conversion::is_time;
use crate::conversion::nanoseconds;
use crate::conversion::whole;
use crate::order::lemma_minus_monotone;
use crate::order::lemma_minus_shrinks;
use crate::order::lemma_nanoseconds_monotone;
use crate::order::lemma_over_monotone;
use crate::order::lemma_plus_grows;
use crate::order::lemma_plus_monotone;
use crate::order::lemma_plus_units;
use crate::order::lemma_whole_monotone;
use crate::order::lemma_whole_units;
use crate::rng::chacha8_words;
use crate::rng::class_rng;
use crate::rng::class_seed;
use crate::rng::nonce_of;
use crate::rng::payload_nonce;
use crate::rng::unit;
use crate::rng::unit_draw;
use crate::rng::words;
use crate::seconds::lemma_seconds_horizon;
use crate::seconds::lemma_seconds_monotone;

verus! {

/// The window of the offered-load estimate, in seconds: 0.5. Wide enough to be
/// stable at a few hundred requests per second, narrow enough to resolve a
/// burst.
pub const LOAD_WINDOW: u64 = 0x3FE0_0000_0000_0000;

/// Half of the window: 0.25.
pub const HALF_WINDOW: u64 = 0x3FD0_0000_0000_0000;

/// One request of the schedule.
#[derive(Debug)]
pub struct ScheduledRequest {
    pub request_id: u64,
    /// From the start of the run, in nanoseconds. The intended dispatch time:
    /// latency is measured from here, not from the actual send.
    pub offset: u128,
    pub class: String,
    pub required: Vec<String>,
    pub nonce: u64,
    /// The arrival rate around this offset.
    pub offered_load_rps: Binary64,
}

impl Clone for ScheduledRequest {
    fn clone(&self) -> (r: Self)
        ensures
            r.request_id == self.request_id,
            r.offset == self.offset,
            r.class == self.class,
            r.required@ == self.required@,
            r.nonce == self.nonce,
            r.offered_load_rps == self.offered_load_rps,
    {
        let required: Vec<String> = self.required.clone();
        assert(required@ =~= self.required@);
        ScheduledRequest {
            request_id: self.request_id,
            offset: self.offset,
            class: self.class.clone(),
            required,
            nonce: self.nonce,
            offered_load_rps: self.offered_load_rps,
        }
    }
}

/// The schedule of a run.
#[derive(Clone, Debug)]
pub struct Timeline {
    pub requests: Vec<ScheduledRequest>,
    /// In nanoseconds.
    pub duration: u128,
}

/// When arrival `i` comes at a constant rate, in seconds.
pub open spec fn constant_at(rate: Binary64, i: nat) -> Binary64 {
    whole(i).over(rate)
}

/// The offsets are those of the arrivals at a constant rate that come before
/// the horizon: all of them, and no others.
pub open spec fn constant_arrivals(offsets: Seq<u128>, rate: Binary64, horizon: Binary64) -> bool {
    &&& forall|i: nat|
        i < offsets.len() <==> (#[trigger] constant_at(rate, i)).less(horizon)
    &&& forall|i: int|
        0 <= i < offsets.len() ==> #[trigger] offsets[i] == nanoseconds(
            constant_at(rate, i as nat),
        )
}

/// Every offset lies within the horizon.
pub open spec fn within(offsets: Seq<u128>, horizon: Binary64) -> bool {
    forall|i: int|
        0 <= i < offsets.len() ==> #[trigger] offsets[i] <= nanoseconds(horizon) && offsets[i]
            < 0x1_0000_0000_0000_0000 * 1_000_000_000
}

/// At a constant rate, arrivals come one after the other.
proof fn lemma_constant_in_order(rate: Binary64, i: nat, j: nat)
    requires
        rate.positive(),
        i <= j,
    ensures
        constant_at(rate, i).less_or_equal(constant_at(rate, j)),
        constant_at(rate, i).units() >= 0,
{
    let a = whole(i);
    let b = whole(j);
    lemma_whole_units(i);
    lemma_whole_units(j);
    lemma_whole_monotone(i, j);
    lemma_size_ordered(a.magnitude(), b.magnitude());
    lemma_size_ordered(a.magnitude(), INFINITY as nat);
    lemma_size_ordered(0, INFINITY as nat);
    assert(size_of_magnitude(0) == 0);
    lemma_signed(false, INFINITY as nat);
    if b.finite() {
        lemma_over_monotone(a, b, rate);
    } else if a.finite() {
        lemma_over_monotone(a, a, rate);
        lemma_size_ordered(a.over(rate).magnitude(), INFINITY as nat);
    }
}

/// The offsets as natural numbers.
pub open spec fn counts(offsets: Seq<u128>) -> Seq<nat> {
    Seq::new(offsets.len(), |i: int| offsets[i] as nat)
}

/// Arrivals at a constant rate up to the horizon, in nanoseconds: arrival `i`
/// comes at `i / rate`.
pub fn constant_offsets(rate: Binary64, horizon: Binary64) -> (r: Vec<u128>)
    requires
        rate.positive(),
        is_horizon(horizon),
    ensures
        constant_arrivals(r@, rate, horizon),
        ascending(r@),
        within(r@, horizon),
{
    let mut out: Vec<u128> = Vec::new();
    let mut i: usize = 0;
    let mut t: Binary64 = from_u64(0).div(rate);
    while t.lt(horizon)
        invariant
            rate.positive(),
            is_horizon(horizon),
            i == out.len(),
            t == constant_at(rate, i as nat),
            forall|k: int|
                0 <= k < i ==> #[trigger] out[k] == nanoseconds(constant_at(rate, k as nat))
                    && constant_at(rate, k as nat).less(horizon),
            within(out@, horizon),
        decreases usize::MAX - i,
    {
        proof {
            lemma_constant_in_order(rate, i as nat, i as nat);
            lemma_nanoseconds_monotone(t, horizon);
            lemma_size_ordered(t.magnitude(), horizon.magnitude());
        }
        out.push(duration_from_secs(t));
        i = out.len();
        t = from_u64(i as u64).div(rate);
    }
    proof {
        assert forall|k: nat| k < out.len() <==> (#[trigger] constant_at(rate, k)).less(
            horizon,
        ) by {
            if k < out.len() {
                assert(out[k as int] == nanoseconds(constant_at(rate, k)));
            } else {
                lemma_constant_in_order(rate, i as nat, k);
            }
        }
        assert forall|a: int, b: int| 0 <= a <= b < out.len() implies out[a] <= out[b] by {
            lemma_constant_in_order(rate, a as nat, b as nat);
            lemma_nanoseconds_monotone(constant_at(rate, a as nat), constant_at(rate, b as nat));
        }
    }
    out
}

/// A schedule under construction: arrivals at the gaps that are handed in, up
/// to the horizon.
pub struct Arrivals {
    t: Binary64,
    horizon: Binary64,
    offsets: Vec<u128>,
}

impl Arrivals {
    /// When the last arrival came, in seconds.
    pub closed spec fn t(self) -> Binary64 {
        self.t
    }

    pub closed spec fn horizon(self) -> Binary64 {
        self.horizon
    }

    /// The arrivals so far, in nanoseconds.
    pub closed spec fn offsets(self) -> Seq<u128> {
        self.offsets@
    }

    /// Arrivals are in order, none later than the last.
    pub open spec fn well_formed(self) -> bool {
        &&& is_horizon(self.horizon())
        &&& !self.t().nan()
        &&& self.t().units() >= 0
        &&& ascending(self.offsets())
        &&& within(self.offsets(), self.horizon())
        &&& is_time(self.t()) ==> forall|i: int|
            0 <= i < self.offsets().len() ==> #[trigger] self.offsets()[i] <= nanoseconds(self.t())
    }

    /// Nothing has arrived yet.
    pub fn new(horizon: Binary64) -> (r: Self)
        requires
            is_horizon(horizon),
        ensures
            r.well_formed(),
            r.t() == zero(),
            r.horizon() == horizon,
            r.offsets() == Seq::<u128>::empty(),
            has_walked(r, Seq::empty()),
    {
        let r = Arrivals { t: Binary64::from_bits(0), horizon, offsets: Vec::new() };
        assert(counts(r.offsets()) =~= Seq::<nat>::empty());
        r
    }

    /// Moves on by `gap` seconds. An arrival before the horizon is taken into
    /// the schedule; the first that is not ends it.
    pub fn advance(&mut self, gap: Binary64) -> (r: bool)
        requires
            old(self).well_formed(),
            !gap.nan(),
            gap.units() >= 0,
        ensures
            final(self).well_formed(),
            final(self).horizon() == old(self).horizon(),
            final(self).t() == old(self).t().plus(gap),
            r == old(self).t().plus(gap).less(old(self).horizon()),
            r ==> counts(final(self).offsets()) == counts(old(self).offsets()).push(
                nanoseconds(final(self).t()),
            ),
            !r ==> final(self).offsets() == old(self).offsets(),
            forall|gaps: Seq<Binary64>| #[trigger]
                has_walked(*old(self), gaps) ==> has_walked(*final(self), gaps.push(gap)),
    {
        let next: Binary64 = self.t.add(gap);
        let ghost before = *self;
        proof {
            lemma_sum_not_negative(self.t, gap);
            lemma_size_ordered(next.magnitude(), self.horizon.magnitude());
            lemma_size_ordered(self.t.magnitude(), next.magnitude());
            if is_time(next) {
                lemma_nanoseconds_monotone(self.t, next);
            }
            if next.less(self.horizon) {
                lemma_nanoseconds_monotone(next, self.horizon);
            }
        }
        self.t = next;
        let taken: bool = !self.horizon.le(next);
        if taken {
            let ns: u128 = duration_from_secs(next);
            self.offsets.push(ns);
            assert(counts(self.offsets@) =~= counts(before.offsets@).push(ns as nat));
        }
        proof {
            assert forall|gaps: Seq<Binary64>| #[trigger] has_walked(
                before,
                gaps,
            ) implies has_walked(*self, gaps.push(gap)) by {
                lemma_advance_walks(before, *self, gaps, gap);
            }
        }
        taken
    }

    /// The finished schedule.
    pub fn finish(self) -> (r: Vec<u128>)
        requires
            self.well_formed(),
        ensures
            r@ == self.offsets(),
            ascending(r@),
            within(r@, self.horizon()),
    {
        self.offsets
    }
}

/// No offset is smaller than one before it.
pub open spec fn ascending(offsets: Seq<u128>) -> bool {
    forall|i: int, j: int| 0 <= i <= j < offsets.len() ==> offsets[i] <= offsets[j]
}

/// A sum of numbers that are not below zero is none, and not below either.
proof fn lemma_sum_not_negative(a: Binary64, b: Binary64)
    requires
        !a.nan(),
        !b.nan(),
        a.units() >= 0,
        b.units() >= 0,
    ensures
        !a.plus(b).nan(),
        a.plus(b).units() >= 0,
        a.less_or_equal(a.plus(b)),
{
    lemma_size_ordered(0, a.magnitude());
    lemma_size_ordered(0, b.magnitude());
    lemma_size_ordered(a.magnitude(), INFINITY as nat);
    lemma_size_ordered(b.magnitude(), INFINITY as nat);
    assert(size_of_magnitude(0) == 0);
    if a.finite() && b.finite() {
        lemma_plus_grows(a, b);
    }
}

/// The first index, from `i` on, whose time is not below `bound`.
pub open spec fn past_earlier(times: Seq<Binary64>, i: int, bound: Binary64) -> int
    decreases times.len() - i,
{
    if 0 <= i < times.len() && times[i].less(bound) {
        past_earlier(times, i + 1, bound)
    } else {
        i
    }
}

/// The first index, from `i` on, whose time lies beyond `bound`.
pub open spec fn past_reached(times: Seq<Binary64>, i: int, bound: Binary64) -> int
    decreases times.len() - i,
{
    if 0 <= i < times.len() && times[i].less_or_equal(bound) {
        past_reached(times, i + 1, bound)
    } else {
        i
    }
}

/// Where the window around arrival `i - 1` starts. It only ever moves on.
pub open spec fn window_start(times: Seq<Binary64>, i: nat) -> int
    decreases i,
{
    if i == 0 {
        0
    } else {
        past_earlier(
            times,
            window_start(times, (i - 1) as nat),
            times[i - 1].minus(Binary64 { bits: HALF_WINDOW }),
        )
    }
}

/// Where the window around arrival `i - 1` ends. It only ever moves on.
pub open spec fn window_end(times: Seq<Binary64>, i: nat) -> int
    decreases i,
{
    if i == 0 {
        0
    } else {
        past_reached(
            times,
            window_end(times, (i - 1) as nat),
            times[i - 1].plus(Binary64 { bits: HALF_WINDOW }),
        )
    }
}

/// The offsets in seconds.
pub open spec fn in_seconds(offsets: Seq<u128>) -> Seq<Binary64> {
    Seq::new(offsets.len(), |i: int| ns_to_secs(offsets[i] as nat))
}

/// The arrival rate around arrival `i`.
pub open spec fn load_at(times: Seq<Binary64>, i: int) -> Binary64 {
    whole((window_end(times, (i + 1) as nat) - window_start(times, (i + 1) as nat)) as nat).over(
        Binary64 { bits: LOAD_WINDOW },
    )
}

/// What lies before the start of the window around `t` lies before its end.
proof fn lemma_window_open(x: Binary64, t: Binary64)
    requires
        x.less(t.minus(Binary64 { bits: HALF_WINDOW })),
    ensures
        x.less_or_equal(t.plus(Binary64 { bits: HALF_WINDOW })),
{
    let h = Binary64 { bits: HALF_WINDOW };
    lemma_half_window();
    lemma_signed(true, h.magnitude());
    if t.finite() {
        lemma_minus_shrinks(t, h);
        lemma_plus_grows(t, h);
    }
}

proof fn lemma_half_window()
    ensures
        (Binary64 { bits: HALF_WINDOW }).positive(),
        !(Binary64 { bits: HALF_WINDOW }).negative(),
{
    lemma_size_ordered(0, HALF_WINDOW as nat);
    assert(size_of_magnitude(0) == 0);
}

/// Sliding-window arrival rate at each offset.
fn offered_load(offsets: &Vec<u128>) -> (r: Vec<Binary64>)
    requires
        forall|i: int|
            0 <= i < offsets.len() ==> #[trigger] offsets[i] < 0x1_0000_0000_0000_0000
                * 1_000_000_000,
    ensures
        r.len() == offsets.len(),
        forall|i: int|
            0 <= i < r.len() ==> #[trigger] r[i] == load_at(in_seconds(offsets@), i),
{
    let mut times: Vec<Binary64> = Vec::new();
    let mut k: usize = 0;
    while k < offsets.len()
        invariant
            k <= offsets.len(),
            times.len() == k,
            forall|i: int|
                0 <= i < offsets.len() ==> #[trigger] offsets[i] < 0x1_0000_0000_0000_0000
                    * 1_000_000_000,
            forall|i: int| 0 <= i < k ==> #[trigger] times[i] == ns_to_secs(offsets[i] as nat),
        decreases offsets.len() - k,
    {
        times.push(duration_to_secs(offsets[k]));
        k = k + 1;
    }
    assert(times@ =~= in_seconds(offsets@));
    let half: Binary64 = Binary64::from_bits(HALF_WINDOW);
    let mut out: Vec<Binary64> = Vec::new();
    let mut lo: usize = 0;
    let mut hi: usize = 0;
    let mut i: usize = 0;
    while i < times.len()
        invariant
            i <= times.len(),
            lo <= hi <= times.len(),
            lo == window_start(times@, i as nat),
            hi == window_end(times@, i as nat),
            half == (Binary64 { bits: HALF_WINDOW }),
            out.len() == i,
            forall|j: int| 0 <= j < i ==> #[trigger] out[j] == load_at(times@, j),
        decreases times.len() - i,
    {
        let start: Binary64 = times[i].sub(half);
        let end: Binary64 = times[i].add(half);
        let ghost first_lo = lo;
        let ghost first_hi = hi;
        while hi < times.len() && times[hi].le(end)
            invariant
                first_hi <= hi <= times.len(),
                lo <= hi,
                past_reached(times@, first_hi as int, end) == past_reached(times@, hi as int, end),
            decreases times.len() - hi,
        {
            hi = hi + 1;
        }
        while lo < times.len() && times[lo].lt(start)
            invariant
                first_lo <= lo <= hi <= times.len(),
                i < times.len(),
                start == times[i as int].minus(Binary64 { bits: HALF_WINDOW }),
                end == times[i as int].plus(Binary64 { bits: HALF_WINDOW }),
                hi < times.len() ==> !times[hi as int].less_or_equal(end),
                past_earlier(times@, first_lo as int, start) == past_earlier(
                    times@,
                    lo as int,
                    start,
                ),
            decreases times.len() - lo,
        {
            proof {
                lemma_window_open(times[lo as int], times[i as int]);
            }
            lo = lo + 1;
        }
        out.push(from_u64((hi - lo) as u64).div(Binary64::from_bits(LOAD_WINDOW)));
        i = i + 1;
    }
    out
}

proof fn lemma_past_earlier(times: Seq<Binary64>, i: int, bound: Binary64)
    requires
        0 <= i <= times.len(),
    ensures
        i <= past_earlier(times, i, bound) <= times.len(),
        forall|j: int| i <= j < past_earlier(times, i, bound) ==> (#[trigger] times[j]).less(bound),
        past_earlier(times, i, bound) < times.len() ==> !times[past_earlier(times, i, bound)].less(
            bound,
        ),
    decreases times.len() - i,
{
    if i < times.len() && times[i].less(bound) {
        lemma_past_earlier(times, i + 1, bound);
    }
}

proof fn lemma_past_reached(times: Seq<Binary64>, i: int, bound: Binary64)
    requires
        0 <= i <= times.len(),
    ensures
        i <= past_reached(times, i, bound) <= times.len(),
        forall|j: int|
            i <= j < past_reached(times, i, bound) ==> (#[trigger] times[j]).less_or_equal(bound),
        past_reached(times, i, bound) < times.len() ==> !times[past_reached(
            times,
            i,
            bound,
        )].less_or_equal(bound),
    decreases times.len() - i,
{
    if i < times.len() && times[i].less_or_equal(bound) {
        lemma_past_reached(times, i + 1, bound);
    }
}

/// The times are finite and in order.
pub open spec fn in_order(times: Seq<Binary64>) -> bool {
    &&& forall|i: int| 0 <= i < times.len() ==> (#[trigger] times[i]).finite()
    &&& forall|i: int, j: int|
        0 <= i <= j < times.len() ==> (#[trigger] times[i]).less_or_equal(#[trigger] times[j])
}

/// On arrivals in order, the window around arrival `i` holds the arrivals no
/// more than half a window before it and no more than half a window after, and
/// no others: the offered load is their number over the window.
pub proof fn lemma_window_holds(times: Seq<Binary64>, i: int, j: int)
    requires
        in_order(times),
        0 <= i < times.len(),
        0 <= j < times.len(),
    ensures
        (window_start(times, (i + 1) as nat) <= j < window_end(times, (i + 1) as nat)) <==> (
        times[i].minus(Binary64 { bits: HALF_WINDOW }).less_or_equal(times[j])
            && times[j].less_or_equal(times[i].plus(Binary64 { bits: HALF_WINDOW }))),
{
    lemma_window_bounds(times, (i + 1) as nat);
    let h = Binary64 { bits: HALF_WINDOW };
    lemma_half_window();
    lemma_signed(true, h.magnitude());
    lemma_plus_units(times[i], h.opposite());
    lemma_plus_units(times[i], h);
}

/// Before the start of the window everything is too early, from there on
/// nothing is; likewise at its end.
pub proof fn lemma_window_bounds(times: Seq<Binary64>, i: nat)
    requires
        in_order(times),
        0 < i <= times.len(),
    ensures
        0 <= window_start(times, i) <= times.len(),
        0 <= window_end(times, i) <= times.len(),
        forall|j: int|
            0 <= j < times.len() ==> ((#[trigger] times[j]).less(
                times[i - 1].minus(Binary64 { bits: HALF_WINDOW }),
            ) <==> j < window_start(times, i)),
        forall|j: int|
            0 <= j < times.len() ==> ((#[trigger] times[j]).less_or_equal(
                times[i - 1].plus(Binary64 { bits: HALF_WINDOW }),
            ) <==> j < window_end(times, i)),
    decreases i,
{
    let h = Binary64 { bits: HALF_WINDOW };
    lemma_half_window();
    let lo = window_start(times, (i - 1) as nat);
    let hi = window_end(times, (i - 1) as nat);
    let start = times[i - 1].minus(h);
    let end = times[i - 1].plus(h);
    if i > 1 {
        lemma_window_bounds(times, (i - 1) as nat);
        lemma_minus_monotone(times[i - 2], times[i - 1], h);
        lemma_plus_monotone(times[i - 2], times[i - 1], h);
    }
    lemma_past_earlier(times, lo, start);
    lemma_past_reached(times, hi, end);
}

impl Timeline {
    /// The index of the class that the draw `u` falls to, from the `k`th on:
    /// the first whose cumulative weight exceeds it, or else the last.
    pub open spec fn picked(classes: Seq<RequestClassCfg>, u: Binary64, k: int) -> int
        decreases classes.len() - k,
    {
        if k + 1 >= classes.len() {
            classes.len() - 1
        } else if u.less(weight_of_first(classes, (k + 1) as nat)) {
            k
        } else {
            Self::picked(classes, u, k + 1)
        }
    }

    /// Request `i` of the schedule.
    pub open spec fn is_scheduled(
        cfg: Config,
        offsets: Seq<u128>,
        i: int,
        r: ScheduledRequest,
    ) -> bool {
        let draws = chacha8_words(class_seed(cfg.scenario.seed));
        let class = cfg.request_classes[Self::picked(
            cfg.request_classes@,
            unit(draws[i as nat]),
            0,
        )];
        &&& r.request_id == i
        &&& r.offset == offsets[i]
        &&& r.class == class.name
        &&& r.required@ == class.requires@
        &&& r.nonce == nonce_of(cfg.scenario.seed, i as u64)
        &&& r.offered_load_rps == load_at(in_seconds(offsets), i)
    }
}

/// The class that the draw `u` falls to.
fn pick(cfg: &Config, u: Binary64) -> (r: usize)
    requires
        cfg.request_classes.len() > 0,
    ensures
        r == Timeline::picked(cfg.request_classes@, u, 0),
        r < cfg.request_classes.len(),
{
    let mut k: usize = 0;
    let mut acc: Binary64 = Binary64::from_bits(0);
    while k + 1 < cfg.request_classes.len()
        invariant
            k < cfg.request_classes.len(),
            acc == weight_of_first(cfg.request_classes@, k as nat),
            Timeline::picked(cfg.request_classes@, u, 0) == Timeline::picked(
                cfg.request_classes@,
                u,
                k as int,
            ),
        decreases cfg.request_classes.len() - k,
    {
        acc = acc.add(cfg.request_classes[k].weight);
        if u.lt(acc) {
            return k;
        }
        k = k + 1;
    }
    k
}

impl Timeline {
    /// The schedule of requests that arrive at `offsets`.
    pub fn generate(cfg: &Config, offsets: Vec<u128>) -> (r: Self)
        requires
            cfg.request_classes.len() > 0,
            is_time(cfg.scenario.duration_s),
            forall|i: int|
                0 <= i < offsets.len() ==> #[trigger] offsets[i] < 0x1_0000_0000_0000_0000
                    * 1_000_000_000,
        ensures
            r.duration == nanoseconds(cfg.scenario.duration_s),
            schedules(r, *cfg, offsets@),
    {
        let duration: u128 = duration_from_secs(cfg.scenario.duration_s);
        let mut crng: ChaCha8Rng = class_rng(cfg.scenario.seed);
        let loads: Vec<Binary64> = offered_load(&offsets);
        let ghost draws = chacha8_words(class_seed(cfg.scenario.seed));
        let mut requests: Vec<ScheduledRequest> = Vec::new();
        let mut i: usize = 0;
        while i < offsets.len()
            invariant
                i <= offsets.len(),
                cfg.request_classes.len() > 0,
                loads.len() == offsets.len(),
                draws == chacha8_words(class_seed(cfg.scenario.seed)),
                forall|j: int|
                    0 <= j < loads.len() ==> #[trigger] loads[j] == load_at(
                        in_seconds(offsets@),
                        j,
                    ),
                forall|j: nat| #[trigger] words(crng)[j] == draws[i as nat + j],
                requests.len() == i,
                forall|j: int|
                    0 <= j < i ==> Timeline::is_scheduled(
                        *cfg,
                        offsets@,
                        j,
                        #[trigger] requests[j],
                    ),
            decreases offsets.len() - i,
        {
            assert(words(crng)[0] == draws[i as nat]);
            let u: Binary64 = unit_draw(&mut crng);
            let class: &RequestClassCfg = &cfg.request_classes[pick(cfg, u)];
            let required: Vec<String> = class.requires.clone();
            assert(required@ =~= class.requires@);
            let request = ScheduledRequest {
                request_id: i as u64,
                offset: offsets[i],
                class: class.name.clone(),
                required,
                nonce: payload_nonce(cfg.scenario.seed, i as u64),
                offered_load_rps: loads[i],
            };
            requests.push(request);
            i = i + 1;
        }
        Timeline { requests, duration }
    }

    /// Drops what the requests must call, for driving the dispatch loop with
    /// no service behind it.
    pub fn without_requirements(self) -> (r: Self)
        ensures
            r.duration == self.duration,
            r.requests.len() == self.requests.len(),
            forall|i: int|
                0 <= i < r.requests.len() ==> {
                    &&& (#[trigger] r.requests[i]).required@ == Seq::<String>::empty()
                    &&& r.requests[i].request_id == self.requests[i].request_id
                    &&& r.requests[i].offset == self.requests[i].offset
                    &&& r.requests[i].class == self.requests[i].class
                    &&& r.requests[i].nonce == self.requests[i].nonce
                    &&& r.requests[i].offered_load_rps == self.requests[i].offered_load_rps
                },
    {
        let mut requests: Vec<ScheduledRequest> = Vec::new();
        let mut i: usize = 0;
        while i < self.requests.len()
            invariant
                i <= self.requests.len(),
                requests.len() == i,
                forall|j: int|
                    0 <= j < i ==> {
                        &&& (#[trigger] requests[j]).required@ == Seq::<String>::empty()
                        &&& requests[j].request_id == self.requests[j].request_id
                        &&& requests[j].offset == self.requests[j].offset
                        &&& requests[j].class == self.requests[j].class
                        &&& requests[j].nonce == self.requests[j].nonce
                        &&& requests[j].offered_load_rps == self.requests[j].offered_load_rps
                    },
            decreases self.requests.len() - i,
        {
            let q: &ScheduledRequest = &self.requests[i];
            requests.push(
                ScheduledRequest {
                    request_id: q.request_id,
                    offset: q.offset,
                    class: q.class.clone(),
                    required: Vec::new(),
                    nonce: q.nonce,
                    offered_load_rps: q.offered_load_rps,
                },
            );
            i = i + 1;
        }
        Timeline { requests, duration: self.duration }
    }

    pub fn len(&self) -> (r: usize)
        ensures
            r == self.requests.len(),
    {
        self.requests.len()
    }

    pub fn is_empty(&self) -> (r: bool)
        ensures
            r == (self.requests.len() == 0),
    {
        self.requests.len() == 0
    }
}

/// Offsets in order are times in order, up to 2^53 seconds.
pub proof fn lemma_seconds_in_order(offsets: Seq<u128>)
    requires
        ascending(offsets),
        forall|i: int|
            0 <= i < offsets.len() ==> #[trigger] offsets[i] < 0x20_0000_0000_0000 * 1_000_000_000,
    ensures
        in_order(in_seconds(offsets)),
{
    let times = in_seconds(offsets);
    assert forall|i: int, j: int| 0 <= i <= j < times.len() implies (
    #[trigger] times[i]).less_or_equal(#[trigger] times[j]) by {
        assert(offsets[i] <= offsets[j]);
        lemma_seconds_monotone(offsets[i] as nat, offsets[j] as nat);
    }
    assert forall|i: int| 0 <= i < times.len() implies (#[trigger] times[i]).finite() by {
        lemma_seconds_monotone(offsets[i] as nat, offsets[i] as nat);
    }
}

/// How a schedule's arrivals come about.
pub enum Offsets {
    /// All of them, in nanoseconds.
    Ready { offsets: Vec<u128> },
    /// Gap by gap, each drawn from a distribution.
    ByGaps { arrivals: Arrivals },
}

/// The end of the schedule, in seconds.
pub open spec fn horizon_of(cfg: Config) -> Binary64 {
    ns_to_secs(nanoseconds(cfg.scenario.duration_s))
}

/// The arrivals that the configuration asks for.
pub fn generate_offsets(cfg: &Config) -> (r: Offsets)
    requires
        cfg.load.rate_rps.positive(),
        is_time(cfg.scenario.duration_s),
    ensures
        cfg.load.arrival == Arrival::Constant ==> (r matches Offsets::Ready { offsets }
            && constant_arrivals(offsets@, cfg.load.rate_rps, horizon_of(*cfg)) && ascending(
            offsets@,
        ) && within(offsets@, horizon_of(*cfg))),
        cfg.load.arrival != Arrival::Constant ==> (r matches Offsets::ByGaps { arrivals }
            && arrivals.well_formed() && arrivals.t() == zero() && arrivals.horizon() == horizon_of(
            *cfg,
        ) && arrivals.offsets() == Seq::<u128>::empty() && has_walked(arrivals, Seq::empty())),
{
    let duration: u128 = duration_from_secs(cfg.scenario.duration_s);
    let horizon: Binary64 = duration_to_secs(duration);
    proof {
        lemma_seconds_horizon(duration as nat);
    }
    if cfg.load.arrival == Arrival::Constant {
        Offsets::Ready { offsets: constant_offsets(cfg.load.rate_rps, horizon) }
    } else {
        Offsets::ByGaps { arrivals: Arrivals::new(horizon) }
    }
}

/// When the last arrival came, and the arrivals so far, after these gaps.
pub open spec fn walked(gaps: Seq<Binary64>, horizon: Binary64) -> (Binary64, Seq<nat>)
    decreases gaps.len(),
{
    if gaps.len() == 0 {
        (zero(), Seq::empty())
    } else {
        let (t, offsets) = walked(gaps.drop_last(), horizon);
        let next = t.plus(gaps.last());
        (
            next,
            if next.less(horizon) {
                offsets.push(nanoseconds(next))
            } else {
                offsets
            },
        )
    }
}

/// A schedule that has gone through these gaps.
pub open spec fn has_walked(a: Arrivals, gaps: Seq<Binary64>) -> bool {
    (a.t(), counts(a.offsets())) == walked(gaps, a.horizon())
}

/// Each advance goes through one more gap.
proof fn lemma_advance_walks(
    before: Arrivals,
    after: Arrivals,
    gaps: Seq<Binary64>,
    gap: Binary64,
)
    requires
        has_walked(before, gaps),
        after.horizon() == before.horizon(),
        after.t() == before.t().plus(gap),
        before.t().plus(gap).less(before.horizon()) ==> counts(after.offsets()) == counts(
            before.offsets(),
        ).push(nanoseconds(after.t())),
        !before.t().plus(gap).less(before.horizon()) ==> after.offsets() == before.offsets(),
    ensures
        has_walked(after, gaps.push(gap)),
{
    assert(gaps.push(gap).drop_last() =~= gaps);
}

/// The offsets of a scenario whose gaps, where it draws any, are these.
pub open spec fn arrives(cfg: Config, gaps: Seq<Binary64>, offsets: Seq<u128>) -> bool {
    if cfg.load.arrival == Arrival::Constant {
        constant_arrivals(offsets, cfg.load.rate_rps, horizon_of(cfg))
    } else {
        counts(offsets) == walked(gaps, horizon_of(cfg)).1
    }
}

/// `timeline` schedules the requests of a scenario at these offsets.
pub open spec fn schedules(timeline: Timeline, cfg: Config, offsets: Seq<u128>) -> bool {
    &&& timeline.requests.len() == offsets.len()
    &&& forall|i: int|
        0 <= i < offsets.len() ==> Timeline::is_scheduled(
            cfg,
            offsets,
            i,
            #[trigger] timeline.requests[i],
        )
}

/// A rate and a horizon settle the arrivals.
proof fn lemma_constant_unique(a: Seq<u128>, b: Seq<u128>, rate: Binary64, horizon: Binary64)
    requires
        constant_arrivals(a, rate, horizon),
        constant_arrivals(b, rate, horizon),
    ensures
        a == b,
{
    if a.len() < b.len() {
        assert(constant_at(rate, a.len()).less(horizon));
    }
    if b.len() < a.len() {
        assert(constant_at(rate, b.len()).less(horizon));
    }
    assert(a =~= b);
}

/// The class mix leaves the arrivals alone: scenarios that agree on seed,
/// duration and load, and so draw the same gaps, have schedules that agree in
/// all but the classes and what these require. With the same classes they
/// agree in these too.
pub proof fn lemma_class_mix_leaves_arrivals(
    c1: Config,
    c2: Config,
    gaps: Seq<Binary64>,
    o1: Seq<u128>,
    o2: Seq<u128>,
    t1: Timeline,
    t2: Timeline,
)
    requires
        c1.scenario.seed == c2.scenario.seed,
        c1.scenario.duration_s == c2.scenario.duration_s,
        c1.load == c2.load,
        arrives(c1, gaps, o1),
        arrives(c2, gaps, o2),
        schedules(t1, c1, o1),
        schedules(t2, c2, o2),
    ensures
        o1 == o2,
        t1.requests.len() == t2.requests.len(),
        forall|i: int|
            #![trigger t1.requests[i]]
            #![trigger t2.requests[i]]
            0 <= i < t1.requests.len() ==> {
                &&& t1.requests[i].request_id == t2.requests[i].request_id
                &&& t1.requests[i].offset == t2.requests[i].offset
                &&& t1.requests[i].nonce == t2.requests[i].nonce
                &&& t1.requests[i].offered_load_rps == t2.requests[i].offered_load_rps
                &&& c1.request_classes@ == c2.request_classes@ ==> t1.requests[i].class
                    == t2.requests[i].class && t1.requests[i].required@ == t2.requests[i].required@
            },
{
    if c1.load.arrival == Arrival::Constant {
        lemma_constant_unique(o1, o2, c1.load.rate_rps, horizon_of(c1));
    } else {
        assert(counts(o1) == counts(o2));
        assert(o1 =~= o2) by {
            assert forall|i: int| 0 <= i < o1.len() implies o1[i] == o2[i] by {
                assert(counts(o1)[i] == counts(o2)[i]);
            }
        }
    }
    assert forall|i: int|
        #![trigger t1.requests[i]]
        #![trigger t2.requests[i]]
        0 <= i < t1.requests.len() implies Timeline::is_scheduled(c1, o1, i, t1.requests[i])
        && Timeline::is_scheduled(c2, o2, i, t2.requests[i]) by {}
}

} // verus!
