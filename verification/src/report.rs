//! Aggregation of a run's records.
//!
//! The headline is the mean of the worst one percent; the percentile is
//! reported beside it. Both come from the sorted exact sample, not from
//! histogram buckets.

use vstd::prelude::*;
use vstd::string::StringExecFns;

use crate::arithmetic::not_a_number;
use crate::arithmetic::sum;
use crate::arithmetic::sum_of;
use crate::binary64::lemma_size_ordered;
use crate::binary64::size_of_magnitude;
use crate::binary64::unity;
use crate::binary64::Binary64;
use crate::binary64::NOT_A_NUMBER;
use crate::binary64::ONE;
use crate::binary64::SIGN;
use crate::clock::duration_to_ms;
use crate::clock::ns_to_ms;
use crate::clock::BILLION;
use crate::config::TOLERANCE;
use crate::conversion::from_u64;
use crate::conversion::whole;
use crate::record::Outcome;
use crate::record::RequestRecord;
use crate::sort::arranged;
use crate::sort::before;
use crate::sort::lemma_arranged;
use crate::sort::lemma_some_order;
use crate::sort::sorted_order;
use crate::sort::stable_order;
use crate::sort::stably_sorted;
use crate::span::CallOutcome;
use crate::span::CallSpan;
use crate::text::decimal;
use crate::text::fixed;
use crate::text::push_decimal;
use crate::text::push_fixed_1;
use crate::text::push_fixed_2;
use crate::text::push_fixed_3;

verus! {

/// 0.99.
pub const Q99: u64 = 0x3FEF_AE14_7AE1_47AE;

/// 0.999.
pub const Q999: u64 = 0x3FEF_F7CE_D916_872B;

/// 0.5.
pub const Q50: u64 = 0x3FE0_0000_0000_0000;

/// 0.9.
pub const Q90: u64 = 0x3FEC_CCCC_CCCC_CCCD;

/// 2^-52: the step from 1 to the next number.
pub const EPSILON: u64 = 0x3CB0_0000_0000_0000;

/// 100.
pub const HUNDRED: u64 = 0x4059_0000_0000_0000;

/// `x` rounded up to an integer; but to the nearest one where it lies within
/// the tolerance, so that a rounding error does not count as one more.
pub open spec fn robust_ceiling(x: Binary64) -> nat {
    let r = x.nearest_whole();
    if x.minus(r).absolute().less(Binary64 { bits: TOLERANCE }) {
        r.saturated()
    } else {
        x.ceiling().saturated()
    }
}

/// `ceil`, tolerant of rounding errors: `(1 - 0.99) * 100` is a little over 1,
/// and means 1.
pub fn ceil_robust(x: Binary64) -> (r: u64)
    ensures
        r == robust_ceiling(x),
{
    let nearest: Binary64 = x.round();
    if x.sub(nearest).abs().lt(Binary64::from_bits(TOLERANCE)) {
        nearest.to_u64()
    } else {
        x.ceil().to_u64()
    }
}

/// `x`, held between 1 and `n`.
pub open spec fn held(x: nat, n: nat) -> nat {
    if x < 1 {
        1
    } else if x > n {
        n
    } else {
        x
    }
}

/// The rank of the `q`-percentile among `n` values, counted from 1.
pub open spec fn rank_of(n: nat, q: Binary64) -> nat {
    held(robust_ceiling(q.times(whole(n))), n)
}

/// The size of the worst `1 - q` of `n` values.
pub open spec fn tail_size(n: nat, q: Binary64) -> nat {
    held(robust_ceiling(unity().minus(q).times(whole(n))), n)
}

/// The `q`-percentile of sorted values: the one at its rank.
pub open spec fn percentile_of(sorted: Seq<Binary64>, q: Binary64) -> Binary64 {
    if sorted.len() == 0 {
        not_a_number()
    } else {
        sorted[rank_of(sorted.len(), q) - 1]
    }
}

/// The mean of the worst `1 - q` of sorted values.
pub open spec fn cvar_of(sorted: Seq<Binary64>, q: Binary64) -> Binary64 {
    if sorted.len() == 0 {
        not_a_number()
    } else {
        let k = tail_size(sorted.len(), q);
        sum_of(sorted.subrange(sorted.len() - k, sorted.len() as int)).over(whole(k))
    }
}

/// Nearest rank, on the sorted sample. Other conventions give another value
/// on the same data.
pub fn percentile(sorted: &Vec<Binary64>, q: Binary64) -> (r: Binary64)
    ensures
        r == percentile_of(sorted@, q),
{
    let n: usize = sorted.len();
    if n == 0 {
        return Binary64::from_bits(NOT_A_NUMBER);
    }
    let c: u64 = ceil_robust(q.mul(from_u64(n as u64)));
    let rank: usize = if c < 1 {
        1
    } else if c > n as u64 {
        n
    } else {
        c as usize
    };
    sorted[rank - 1]
}

/// Mean of the worst `ceil(n * (1 - q))` values. Every failure adds its full
/// penalty, where a percentile shows nothing of it below its threshold.
pub fn cvar(sorted: &Vec<Binary64>, q: Binary64) -> (r: Binary64)
    ensures
        r == cvar_of(sorted@, q),
{
    let n: usize = sorted.len();
    if n == 0 {
        return Binary64::from_bits(NOT_A_NUMBER);
    }
    let c: u64 = ceil_robust(Binary64::from_bits(ONE).sub(q).mul(from_u64(n as u64)));
    let k: usize = if c < 1 {
        1
    } else if c > n as u64 {
        n
    } else {
        c as usize
    };
    let mut tail: Vec<Binary64> = Vec::new();
    let mut i: usize = n - k;
    while i < n
        invariant
            n == sorted.len(),
            1 <= k <= n,
            n - k <= i <= n,
            tail@ == sorted@.subrange(n - k, i as int),
        decreases n - i,
    {
        tail.push(sorted[i]);
        i = i + 1;
        assert(tail@ =~= sorted@.subrange(n - k, i as int));
    }
    sum(&tail).div(from_u64(k as u64))
}

/// An integer that orders as the number does; both zeros have the same.
pub open spec fn order_key(x: Binary64) -> u64 {
    if x.negative() {
        (SIGN - x.magnitude()) as u64
    } else {
        (SIGN + x.magnitude()) as u64
    }
}

/// The keys of the values.
pub open spec fn order_keys(values: Seq<Binary64>) -> Seq<u64> {
    Seq::new(values.len(), |i: int| order_key(values[i]))
}

/// The values from the smallest to the largest; equal ones stay as they were.
pub open spec fn sorted_values(values: Seq<Binary64>) -> Seq<Binary64> {
    stably_sorted(values, order_keys(values))
}

/// Keys order as the numbers do.
pub proof fn lemma_order_key(a: Binary64, b: Binary64)
    requires
        !a.nan(),
        !b.nan(),
    ensures
        order_key(a) < order_key(b) <==> a.less(b),
        order_key(a) == order_key(b) <==> a.units() == b.units(),
{
    lemma_size_ordered(a.magnitude(), b.magnitude());
    lemma_size_ordered(0, a.magnitude());
    lemma_size_ordered(0, b.magnitude());
    assert(size_of_magnitude(0) == 0);
}

/// Sorts values from the smallest to the largest.
pub fn sort_values(values: &Vec<Binary64>) -> (r: Vec<Binary64>)
    ensures
        r@ == sorted_values(values@),
        r.len() == values.len(),
{
    let mut keys: Vec<u64> = Vec::new();
    let mut i: usize = 0;
    while i < values.len()
        invariant
            i <= values.len(),
            keys@ == order_keys(values@).take(i as int),
        decreases values.len() - i,
    {
        let x: Binary64 = values[i];
        let magnitude: u64 = x.bits % SIGN;
        let key: u64 = if x.bits >= SIGN {
            SIGN - magnitude
        } else {
            SIGN + magnitude
        };
        keys.push(key);
        i = i + 1;
        assert(keys@ =~= order_keys(values@).take(i as int));
    }
    assert(keys@ =~= order_keys(values@));
    let order: Vec<usize> = sorted_order(&keys);
    let mut out: Vec<Binary64> = Vec::new();
    let mut k: usize = 0;
    while k < order.len()
        invariant
            k <= order.len(),
            keys@ == order_keys(values@),
            order@ == stable_order(keys@),
            crate::sort::orders(keys@, 0, keys.len() as int, order@),
            out@ == arranged(values@, order@).take(k as int),
        decreases order.len() - k,
    {
        out.push(values[order[k]]);
        k = k + 1;
        assert(out@ =~= arranged(values@, order@).take(k as int));
    }
    assert(out@ =~= sorted_values(values@));
    out
}

/// What a run amounts to.
#[derive(Clone, Debug)]
pub struct Report {
    pub n: usize,
    pub n_post_warmup: usize,
    /// The headline.
    pub cvar_99: Binary64,
    pub cvar_999: Binary64,
    pub p99: Binary64,
    pub p50: Binary64,
    pub p90: Binary64,
    pub p999: Binary64,
    pub max: Binary64,
    pub mean: Binary64,
    pub throughput_rps: Binary64,
    /// A tail without these says nothing: it can be excellent because the
    /// worst requests failed.
    pub ok_rate: Binary64,
    pub expiry_rate: Binary64,
    pub incorrect_rate: Binary64,
    pub error_rate: Binary64,
    pub dropped_count: usize,
    pub never_served_count: usize,
    /// Diagnostic only.
    pub p99_ok_only: Binary64,
    pub cvar_99_ok_only: Binary64,
    pub downstream_calls: usize,
    pub downstream_timeouts: usize,
    pub penalty_ms: Binary64,
    /// A failed run still reports its numbers.
    pub failed: bool,
    pub failure_reason: Option<String>,
}

pub struct ReportInput<'a> {
    pub records: &'a Vec<RequestRecord>,
    pub warmup_s: Binary64,
    pub duration_s: Binary64,
    pub penalty_ms: Binary64,
    pub coordinated_omission_failure: bool,
}

/// The records whose intended dispatch is not before `warmup_ns`. The warmup
/// ends where it was meant to, however the service behaves.
pub open spec fn after_warmup(records: Seq<RequestRecord>, warmup_ns: nat) -> Seq<RequestRecord>
    decreases records.len(),
{
    if records.len() == 0 {
        Seq::empty()
    } else {
        let rest = after_warmup(records.drop_last(), warmup_ns);
        if records.last().intended_dispatch_ns >= warmup_ns {
            rest.push(records.last())
        } else {
            rest
        }
    }
}

/// What the records score.
pub open spec fn scores(records: Seq<RequestRecord>, penalty_ms: Binary64) -> Seq<Binary64> {
    Seq::new(records.len(), |i: int| records[i].scored(penalty_ms))
}

/// The latencies of the successes.
pub open spec fn success_latencies(records: Seq<RequestRecord>) -> Seq<Binary64>
    decreases records.len(),
{
    if records.len() == 0 {
        Seq::empty()
    } else {
        let rest = success_latencies(records.drop_last());
        let r = records.last();
        match r.latency() {
            Some(ns) => if r.outcome == Outcome::Success {
                rest.push(ns_to_ms(ns))
            } else {
                rest
            },
            None => rest,
        }
    }
}

/// How many records have this outcome.
pub open spec fn count_of(records: Seq<RequestRecord>, outcome: Outcome) -> nat
    decreases records.len(),
{
    if records.len() == 0 {
        0
    } else {
        count_of(records.drop_last(), outcome) + if records.last().outcome == outcome {
            1nat
        } else {
            0
        }
    }
}

/// How many of the calls ran out of time.
pub open spec fn timeouts_of(spans: Seq<CallSpan>) -> nat
    decreases spans.len(),
{
    if spans.len() == 0 {
        0
    } else {
        timeouts_of(spans.drop_last()) + if spans.last().outcome == CallOutcome::Timeout {
            1nat
        } else {
            0
        }
    }
}

/// How many downstream calls the records report.
pub open spec fn calls_of(records: Seq<RequestRecord>) -> nat
    decreases records.len(),
{
    if records.len() == 0 {
        0
    } else {
        calls_of(records.drop_last()) + records.last().spans@.len()
    }
}

/// How many of the reported calls ran out of time.
pub open spec fn call_timeouts_of(records: Seq<RequestRecord>) -> nat
    decreases records.len(),
{
    if records.len() == 0 {
        0
    } else {
        call_timeouts_of(records.drop_last()) + timeouts_of(records.last().spans@)
    }
}

/// Where the warmup ends, in nanoseconds.
pub open spec fn warmup_end(warmup_s: Binary64) -> nat {
    warmup_s.times(Binary64 { bits: BILLION }).saturated()
}

/// A count as a share of `n`.
pub open spec fn share(count: nat, n: nat) -> Binary64 {
    whole(count).over(
        whole(
            if n < 1 {
                1
            } else {
                n
            },
        ),
    )
}

/// Why a run counts as failed, if it does. Refusing requests weighs more than
/// dispatching them late.
pub open spec fn failure_of(omission: bool, dropped: nat) -> Option<Seq<char>> {
    if dropped > 0 {
        Some(decimal(dropped) + " requests dropped by the service"@)
    } else if omission {
        Some("coordinated omission: late dispatches over threshold"@)
    } else {
        None
    }
}

/// `r` aggregates `input`.
pub open spec fn aggregates(r: Report, input: ReportInput) -> bool {
    let post = after_warmup(input.records@, warmup_end(input.warmup_s));
    let n = post.len();
    let scored = sorted_values(scores(post, input.penalty_ms));
    let ok_only = sorted_values(success_latencies(post));
    let measured_s = input.duration_s.minus(input.warmup_s).greater(Binary64 { bits: EPSILON });
    &&& r.n == input.records.len()
    &&& r.n_post_warmup == n
    &&& r.cvar_99 == cvar_of(scored, Binary64 { bits: Q99 })
    &&& r.cvar_999 == cvar_of(scored, Binary64 { bits: Q999 })
    &&& r.p99 == percentile_of(scored, Binary64 { bits: Q99 })
    &&& r.p50 == percentile_of(scored, Binary64 { bits: Q50 })
    &&& r.p90 == percentile_of(scored, Binary64 { bits: Q90 })
    &&& r.p999 == percentile_of(scored, Binary64 { bits: Q999 })
    &&& r.max == (if n == 0 {
        not_a_number()
    } else {
        scored[n - 1]
    })
    &&& r.mean == sum_of(scored).over(
        whole(
            if n < 1 {
                1
            } else {
                n
            },
        ),
    )
    &&& r.throughput_rps == whole(count_of(post, Outcome::Success)).over(measured_s)
    &&& r.ok_rate == share(count_of(post, Outcome::Success), n)
    &&& r.expiry_rate == share(count_of(post, Outcome::Expired), n)
    &&& r.incorrect_rate == share(count_of(post, Outcome::Incorrect), n)
    &&& r.error_rate == share(count_of(post, Outcome::Error), n)
    &&& r.dropped_count == count_of(post, Outcome::Dropped)
    &&& r.never_served_count == count_of(post, Outcome::NeverServed)
    &&& r.p99_ok_only == percentile_of(ok_only, Binary64 { bits: Q99 })
    &&& r.cvar_99_ok_only == cvar_of(ok_only, Binary64 { bits: Q99 })
    &&& r.downstream_calls == calls_of(post)
    &&& r.downstream_timeouts == call_timeouts_of(post)
    &&& r.penalty_ms == input.penalty_ms
    &&& r.failed == (failure_of(
        input.coordinated_omission_failure,
        count_of(post, Outcome::Dropped),
    ) is Some)
    &&& match failure_of(
        input.coordinated_omission_failure,
        count_of(post, Outcome::Dropped),
    ) {
        Some(text) => r.failure_reason matches Some(reason) && reason@ == text,
        None => r.failure_reason is None,
    }
}

/// The counts that a report draws on.
struct Counts {
    n: usize,
    success: usize,
    expired: usize,
    incorrect: usize,
    error: usize,
    dropped: usize,
    never_served: usize,
    calls: usize,
    timeouts: usize,
}

impl Counts {
    /// These are the counts of `records`.
    spec fn count(self, records: Seq<RequestRecord>) -> bool {
        &&& self.n == records.len()
        &&& self.success == count_of(records, Outcome::Success)
        &&& self.expired == count_of(records, Outcome::Expired)
        &&& self.incorrect == count_of(records, Outcome::Incorrect)
        &&& self.error == count_of(records, Outcome::Error)
        &&& self.dropped == count_of(records, Outcome::Dropped)
        &&& self.never_served == count_of(records, Outcome::NeverServed)
        &&& self.calls == calls_of(records)
        &&& self.timeouts == call_timeouts_of(records)
    }

    /// Counts one more record.
    fn add(&mut self, record: &RequestRecord, Ghost(records): Ghost<Seq<RequestRecord>>)
        requires
            old(self).count(records),
            records.len() < usize::MAX,
            calls_of(records) + record.spans.len() <= usize::MAX,
        ensures
            final(self).count(records.push(*record)),
    {
        let ghost more = records.push(*record);
        proof {
            assert(more.drop_last() =~= records);
            lemma_counts_bounded(records, Outcome::Success);
            lemma_counts_bounded(records, Outcome::Expired);
            lemma_counts_bounded(records, Outcome::Incorrect);
            lemma_counts_bounded(records, Outcome::Error);
            lemma_counts_bounded(records, Outcome::Dropped);
            lemma_counts_bounded(records, Outcome::NeverServed);
            lemma_timeouts_bounded(records);
            lemma_span_timeouts_bounded(record.spans@);
        }
        self.n = self.n + 1;
        match record.outcome {
            Outcome::Success => {
                self.success = self.success + 1;
            },
            Outcome::Expired => {
                self.expired = self.expired + 1;
            },
            Outcome::Incorrect => {
                self.incorrect = self.incorrect + 1;
            },
            Outcome::Error => {
                self.error = self.error + 1;
            },
            Outcome::Dropped => {
                self.dropped = self.dropped + 1;
            },
            Outcome::NeverServed => {
                self.never_served = self.never_served + 1;
            },
        }
        self.calls = self.calls + record.spans.len();
        self.timeouts = self.timeouts + count_timeouts(&record.spans);
    }
}

fn count_timeouts(spans: &Vec<CallSpan>) -> (r: usize)
    ensures
        r == timeouts_of(spans@),
{
    let mut n: usize = 0;
    let mut i: usize = 0;
    while i < spans.len()
        invariant
            i <= spans.len(),
            n <= i,
            n == timeouts_of(spans@.take(i as int)),
        decreases spans.len() - i,
    {
        assert(spans@.take(i + 1).drop_last() =~= spans@.take(i as int));
        if spans[i].outcome == CallOutcome::Timeout {
            n = n + 1;
        }
        i = i + 1;
    }
    assert(spans@.take(i as int) =~= spans@);
    n
}

proof fn lemma_counts_bounded(records: Seq<RequestRecord>, outcome: Outcome)
    ensures
        count_of(records, outcome) <= records.len(),
    decreases records.len(),
{
    if records.len() > 0 {
        lemma_counts_bounded(records.drop_last(), outcome);
    }
}

proof fn lemma_span_timeouts_bounded(spans: Seq<CallSpan>)
    ensures
        timeouts_of(spans) <= spans.len(),
    decreases spans.len(),
{
    if spans.len() > 0 {
        lemma_span_timeouts_bounded(spans.drop_last());
    }
}

proof fn lemma_timeouts_bounded(records: Seq<RequestRecord>)
    ensures
        call_timeouts_of(records) <= calls_of(records),
    decreases records.len(),
{
    if records.len() > 0 {
        lemma_timeouts_bounded(records.drop_last());
        lemma_span_timeouts_bounded(records.last().spans@);
    }
}

/// Fewer records make fewer calls.
proof fn lemma_calls_of_prefix(records: Seq<RequestRecord>, warmup_ns: nat, i: int)
    requires
        0 <= i <= records.len(),
    ensures
        calls_of(after_warmup(records.take(i), warmup_ns)) <= calls_of(
            after_warmup(records, warmup_ns),
        ),
        after_warmup(records.take(i), warmup_ns).len() <= i,
    decreases records.len(),
{
    if i == records.len() {
        assert(records.take(i) =~= records);
        if i > 0 {
            lemma_calls_of_prefix(records.drop_last(), warmup_ns, i - 1);
            assert(records.drop_last().take(i - 1) =~= records.drop_last());
        }
    } else {
        lemma_calls_of_prefix(records.drop_last(), warmup_ns, i);
        assert(records.drop_last().take(i) =~= records.take(i));
        let rest = after_warmup(records.drop_last(), warmup_ns);
        assert(rest.push(records.last()).drop_last() =~= rest);
    }
}

/// Aggregates the records of a run. The scores must be comparable, as soon as
/// there are two.
pub fn build(input: ReportInput<'_>) -> (r: Report)
    requires
        after_warmup(input.records@, warmup_end(input.warmup_s)).len() >= 2 ==> forall|i: int|
            0 <= i < after_warmup(input.records@, warmup_end(input.warmup_s)).len() ==> !(
            #[trigger] after_warmup(input.records@, warmup_end(input.warmup_s))[i]).scored(
                input.penalty_ms,
            ).nan(),
        calls_of(after_warmup(input.records@, warmup_end(input.warmup_s))) <= usize::MAX,
    ensures
        aggregates(r, input),
{
    let records: &Vec<RequestRecord> = input.records;
    let warmup_ns: u64 = input.warmup_s.mul(Binary64::from_bits(BILLION)).to_u64();
    let mut scored: Vec<Binary64> = Vec::new();
    let mut ok_only: Vec<Binary64> = Vec::new();
    let mut counts = Counts {
        n: 0,
        success: 0,
        expired: 0,
        incorrect: 0,
        error: 0,
        dropped: 0,
        never_served: 0,
        calls: 0,
        timeouts: 0,
    };
    let ghost mut post: Seq<RequestRecord> = Seq::empty();
    let ghost all = after_warmup(records@, warmup_ns as nat);
    let mut i: usize = 0;
    assert(scored@ =~= scores(post, input.penalty_ms));
    while i < records.len()
        invariant
            i <= records.len(),
            records == input.records,
            all == after_warmup(records@, warmup_ns as nat),
            calls_of(all) <= usize::MAX,
            post == after_warmup(records@.take(i as int), warmup_ns as nat),
            post.len() <= i,
            counts.count(post),
            scored@ == scores(post, input.penalty_ms),
            ok_only@ == success_latencies(post),
        decreases records.len() - i,
    {
        let r: &RequestRecord = &records[i];
        proof {
            let next = records@.take(i + 1);
            assert(next.drop_last() =~= records@.take(i as int));
            assert(next.last() == *r);
            lemma_calls_of_prefix(records@, warmup_ns as nat, i + 1);
        }
        if r.intended_dispatch_ns >= warmup_ns {
            let ghost more = post.push(*r);
            assert(more.drop_last() =~= post);
            counts.add(r, Ghost(post));
            scored.push(r.scored_latency_ms(input.penalty_ms));
            if r.outcome.is_ok() {
                if let Some(ns) = r.e2e_ns() {
                    ok_only.push(duration_to_ms(ns));
                }
            }
            proof {
                post = more;
                assert(scored@ =~= scores(post, input.penalty_ms));
            }
        }
        i = i + 1;
    }
    assert(records@.take(i as int) =~= records@);
    let scored: Vec<Binary64> = sort_values(&scored);
    let ok_only: Vec<Binary64> = sort_values(&ok_only);
    let n: usize = counts.n;
    let n_f: Binary64 = from_u64(
        if n < 1 {
            1
        } else {
            n as u64
        },
    );
    let measured_s: Binary64 = input.duration_s.sub(input.warmup_s).max(
        Binary64::from_bits(EPSILON),
    );
    let mut failed: bool = input.coordinated_omission_failure;
    let mut reason: Option<String> = if failed {
        Some("coordinated omission: late dispatches over threshold".to_owned())
    } else {
        None
    };
    if counts.dropped > 0 {
        failed = true;
        let mut text: String = String::new();
        push_decimal(&mut text, counts.dropped as u64);
        text.append(" requests dropped by the service");
        assert(text@ =~= decimal(counts.dropped as nat) + " requests dropped by the service"@);
        reason = Some(text);
    }
    let max: Binary64 = if n == 0 {
        Binary64::from_bits(NOT_A_NUMBER)
    } else {
        scored[n - 1]
    };
    Report {
        n: records.len(),
        n_post_warmup: n,
        cvar_99: cvar(&scored, Binary64::from_bits(Q99)),
        cvar_999: cvar(&scored, Binary64::from_bits(Q999)),
        p99: percentile(&scored, Binary64::from_bits(Q99)),
        p50: percentile(&scored, Binary64::from_bits(Q50)),
        p90: percentile(&scored, Binary64::from_bits(Q90)),
        p999: percentile(&scored, Binary64::from_bits(Q999)),
        max,
        mean: sum(&scored).div(n_f),
        throughput_rps: from_u64(counts.success as u64).div(measured_s),
        ok_rate: from_u64(counts.success as u64).div(n_f),
        expiry_rate: from_u64(counts.expired as u64).div(n_f),
        incorrect_rate: from_u64(counts.incorrect as u64).div(n_f),
        error_rate: from_u64(counts.error as u64).div(n_f),
        dropped_count: counts.dropped,
        never_served_count: counts.never_served,
        p99_ok_only: percentile(&ok_only, Binary64::from_bits(Q99)),
        cvar_99_ok_only: cvar(&ok_only, Binary64::from_bits(Q99)),
        downstream_calls: counts.calls,
        downstream_timeouts: counts.timeouts,
        penalty_ms: input.penalty_ms,
        failed,
        failure_reason: reason,
    }
}

impl Report {
    /// Why the run failed, for the head of the summary.
    pub open spec fn headline(self) -> Seq<char> {
        if self.failed {
            "RUN FAILED: "@ + (match self.failure_reason {
                Some(reason) => reason@,
                None => "gate violation"@,
            }) + "\n\n"@
        } else {
            Seq::empty()
        }
    }

    /// The report as text.
    pub open spec fn summary_text(self) -> Seq<char> {
        self.headline()
            + "requests   "@
            + decimal(self.n as nat)
            + " ("@
            + decimal(self.n_post_warmup as nat)
            + " post-warmup)\ncvar_99    "@
            + fixed(self.cvar_99, 2)
            + " ms   <- primary\np99        "@
            + fixed(self.p99, 2)
            + " ms\np50/p90    "@
            + fixed(self.p50, 2)
            + " / "@
            + fixed(self.p90, 2)
            + " ms\np99.9/max  "@
            + fixed(self.p999, 2)
            + " / "@
            + fixed(self.max, 2)
            + " ms\nmean       "@
            + fixed(self.mean, 2)
            + " ms\nthroughput "@
            + fixed(self.throughput_rps, 1)
            + " rps\n\nok         "@
            + fixed(self.ok_rate.times(Binary64 { bits: HUNDRED }), 3)
            + "%\nexpired    "@
            + fixed(self.expiry_rate.times(Binary64 { bits: HUNDRED }), 3)
            + "%\nincorrect  "@
            + fixed(self.incorrect_rate.times(Binary64 { bits: HUNDRED }), 3)
            + "%\nerror      "@
            + fixed(self.error_rate.times(Binary64 { bits: HUNDRED }), 3)
            + "%\ndropped    "@
            + decimal(self.dropped_count as nat)
            + "\nunserved   "@
            + decimal(self.never_served_count as nat)
            + "\n\ndiagnostic: p99(ok only) "@
            + fixed(self.p99_ok_only, 2)
            + " ms, cvar_99(ok only) "@
            + fixed(self.cvar_99_ok_only, 2)
            + " ms\ndownstream: "@
            + decimal(self.downstream_calls as nat)
            + " calls, "@
            + decimal(self.downstream_timeouts as nat)
            + " timeouts\n"@
    }

    /// The report as text.
    pub fn summary(&self) -> (r: String)
        ensures
            r@ == self.summary_text(),
    {
        let mut s: String = String::new();
        if self.failed {
            s.append("RUN FAILED: ");
            match &self.failure_reason {
                Some(reason) => {
                    s.append(reason.as_str());
                },
                None => {
                    s.append("gate violation");
                },
            }
            s.append("\n\n");
        }
        assert(s@ =~= self.headline());
        s.append("requests   ");
        push_decimal(&mut s, self.n as u64);
        s.append(" (");
        push_decimal(&mut s, self.n_post_warmup as u64);
        s.append(" post-warmup)\ncvar_99    ");
        push_fixed_2(&mut s, self.cvar_99);
        s.append(" ms   <- primary\np99        ");
        push_fixed_2(&mut s, self.p99);
        s.append(" ms\np50/p90    ");
        push_fixed_2(&mut s, self.p50);
        s.append(" / ");
        push_fixed_2(&mut s, self.p90);
        s.append(" ms\np99.9/max  ");
        push_fixed_2(&mut s, self.p999);
        s.append(" / ");
        push_fixed_2(&mut s, self.max);
        s.append(" ms\nmean       ");
        push_fixed_2(&mut s, self.mean);
        s.append(" ms\nthroughput ");
        push_fixed_1(&mut s, self.throughput_rps);
        s.append(" rps\n\nok         ");
        push_fixed_3(&mut s, self.ok_rate.mul(Binary64::from_bits(HUNDRED)));
        s.append("%\nexpired    ");
        push_fixed_3(&mut s, self.expiry_rate.mul(Binary64::from_bits(HUNDRED)));
        s.append("%\nincorrect  ");
        push_fixed_3(&mut s, self.incorrect_rate.mul(Binary64::from_bits(HUNDRED)));
        s.append("%\nerror      ");
        push_fixed_3(&mut s, self.error_rate.mul(Binary64::from_bits(HUNDRED)));
        s.append("%\ndropped    ");
        push_decimal(&mut s, self.dropped_count as u64);
        s.append("\nunserved   ");
        push_decimal(&mut s, self.never_served_count as u64);
        s.append("\n\ndiagnostic: p99(ok only) ");
        push_fixed_2(&mut s, self.p99_ok_only);
        s.append(" ms, cvar_99(ok only) ");
        push_fixed_2(&mut s, self.cvar_99_ok_only);
        s.append(" ms\ndownstream: ");
        push_decimal(&mut s, self.downstream_calls as u64);
        s.append(" calls, ");
        push_decimal(&mut s, self.downstream_timeouts as u64);
        s.append(" timeouts\n");
        s
    }
}

/// Sorting puts comparable values in order, and keeps every one of them.
pub proof fn lemma_sorted_values(values: Seq<Binary64>)
    requires
        values.len() <= usize::MAX,
        forall|i: int| 0 <= i < values.len() ==> !(#[trigger] values[i]).nan(),
    ensures
        sorted_values(values).len() == values.len(),
        sorted_values(values).to_multiset() == values.to_multiset(),
        forall|i: int, j: int|
            0 <= i <= j < values.len() ==> (#[trigger] sorted_values(values)[i]).less_or_equal(
                #[trigger] sorted_values(values)[j],
            ),
{
    let keys = order_keys(values);
    let order = stable_order(keys);
    let out = sorted_values(values);
    lemma_some_order(keys);
    lemma_arranged(values, keys, order);
    assert forall|i: int, j: int| 0 <= i <= j < values.len() implies (
    #[trigger] out[i]).less_or_equal(#[trigger] out[j]) by {
        let a = values[order[i] as int];
        let b = values[order[j] as int];
        if i < j {
            assert(before(keys, order[i], order[j]));
            lemma_order_key(a, b);
            lemma_order_key(b, a);
        }
    }
}

/// A percentile is one of the values.
pub proof fn lemma_percentile_occurs(sorted: Seq<Binary64>, q: Binary64)
    requires
        sorted.len() > 0,
    ensures
        sorted.contains(percentile_of(sorted, q)),
{
}

/// The tail that is averaged holds the worst values: none outside it is worse
/// than one inside.
pub proof fn lemma_tail_is_worst(values: Seq<Binary64>, q: Binary64, i: int, j: int)
    requires
        values.len() <= usize::MAX,
        forall|k: int| 0 <= k < values.len() ==> !(#[trigger] values[k]).nan(),
        0 <= i < values.len() - tail_size(values.len(), q),
        values.len() - tail_size(values.len(), q) <= j < values.len(),
    ensures
        sorted_values(values)[i].less_or_equal(sorted_values(values)[j]),
{
    lemma_sorted_values(values);
}

/// A single dropped request fails the run.
pub proof fn lemma_dropping_fails(r: Report, input: ReportInput)
    requires
        aggregates(r, input),
        r.dropped_count > 0,
    ensures
        r.failed,
{
}

/// Too many late dispatches fail the run.
pub proof fn lemma_omission_fails(r: Report, input: ReportInput)
    requires
        aggregates(r, input),
        input.coordinated_omission_failure,
    ensures
        r.failed,
        r.failure_reason is Some,
{
}

/// A failed run reports the same numbers as one that is not failed: late
/// dispatches change nothing but the failure and its reason.
pub proof fn lemma_failed_runs_report(a: Report, b: Report, x: ReportInput, y: ReportInput)
    requires
        aggregates(a, x),
        aggregates(b, y),
        x.records@ == y.records@,
        x.warmup_s == y.warmup_s,
        x.duration_s == y.duration_s,
        x.penalty_ms == y.penalty_ms,
    ensures
        a.n == b.n,
        a.n_post_warmup == b.n_post_warmup,
        a.cvar_99 == b.cvar_99,
        a.cvar_999 == b.cvar_999,
        a.p99 == b.p99,
        a.p50 == b.p50,
        a.p90 == b.p90,
        a.p999 == b.p999,
        a.max == b.max,
        a.mean == b.mean,
        a.throughput_rps == b.throughput_rps,
        a.ok_rate == b.ok_rate,
        a.expiry_rate == b.expiry_rate,
        a.incorrect_rate == b.incorrect_rate,
        a.error_rate == b.error_rate,
        a.dropped_count == b.dropped_count,
        a.never_served_count == b.never_served_count,
        a.p99_ok_only == b.p99_ok_only,
        a.cvar_99_ok_only == b.cvar_99_ok_only,
        a.downstream_calls == b.downstream_calls,
        a.downstream_timeouts == b.downstream_timeouts,
        a.penalty_ms == b.penalty_ms,
{
}

/// Every record counts under exactly one outcome.
pub proof fn lemma_outcomes_add_up(records: Seq<RequestRecord>)
    ensures
        count_of(records, Outcome::Success) + count_of(records, Outcome::Expired) + count_of(
            records,
            Outcome::Incorrect,
        ) + count_of(records, Outcome::Error) + count_of(records, Outcome::Dropped) + count_of(
            records,
            Outcome::NeverServed,
        ) == records.len(),
    decreases records.len(),
{
    if records.len() > 0 {
        lemma_outcomes_add_up(records.drop_last());
    }
}

/// Which records lie after the warmup is decided by the schedule alone.
pub proof fn lemma_warmup_by_schedule(
    a: Seq<RequestRecord>,
    b: Seq<RequestRecord>,
    warmup_ns: nat,
)
    requires
        a.len() == b.len(),
        forall|i: int|
            0 <= i < a.len() ==> (#[trigger] a[i]).intended_dispatch_ns == (
            #[trigger] b[i]).intended_dispatch_ns,
    ensures
        after_warmup(a, warmup_ns).len() == after_warmup(b, warmup_ns).len(),
    decreases a.len(),
{
    if a.len() > 0 {
        assert(a[a.len() - 1].intended_dispatch_ns == b[b.len() - 1].intended_dispatch_ns);
        assert forall|i: int| 0 <= i < a.drop_last().len() implies (
        #[trigger] a.drop_last()[i]).intended_dispatch_ns == (
        #[trigger] b.drop_last()[i]).intended_dispatch_ns by {
            assert(a[i].intended_dispatch_ns == b[i].intended_dispatch_ns);
        }
        lemma_warmup_by_schedule(a.drop_last(), b.drop_last(), warmup_ns);
    }
}

/// Every request after the warmup adds one value to the population, whatever
/// became of it; one that did not succeed adds the penalty.
pub proof fn lemma_every_record_scores(records: Seq<RequestRecord>, penalty_ms: Binary64, i: int)
    requires
        0 <= i < records.len(),
    ensures
        scores(records, penalty_ms).len() == records.len(),
        records[i].outcome != Outcome::Success ==> scores(records, penalty_ms)[i] == penalty_ms,
{
}

} // verus!
