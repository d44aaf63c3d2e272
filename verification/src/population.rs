//! What a report says of the population it is made from.
//!
//! The population of a run is one score for each request that was due after the
//! warmup. Percentiles are told by how many scores lie below them, means by
//! what the scores come to, and shares by how many requests ended which way.

use vstd::arithmetic::div_mod::lemma_fundamental_div_mod_converse;
use vstd::arithmetic::power2::lemma_pow2_adds;
use vstd::arithmetic::power2::lemma_pow2_strictly_increases;
use vstd::multiset::group_multiset_axioms;
use vstd::prelude::*;
use vstd::seq_lib::group_to_multiset_ensures;

use crate::arithmetic::distance;
use crate::arithmetic::one;
use crate::arithmetic::sum_of;
use crate::binary64::lemma_size_ordered;
use crate::binary64::size_of_magnitude;
use crate::binary64::Binary64;
use crate::binary64::HIDDEN;
use crate::clock::ns_to_ms;
use crate::conversion::whole;
use crate::means::lemma_mean_finite;
use crate::means::lemma_mean_near;
use crate::means::lemma_measurable_any_order;
use crate::means::lemma_order_free;
use crate::means::lemma_difference_near;
use crate::means::lemma_quotient_near;
use crate::means::lemma_ratio_near;
use crate::means::measurable;
use crate::means::near_mean;
use crate::means::near_quotient;
use crate::means::near_ratio;
use crate::order::lemma_rounded_zero;
use crate::order::lemma_whole_units;
use crate::ranks::lemma_nearest_ranks;
use crate::ranks::lemma_tail_sizes;
use crate::record::Outcome;
use crate::record::RequestRecord;
use crate::report::after_warmup;
use crate::report::aggregates;
use crate::report::call_timeouts_of;
use crate::report::calls_of;
use crate::report::count_of;
use crate::report::cvar_of;
use crate::report::lemma_sorted_values;
use crate::report::percentile_of;
use crate::report::rank_of;
use crate::report::scores;
use crate::report::sorted_values;
use crate::report::success_latencies;
use crate::report::timeouts_of;
use crate::report::warmup_end;
use crate::report::Report;
use crate::report::ReportInput;
use crate::report::EPSILON;
use crate::report::Q50;
use crate::report::Q90;
use crate::report::Q99;
use crate::report::Q999;
use crate::rounding::lemma_powers;
use crate::seconds::lemma_ns_to_ms_monotone;
use crate::seconds::lemma_whole_exact;
use crate::seconds::lemma_whole_positive;
use crate::span::CallOutcome;
use crate::span::CallSpan;

verus! {

/// The records of requests that were due at the end of the warmup or later.
pub open spec fn measured(input: ReportInput) -> Seq<RequestRecord> {
    input.records@.filter(
        |r: RequestRecord| r.intended_dispatch_ns >= warmup_end(input.warmup_s),
    )
}

/// The scores of these records.
pub open spec fn population(input: ReportInput) -> Seq<Binary64> {
    measured(input).map_values(|r: RequestRecord| r.scored(input.penalty_ms))
}

/// The records of successes among them that completed.
pub open spec fn served(input: ReportInput) -> Seq<RequestRecord> {
    measured(input).filter(
        |r: RequestRecord| r.outcome == Outcome::Success && r.completion_ns is Some,
    )
}

/// Their latencies.
pub open spec fn served_latencies(input: ReportInput) -> Seq<Binary64> {
    served(input).map_values(|r: RequestRecord| ns_to_ms(r.latency()->0))
}

/// How many values are smaller than `x`.
pub open spec fn below(values: Seq<Binary64>, x: Binary64) -> nat {
    values.filter(|v: Binary64| v.less(x)).len()
}

/// How many values are `x` or smaller.
pub open spec fn up_to(values: Seq<Binary64>, x: Binary64) -> nat {
    values.filter(|v: Binary64| v.less_or_equal(x)).len()
}

/// `x` is the value that comes `k`th, counted from 1, when the values are put
/// in order: fewer than `k` are smaller, and at least `k` are `x` or smaller.
pub open spec fn comes(values: Seq<Binary64>, x: Binary64, k: nat) -> bool {
    &&& values.contains(x)
    &&& below(values, x) < k <= up_to(values, x)
}

/// The values can be compared.
pub open spec fn comparable(values: Seq<Binary64>) -> bool {
    forall|i: int| 0 <= i < values.len() ==> !(#[trigger] values[i]).nan()
}

proof fn lemma_filtered_multiset<T>(s: Seq<T>, f: spec_fn(T) -> bool)
    ensures
        s.filter(f).to_multiset() =~= s.to_multiset().filter(f),
    decreases s.len(),
{
    broadcast use {group_to_multiset_ensures, group_multiset_axioms};

    reveal(Seq::filter);
    if s.len() > 0 {
        let rest = s.drop_last();
        lemma_filtered_multiset(rest, f);
        assert(rest.push(s.last()) =~= s);
        assert(s.to_multiset() =~= rest.to_multiset().insert(s.last()));
        if f(s.last()) {
            assert(s.filter(f) =~= rest.filter(f).push(s.last()));
        }
    }
}

/// How many items are such does not depend on their order.
proof fn lemma_filtered_count<T>(a: Seq<T>, b: Seq<T>, f: spec_fn(T) -> bool)
    requires
        a.to_multiset() == b.to_multiset(),
    ensures
        a.filter(f).len() == b.filter(f).len(),
{
    broadcast use {group_to_multiset_ensures, group_multiset_axioms};

    lemma_filtered_multiset(a, f);
    lemma_filtered_multiset(b, f);
    assert(a.filter(f).to_multiset().len() == a.filter(f).len());
    assert(b.filter(f).to_multiset().len() == b.filter(f).len());
}

/// Where none is such from the `m`th on, at most `m` are.
proof fn lemma_at_most<T>(s: Seq<T>, f: spec_fn(T) -> bool, m: nat)
    requires
        forall|i: int| m <= i < s.len() ==> !f(#[trigger] s[i]),
    ensures
        s.filter(f).len() <= m,
    decreases s.len(),
{
    reveal(Seq::filter);
    if s.len() > 0 {
        let rest = s.drop_last();
        if s.len() > m {
            assert(!f(s[s.len() - 1]));
            lemma_at_most(rest, f, m);
        } else {
            lemma_at_most(rest, f, (s.len() - 1) as nat);
        }
    }
}

/// Where all of the first `m` are such, at least `m` are.
proof fn lemma_at_least<T>(s: Seq<T>, f: spec_fn(T) -> bool, m: nat)
    requires
        m <= s.len(),
        forall|i: int| 0 <= i < m ==> f(#[trigger] s[i]),
    ensures
        s.filter(f).len() >= m,
    decreases s.len(),
{
    reveal(Seq::filter);
    if s.len() > 0 {
        let rest = s.drop_last();
        if s.len() > m {
            lemma_at_least(rest, f, m);
        } else {
            assert(f(s[m - 1]));
            lemma_at_least(rest, f, (m - 1) as nat);
        }
    }
}

/// The value at place `k` of the sorted values is the one that comes `k`th.
proof fn lemma_sorted_comes(values: Seq<Binary64>, k: nat)
    requires
        values.len() <= usize::MAX,
        comparable(values),
        0 < k <= values.len(),
    ensures
        comes(values, sorted_values(values)[k - 1], k),
{
    broadcast use {group_to_multiset_ensures, group_multiset_axioms};

    let s = sorted_values(values);
    let x = s[k - 1];
    lemma_sorted_values(values);
    assert(s.contains(x));
    assert(s.to_multiset().count(x) > 0);
    let smaller = |v: Binary64| v.less(x);
    let no_larger = |v: Binary64| v.less_or_equal(x);
    lemma_filtered_count(values, s, smaller);
    lemma_filtered_count(values, s, no_larger);
    assert forall|i: int| k - 1 <= i < s.len() implies !smaller(#[trigger] s[i]) by {
        assert(x.less_or_equal(s[i]));
    }
    lemma_at_most(s, smaller, (k - 1) as nat);
    lemma_at_least(s, no_larger, k);
}

/// What comes after the warmup, in one go.
proof fn lemma_measured(records: Seq<RequestRecord>, warmup_ns: nat)
    ensures
        after_warmup(records, warmup_ns) == records.filter(
            |r: RequestRecord| r.intended_dispatch_ns >= warmup_ns,
        ),
    decreases records.len(),
{
    reveal(Seq::filter);
    if records.len() > 0 {
        lemma_measured(records.drop_last(), warmup_ns);
    }
}

proof fn lemma_served(records: Seq<RequestRecord>)
    ensures
        success_latencies(records) == records.filter(
            |r: RequestRecord| r.outcome == Outcome::Success && r.completion_ns is Some,
        ).map_values(|r: RequestRecord| ns_to_ms(r.latency()->0)),
    decreases records.len(),
{
    reveal(Seq::filter);
    let f = |r: RequestRecord| r.outcome == Outcome::Success && r.completion_ns is Some;
    let g = |r: RequestRecord| ns_to_ms(r.latency()->0);
    if records.len() > 0 {
        let rest = records.drop_last();
        lemma_served(rest);
        let last = records.last();
        if f(last) {
            assert(records.filter(f) =~= rest.filter(f).push(last));
            assert(rest.filter(f).push(last).map_values(g) =~= rest.filter(f).map_values(g).push(
                g(last),
            ));
        }
    } else {
        assert(records.filter(f).map_values(g) =~= Seq::<Binary64>::empty());
    }
}

/// The report's own view of the population.
proof fn lemma_population(input: ReportInput)
    ensures
        after_warmup(input.records@, warmup_end(input.warmup_s)) == measured(input),
        scores(measured(input), input.penalty_ms) == population(input),
        success_latencies(measured(input)) == served_latencies(input),
        measured(input).len() <= input.records.len(),
        population(input).len() == measured(input).len(),
        served_latencies(input).len() <= measured(input).len(),
{
    let post = measured(input);
    lemma_measured(input.records@, warmup_end(input.warmup_s));
    assert(scores(post, input.penalty_ms) =~= population(input));
    lemma_served(post);
    input.records@.lemma_filter_len(
        |r: RequestRecord| r.intended_dispatch_ns >= warmup_end(input.warmup_s),
    );
    post.lemma_filter_len(
        |r: RequestRecord| r.outcome == Outcome::Success && r.completion_ns is Some,
    );
}

/// A percentile is the value at its rank.
proof fn lemma_percentile_comes(values: Seq<Binary64>, q: Binary64, k: nat)
    requires
        values.len() <= usize::MAX,
        comparable(values),
        rank_of(values.len(), q) == k,
        0 < k <= values.len(),
    ensures
        comes(values, percentile_of(sorted_values(values), q), k),
{
    lemma_sorted_comes(values, k);
    lemma_sorted_values(values);
}

/// The percentiles that a report holds, by rank.
proof fn lemma_known_ranks(values: Seq<Binary64>)
    requires
        values.len() <= usize::MAX,
        0 < values.len() <= 0x800_0000_0000,
        comparable(values),
    ensures
        ({
            let s = sorted_values(values);
            let n = values.len();
            &&& comes(values, percentile_of(s, Binary64 { bits: Q50 }), (n + 1) / 2)
            &&& comes(values, percentile_of(s, Binary64 { bits: Q90 }), (9 * n + 9) / 10)
            &&& comes(values, percentile_of(s, Binary64 { bits: Q99 }), (99 * n + 99) / 100)
            &&& comes(values, percentile_of(s, Binary64 { bits: Q999 }), (999 * n + 999) / 1000)
        }),
{
    let n = values.len();
    assert(comes(
        values,
        percentile_of(sorted_values(values), Binary64 { bits: Q50 }),
        (n + 1) / 2,
    )) by {
        lemma_nearest_ranks(n);
        lemma_percentile_comes(values, Binary64 { bits: Q50 }, (n + 1) / 2);
    }
    assert(comes(
        values,
        percentile_of(sorted_values(values), Binary64 { bits: Q90 }),
        (9 * n + 9) / 10,
    )) by {
        lemma_nearest_ranks(n);
        lemma_percentile_comes(values, Binary64 { bits: Q90 }, (9 * n + 9) / 10);
    }
    assert(comes(
        values,
        percentile_of(sorted_values(values), Binary64 { bits: Q99 }),
        (99 * n + 99) / 100,
    )) by {
        lemma_nearest_ranks(n);
        lemma_percentile_comes(values, Binary64 { bits: Q99 }, (99 * n + 99) / 100);
    }
    assert(comes(
        values,
        percentile_of(sorted_values(values), Binary64 { bits: Q999 }),
        (999 * n + 999) / 1000,
    )) by {
        lemma_nearest_ranks(n);
        lemma_percentile_comes(values, Binary64 { bits: Q999 }, (999 * n + 999) / 1000);
    }
}

/// The fields of a report that are read off the sorted scores.
proof fn lemma_fields(r: Report, input: ReportInput)
    requires
        aggregates(r, input),
    ensures
        ({
            let s = sorted_values(population(input));
            let ok = sorted_values(served_latencies(input));
            let n = population(input).len();
            &&& r.n_post_warmup == n
            &&& n <= usize::MAX
            &&& served_latencies(input).len() <= usize::MAX
            &&& r.p50 == percentile_of(s, Binary64 { bits: Q50 })
            &&& r.p90 == percentile_of(s, Binary64 { bits: Q90 })
            &&& r.p99 == percentile_of(s, Binary64 { bits: Q99 })
            &&& r.p999 == percentile_of(s, Binary64 { bits: Q999 })
            &&& r.p99_ok_only == percentile_of(ok, Binary64 { bits: Q99 })
            &&& r.cvar_99 == cvar_of(s, Binary64 { bits: Q99 })
            &&& r.cvar_999 == cvar_of(s, Binary64 { bits: Q999 })
            &&& r.cvar_99_ok_only == cvar_of(ok, Binary64 { bits: Q99 })
            &&& n > 0 ==> r.max == s[n - 1]
            &&& n > 0 ==> r.mean == sum_of(s).over(whole(n))
        }),
{
    lemma_population(input);
}

/// Percentiles are read at the nearest rank: of `n` scores, p50 is the one that
/// comes `ceil(n / 2)`th in order, p90 the `ceil(9 n / 10)`th, p99 the
/// `ceil(99 n / 100)`th, p99.9 the `ceil(999 n / 1000)`th, and the maximum the
/// last.
pub proof fn lemma_percentiles_by_rank(r: Report, input: ReportInput)
    requires
        aggregates(r, input),
        0 < population(input).len() <= 0x800_0000_0000,
        comparable(population(input)),
    ensures
        r.n_post_warmup == population(input).len(),
        comes(population(input), r.p50, (population(input).len() + 1) / 2),
        comes(population(input), r.p90, (9 * population(input).len() + 9) / 10),
        comes(population(input), r.p99, (99 * population(input).len() + 99) / 100),
        comes(population(input), r.p999, (999 * population(input).len() + 999) / 1000),
        comes(population(input), r.max, population(input).len()),
{
    lemma_fields(r, input);
    lemma_known_ranks(population(input));
    lemma_sorted_comes(population(input), population(input).len());
}

/// Latencies can be compared, and are not below zero.
proof fn lemma_served_measurable(input: ReportInput)
    ensures
        comparable(served_latencies(input)),
        measurable(served_latencies(input)),
{
    let values = served_latencies(input);
    let f = |r: RequestRecord| r.outcome == Outcome::Success && r.completion_ns is Some;
    assert forall|i: int| 0 <= i < values.len() implies (#[trigger] values[i]).not_negative() by {
        let ns = served(input)[i].latency()->0;
        assert(values[i] == ns_to_ms(ns));
        measured(input).lemma_filter_pred(f, i);
        lemma_ns_to_ms_monotone(ns, ns);
        lemma_size_ordered(0, ns_to_ms(ns).magnitude());
        assert(size_of_magnitude(0) == 0);
    }
    assert forall|i: int| 0 <= i < values.len() implies !(#[trigger] values[i]).nan() by {
        assert(values[i].not_negative());
    }
}

/// The diagnostic percentile is that of the completed successes alone.
pub proof fn lemma_percentile_of_successes(r: Report, input: ReportInput)
    requires
        aggregates(r, input),
        0 < served_latencies(input).len() <= 0x800_0000_0000,
    ensures
        comes(
            served_latencies(input),
            r.p99_ok_only,
            (99 * served_latencies(input).len() + 99) / 100,
        ),
{
    lemma_fields(r, input);
    lemma_served_measurable(input);
    lemma_known_ranks(served_latencies(input));
}

/// The values rearrange these.
proof fn lemma_mean_of_sorted(values: Seq<Binary64>)
    requires
        0 < values.len() <= 0x100_0000_0000,
        values.len() <= usize::MAX,
        measurable(values),
        sum_of(sorted_values(values)).over(whole(values.len())).finite(),
    ensures
        near_mean(sum_of(sorted_values(values)).over(whole(values.len())), values),
{
    let s = sorted_values(values);
    assert forall|i: int| 0 <= i < values.len() implies !(#[trigger] values[i]).nan() by {
        assert(values[i].not_negative());
    }
    lemma_sorted_values(values);
    lemma_measurable_any_order(values, s);
    lemma_order_free(values, s);
    lemma_mean_finite(s);
    lemma_mean_near(s);
}

/// The mean is what the scores come to, over how many there are.
pub proof fn lemma_mean_of_scores(r: Report, input: ReportInput)
    requires
        aggregates(r, input),
        0 < population(input).len() <= 0x100_0000_0000,
        measurable(population(input)),
        r.mean.finite(),
    ensures
        near_mean(r.mean, population(input)),
{
    lemma_fields(r, input);
    lemma_mean_of_sorted(population(input));
}

/// `tail` holds the worst of the values: what is left out of it is no larger
/// than anything in it.
pub open spec fn worst(values: Seq<Binary64>, tail: Seq<Binary64>) -> bool {
    exists|rest: Seq<Binary64>| #[trigger] leaves(values, tail, rest)
}

/// The values are those of `rest` and `tail`, and none in `rest` is larger than
/// one in `tail`.
pub open spec fn leaves(values: Seq<Binary64>, tail: Seq<Binary64>, rest: Seq<Binary64>) -> bool {
    &&& (rest + tail).to_multiset() == values.to_multiset()
    &&& forall|i: int, j: int|
        0 <= i < rest.len() && 0 <= j < tail.len() ==> (#[trigger] rest[i]).less_or_equal(
            #[trigger] tail[j],
        )
}

/// `x` is the mean of the worst `k` of the values.
pub open spec fn mean_of_worst(x: Binary64, values: Seq<Binary64>, k: nat) -> bool {
    exists|tail: Seq<Binary64>| #[trigger]
        worst(values, tail) && tail.len() == k && near_mean(x, tail)
}

proof fn lemma_tail_mean(values: Seq<Binary64>, k: nat)
    requires
        0 < k <= values.len() <= 0x100_0000_0000,
        values.len() <= usize::MAX,
        measurable(values),
        sum_of(
            sorted_values(values).subrange(values.len() - k, values.len() as int),
        ).over(whole(k)).finite(),
    ensures
        mean_of_worst(
            sum_of(
                sorted_values(values).subrange(values.len() - k, values.len() as int),
            ).over(whole(k)),
            values,
            k,
        ),
{
    let s = sorted_values(values);
    let n = values.len();
    assert forall|i: int| 0 <= i < values.len() implies !(#[trigger] values[i]).nan() by {
        assert(values[i].not_negative());
    }
    lemma_sorted_values(values);
    lemma_measurable_any_order(values, s);
    let rest = s.take(n - k);
    let tail = s.subrange(n - k, n as int);
    assert(rest + tail =~= s);
    assert(leaves(values, tail, rest));
    assert forall|i: int| 0 <= i < tail.len() implies (#[trigger] tail[i]).not_negative() by {
        assert(s[n - k + i].not_negative());
    }
    assert(worst(values, tail));
    lemma_mean_finite(tail);
    lemma_mean_near(tail);
}

proof fn lemma_cvar_99(values: Seq<Binary64>)
    requires
        0 < values.len() < 117_964_900,
        measurable(values),
        cvar_of(sorted_values(values), Binary64 { bits: Q99 }).finite(),
    ensures
        mean_of_worst(
            cvar_of(sorted_values(values), Binary64 { bits: Q99 }),
            values,
            (values.len() + 99) / 100,
        ),
{
    assert forall|i: int| 0 <= i < values.len() implies !(#[trigger] values[i]).nan() by {
        assert(values[i].not_negative());
    }
    lemma_sorted_values(values);
    lemma_tail_sizes(values.len());
    lemma_tail_mean(values, (values.len() + 99) / 100);
}

proof fn lemma_cvar_999(values: Seq<Binary64>)
    requires
        0 < values.len() < 117_964_900,
        measurable(values),
        cvar_of(sorted_values(values), Binary64 { bits: Q999 }).finite(),
    ensures
        mean_of_worst(
            cvar_of(sorted_values(values), Binary64 { bits: Q999 }),
            values,
            (values.len() + 999) / 1000,
        ),
{
    assert forall|i: int| 0 <= i < values.len() implies !(#[trigger] values[i]).nan() by {
        assert(values[i].not_negative());
    }
    lemma_sorted_values(values);
    lemma_tail_sizes(values.len());
    lemma_tail_mean(values, (values.len() + 999) / 1000);
}

/// The headline is the mean of the worst hundredth of the scores, rounded up to
/// whole requests; its companion that of the worst thousandth.
pub proof fn lemma_headline_is_mean_of_worst(r: Report, input: ReportInput)
    requires
        aggregates(r, input),
        0 < population(input).len() < 117_964_900,
        measurable(population(input)),
    ensures
        r.cvar_99.finite() ==> mean_of_worst(
            r.cvar_99,
            population(input),
            (population(input).len() + 99) / 100,
        ),
        r.cvar_999.finite() ==> mean_of_worst(
            r.cvar_999,
            population(input),
            (population(input).len() + 999) / 1000,
        ),
{
    lemma_fields(r, input);
    if r.cvar_99.finite() {
        lemma_cvar_99(population(input));
    }
    if r.cvar_999.finite() {
        lemma_cvar_999(population(input));
    }
}

/// The diagnostic headline is the mean of the worst hundredth of the completed
/// successes alone.
pub proof fn lemma_headline_of_successes(r: Report, input: ReportInput)
    requires
        aggregates(r, input),
        0 < served_latencies(input).len() < 117_964_900,
        r.cvar_99_ok_only.finite(),
    ensures
        mean_of_worst(
            r.cvar_99_ok_only,
            served_latencies(input),
            (served_latencies(input).len() + 99) / 100,
        ),
{
    lemma_fields(r, input);
    lemma_served_measurable(input);
    lemma_cvar_99(served_latencies(input));
}

/// How many of the measured requests ended this way.
pub open spec fn ended(input: ReportInput, outcome: Outcome) -> nat {
    measured(input).filter(|r: RequestRecord| r.outcome == outcome).len()
}

/// The calls that the measured requests report.
pub open spec fn reported_calls(input: ReportInput) -> Seq<CallSpan> {
    measured(input).map_values(|r: RequestRecord| r.spans@).flatten()
}

proof fn lemma_ended(records: Seq<RequestRecord>, outcome: Outcome)
    ensures
        count_of(records, outcome) == records.filter(
            |r: RequestRecord| r.outcome == outcome,
        ).len(),
        count_of(records, outcome) <= records.len(),
    decreases records.len(),
{
    reveal(Seq::filter);
    if records.len() > 0 {
        lemma_ended(records.drop_last(), outcome);
    }
}

proof fn lemma_timeouts(spans: Seq<CallSpan>)
    ensures
        timeouts_of(spans) == spans.filter(
            |c: CallSpan| c.outcome == CallOutcome::Timeout,
        ).len(),
    decreases spans.len(),
{
    reveal(Seq::filter);
    if spans.len() > 0 {
        lemma_timeouts(spans.drop_last());
    }
}

proof fn lemma_calls(records: Seq<RequestRecord>)
    ensures
        ({
            let calls = records.map_values(|r: RequestRecord| r.spans@).flatten();
            &&& calls_of(records) == calls.len()
            &&& call_timeouts_of(records) == calls.filter(
                |c: CallSpan| c.outcome == CallOutcome::Timeout,
            ).len()
        }),
    decreases records.len(),
{
    let f = |r: RequestRecord| r.spans@;
    let g = |c: CallSpan| c.outcome == CallOutcome::Timeout;
    let lists = records.map_values(f);
    lists.lemma_flatten_and_flatten_alt_are_equivalent();
    reveal(Seq::filter);
    if records.len() > 0 {
        let rest = records.drop_last();
        lemma_calls(rest);
        assert(lists.drop_last() =~= rest.map_values(f));
        rest.map_values(f).lemma_flatten_and_flatten_alt_are_equivalent();
        let before = rest.map_values(f).flatten();
        let last = records.last().spans@;
        assert(lists.flatten() == before + last);
        Seq::filter_distributes_over_add(before, last, g);
        lemma_timeouts(last);
    }
}

/// Counts are counts: of the records, of the requests that were refused or
/// never served, and of the calls that the measured requests made.
pub proof fn lemma_counts_of_report(r: Report, input: ReportInput)
    requires
        aggregates(r, input),
    ensures
        r.n == input.records.len(),
        r.n_post_warmup == measured(input).len(),
        r.dropped_count == ended(input, Outcome::Dropped),
        r.never_served_count == ended(input, Outcome::NeverServed),
        r.downstream_calls == reported_calls(input).len(),
        r.downstream_timeouts == reported_calls(input).filter(
            |c: CallSpan| c.outcome == CallOutcome::Timeout,
        ).len(),
        r.penalty_ms == input.penalty_ms,
{
    lemma_population(input);
    lemma_ended(measured(input), Outcome::Dropped);
    lemma_ended(measured(input), Outcome::NeverServed);
    lemma_calls(measured(input));
}

/// Rates are shares of the measured requests.
pub proof fn lemma_rates_are_shares(r: Report, input: ReportInput)
    requires
        aggregates(r, input),
        0 < measured(input).len() <= 0x20_0000_0000_0000,
    ensures
        near_ratio(r.ok_rate, ended(input, Outcome::Success), measured(input).len()),
        near_ratio(r.expiry_rate, ended(input, Outcome::Expired), measured(input).len()),
        near_ratio(r.incorrect_rate, ended(input, Outcome::Incorrect), measured(input).len()),
        near_ratio(r.error_rate, ended(input, Outcome::Error), measured(input).len()),
{
    let n = measured(input).len();
    lemma_population(input);
    lemma_ended(measured(input), Outcome::Success);
    lemma_ended(measured(input), Outcome::Expired);
    lemma_ended(measured(input), Outcome::Incorrect);
    lemma_ended(measured(input), Outcome::Error);
    lemma_ratio_near(ended(input, Outcome::Success), n);
    lemma_ratio_near(ended(input, Outcome::Expired), n);
    lemma_ratio_near(ended(input, Outcome::Incorrect), n);
    lemma_ratio_near(ended(input, Outcome::Error), n);
}

/// A run fails if and only if it was told of omissions or a measured request
/// was refused; only then is there a reason.
pub proof fn lemma_failed_when(r: Report, input: ReportInput)
    requires
        aggregates(r, input),
    ensures
        r.failed <==> input.coordinated_omission_failure || ended(input, Outcome::Dropped) > 0,
        r.failed <==> r.failure_reason is Some,
{
    lemma_population(input);
    lemma_ended(measured(input), Outcome::Dropped);
}

/// A step above 1 is far below 2^-40.
proof fn lemma_epsilon()
    ensures
        0x10_0000_0000_0000 * (Binary64 { bits: EPSILON }).units() == one(),
        one() >= 0x1_0000_0000_0000_0000_0000_0000_0000_0000,
{
    lemma_powers();
    lemma_pow2_adds(52, 1022);
    lemma_pow2_adds(52, 970);
    lemma_pow2_adds(64, 64);
    lemma_pow2_strictly_increases(128, 1074);
    lemma_fundamental_div_mod_converse(EPSILON as int, HIDDEN as int, 971, 0);
}

/// The throughput is successes per measured second: the warmup is no part of
/// the time, and its successes are none of the count. Said of every run that
/// measures 2^-40 seconds and more.
pub proof fn lemma_throughput_per_measured_second(r: Report, input: ReportInput)
    requires
        aggregates(r, input),
        measured(input).len() <= 0x20_0000_0000_0000,
        input.duration_s.finite(),
        input.warmup_s.finite(),
        0 <= input.warmup_s.units() < input.duration_s.units(),
        0x100_0000_0000 * (input.duration_s.units() - input.warmup_s.units()) >= one(),
        r.throughput_rps.finite(),
    ensures
        ({
            let seconds = input.duration_s.minus(input.warmup_s);
            let exact = input.duration_s.units() - input.warmup_s.units();
            &&& near_quotient(
                r.throughput_rps,
                whole(ended(input, Outcome::Success)),
                seconds,
            )
            &&& whole(ended(input, Outcome::Success)).units() == ended(input, Outcome::Success)
                * one()
            &&& 0x20_0000_0000_0000 * distance(seconds.units() - exact) <= exact
                + 0x10_0000_0000_0000
        }),
{
    let seconds = input.duration_s.minus(input.warmup_s);
    let n = ended(input, Outcome::Success);
    lemma_population(input);
    lemma_ended(measured(input), Outcome::Success);
    lemma_difference_near(input.duration_s, input.warmup_s);
    lemma_whole_exact(n);
    lemma_whole_units(n);
    assert(size_of_magnitude(0) == 0);
    lemma_epsilon();
    assert((Binary64 { bits: EPSILON }).less(seconds));
    if n > 0 {
        lemma_whole_positive(n);
    } else {
        lemma_rounded_zero(1);
        assert(0 * one() == 0) by (nonlinear_arith);
    }
    lemma_quotient_near(whole(n), seconds);
}

} // verus!
