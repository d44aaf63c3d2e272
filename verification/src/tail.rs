//! Failing cannot improve the tail.
//!
//! Where every value of a population is at least that of another, so are its
//! percentiles and the means of its worst values. A request that fails scores
//! the penalty, which exceeds whatever it would have scored by succeeding.

use vstd::prelude::*;

use crate::arithmetic::lemma_signed;
use crate::arithmetic::one;
use crate::arithmetic::sum_of;
use crate::binary64::lemma_size_ordered;
use crate::binary64::size_of_magnitude;
use crate::binary64::zero;
use crate::binary64::Binary64;
use crate::binary64::INFINITY;
use crate::clock::ns_to_ms;
use crate::conversion::whole;
use crate::loadgen::mean_of;
use crate::load_generator::lemma_success_beats_failure;
use crate::order::lemma_over_monotone;
use crate::order::lemma_plus_units;
use crate::order::lemma_settled_monotone;
use crate::ranks::lemma_nearest_ranks;
use crate::ranks::lemma_tail_sizes;
use crate::record::Outcome;
use crate::record::RequestRecord;
use crate::report::cvar_of;
use crate::report::lemma_order_key;
use crate::report::lemma_sorted_values;
use crate::report::order_keys;
use crate::report::percentile_of;
use crate::report::rank_of;
use crate::report::scores;
use crate::report::sorted_values;
use crate::report::tail_size;
use crate::report::Q99;
use crate::seconds::lemma_ns_to_ms_monotone;
use crate::seconds::lemma_whole_positive;
use crate::seconds::LONGEST;
use crate::sort::before;
use crate::sort::lemma_order_complete;
use crate::sort::lemma_order_unique;
use crate::sort::lemma_some_order;
use crate::sort::named;
use crate::sort::orders;
use crate::sort::stable_order;

verus! {

/// Latencies: numbers that are not below zero, perhaps infinite.
pub open spec fn latencies(values: Seq<Binary64>) -> bool {
    forall|i: int|
        0 <= i < values.len() ==> !(#[trigger] values[i]).nan() && values[i].units() >= 0
}

/// Each value of `a` is at most that of `b`.
pub open spec fn at_most(a: Seq<Binary64>, b: Seq<Binary64>) -> bool {
    &&& a.len() == b.len()
    &&& forall|i: int|
        0 <= i < a.len() ==> (#[trigger] a[i]).less_or_equal(#[trigger] b[i])
}

/// The positions that come first in an order.
spec fn leading(order: Seq<usize>, n: int) -> Set<int> {
    Set::new(|p: int| exists|j: int| 0 <= j < n && #[trigger] order[j] == p)
}

/// As many positions come first as are asked for.
proof fn lemma_leading(keys: Seq<u64>, order: Seq<usize>, n: int)
    requires
        orders(keys, 0, keys.len() as int, order),
        0 <= n <= order.len(),
    ensures
        leading(order, n).finite(),
        leading(order, n).len() == n,
    decreases n,
{
    if n == 0 {
        assert(leading(order, 0) =~= Set::empty());
    } else {
        lemma_leading(keys, order, n - 1);
        let last = order[n - 1] as int;
        assert(leading(order, n) =~= leading(order, n - 1).insert(last)) by {
            assert forall|p: int| leading(order, n).contains(p) <==> leading(
                order,
                n - 1,
            ).insert(last).contains(p) by {
                if leading(order, n).contains(p) {
                    let j = choose|j: int| 0 <= j < n && #[trigger] order[j] == p;
                    if j < n - 1 {
                        assert(order[j] == p);
                    }
                }
                if leading(order, n - 1).contains(p) {
                    let j = choose|j: int| 0 <= j < n - 1 && #[trigger] order[j] == p;
                    assert(order[j] == p);
                }
                if p == last {
                    assert(order[n - 1] == p);
                }
            }
        }
        assert(!leading(order, n - 1).contains(last)) by {
            if leading(order, n - 1).contains(last) {
                let j = choose|j: int| 0 <= j < n - 1 && #[trigger] order[j] == last;
                assert(before(keys, order[j], order[n - 1]));
                assert(false);
            }
        }
    }
}

/// Sorting keeps one population below the other, place by place.
pub proof fn lemma_sorted_at_most(a: Seq<Binary64>, b: Seq<Binary64>)
    requires
        a.len() <= usize::MAX,
        latencies(a),
        latencies(b),
        at_most(a, b),
    ensures
        at_most(sorted_values(a), sorted_values(b)),
        latencies(sorted_values(a)),
        latencies(sorted_values(b)),
{
    lemma_sorted_values(a);
    lemma_sorted_values(b);
    let ka = order_keys(a);
    let kb = order_keys(b);
    let oa = stable_order(ka);
    let ob = stable_order(kb);
    lemma_some_order(ka);
    lemma_some_order(kb);
    let sa = sorted_values(a);
    let sb = sorted_values(b);
    assert forall|k: int| 0 <= k < sa.len() implies (#[trigger] sa[k]).less_or_equal(
        #[trigger] sb[k],
    ) by {
        assert(sa[k] == a[oa[k] as int]);
        assert(sb[k] == b[ob[k] as int]);
        if !sa[k].less_or_equal(sb[k]) {
            // Everything that `ob` puts first, up to `k`, lies below `sa[k]`
            // in `a` too; but only `k` positions do.
            lemma_leading(ka, oa, k);
            lemma_leading(kb, ob, k + 1);
            lemma_order_complete(ka, oa);
            assert(leading(ob, k + 1).subset_of(leading(oa, k))) by {
                assert forall|p: int| leading(ob, k + 1).contains(p) implies leading(
                    oa,
                    k,
                ).contains(p) by {
                    let j = choose|j: int| 0 <= j < k + 1 && #[trigger] ob[j] == p;
                    assert(sb[j].less_or_equal(sb[k]));
                    assert(sb[j] == b[p]);
                    assert(a[p].less_or_equal(b[p]));
                    assert(named(oa, p));
                    let i = choose|i: int| 0 <= i < oa.len() && #[trigger] oa[i] == p;
                    if i >= k {
                        assert(sa[k].less_or_equal(sa[i]));
                        assert(sa[i] == a[p]);
                        assert(false);
                    }
                    assert(oa[i] == p);
                }
            }
            vstd::set_lib::lemma_len_subset(leading(ob, k + 1), leading(oa, k));
            assert(false);
        }
    }
    assert forall|i: int| 0 <= i < sa.len() implies !(#[trigger] sa[i]).nan() && sa[i].units()
        >= 0 by {
        assert(sa[i] == a[oa[i] as int]);
    }
    assert forall|i: int| 0 <= i < sb.len() implies !(#[trigger] sb[i]).nan() && sb[i].units()
        >= 0 by {
        assert(sb[i] == b[ob[i] as int]);
    }
}

/// Infinity exceeds every number.
proof fn lemma_infinity_exceeds(x: Binary64)
    requires
        !x.nan(),
    ensures
        x.size() <= size_of_magnitude(INFINITY as nat),
        x.infinite() <==> x.size() == size_of_magnitude(INFINITY as nat),
        size_of_magnitude(INFINITY as nat) > 0,
{
    lemma_size_ordered(x.magnitude(), INFINITY as nat);
    lemma_size_ordered(0, INFINITY as nat);
    assert(size_of_magnitude(0) == 0);
}

/// Sums of latencies keep the order of their terms.
proof fn lemma_plus_both(a: Binary64, b: Binary64, c: Binary64, d: Binary64)
    requires
        !a.nan() && a.units() >= 0,
        !c.nan() && c.units() >= 0,
        a.less_or_equal(b),
        c.less_or_equal(d),
    ensures
        a.plus(c).less_or_equal(b.plus(d)),
        a.plus(c).units() >= 0,
{
    lemma_infinity_exceeds(a);
    lemma_infinity_exceeds(b);
    lemma_infinity_exceeds(c);
    lemma_infinity_exceeds(d);
    if a.finite() && c.finite() {
        lemma_plus_units(a, c);
        lemma_settled_monotone(0, a.units() + c.units());
        crate::order::lemma_rounded_zero(1);
        assert(size_of_magnitude(0) == 0);
        lemma_infinity_exceeds(a.plus(c));
        if b.finite() && d.finite() {
            lemma_plus_units(b, d);
            lemma_settled_monotone(a.units() + c.units(), b.units() + d.units());
        }
    }
}

proof fn lemma_sum_at_most(a: Seq<Binary64>, b: Seq<Binary64>)
    requires
        latencies(a),
        latencies(b),
        at_most(a, b),
    ensures
        sum_of(a).less_or_equal(sum_of(b)),
        sum_of(a).units() >= 0,
        sum_of(b).units() >= 0,
    decreases a.len(),
{
    assert(size_of_magnitude(0) == 0);
    if a.len() > 0 {
        let ra = a.drop_last();
        let rb = b.drop_last();
        assert forall|i: int| 0 <= i < ra.len() implies (#[trigger] ra[i]).less_or_equal(
            #[trigger] rb[i],
        ) by {
            assert(a[i].less_or_equal(b[i]));
        }
        assert(latencies(ra)) by {
            assert forall|i: int| 0 <= i < ra.len() implies !(#[trigger] ra[i]).nan()
                && ra[i].units() >= 0 by {
                assert(ra[i] == a[i]);
            }
        }
        assert(latencies(rb)) by {
            assert forall|i: int| 0 <= i < rb.len() implies !(#[trigger] rb[i]).nan()
                && rb[i].units() >= 0 by {
                assert(rb[i] == b[i]);
            }
        }
        lemma_sum_at_most(ra, rb);
        assert(a.last() == a[a.len() - 1] && b.last() == b[b.len() - 1]);
        assert(a[a.len() - 1].less_or_equal(b[b.len() - 1]));
        lemma_plus_both(sum_of(ra), sum_of(rb), a.last(), b.last());
        lemma_plus_both(sum_of(rb), sum_of(rb), b.last(), b.last());
    }
}

/// Dividing latencies by a positive number keeps their order.
proof fn lemma_over_both(a: Binary64, b: Binary64, c: Binary64)
    requires
        !a.nan() && a.units() >= 0,
        a.less_or_equal(b),
        c.positive() && !c.negative(),
    ensures
        a.over(c).less_or_equal(b.over(c)),
{
    lemma_infinity_exceeds(a);
    lemma_infinity_exceeds(b);
    lemma_size_ordered(0, a.magnitude());
    lemma_size_ordered(0, b.magnitude());
    assert(size_of_magnitude(0) == 0);
    // A zero may carry a sign; its quotient is a zero all the same.
    let x = a.absolute();
    let y = b.absolute();
    lemma_signed(false, a.magnitude());
    lemma_signed(false, b.magnitude());
    if a.finite() && b.finite() {
        lemma_over_monotone(x, y, c);
        lemma_same_size(a, c);
        lemma_same_size(b, c);
    } else {
        lemma_signed(false, INFINITY as nat);
        if a.finite() {
            lemma_same_size(a, c);
            lemma_over_monotone(x, x, c);
            lemma_infinity_exceeds(a.over(c));
        }
    }
}

/// The sign of a zero does not change what its quotient is worth.
proof fn lemma_same_size(a: Binary64, c: Binary64)
    requires
        a.finite() && a.units() >= 0,
        c.positive() && !c.negative(),
    ensures
        !a.over(c).nan(),
        a.over(c).units() == a.absolute().over(c).units(),
{
    lemma_signed(false, a.magnitude());
    lemma_size_ordered(0, a.magnitude());
    assert(size_of_magnitude(0) == 0);
    let m = crate::rounding::rounded(a.size() * one(), c.size());
    lemma_signed(a.negative(), m);
    lemma_signed(false, m);
    if a.negative() {
        assert(a.size() == 0);
        assert(0 * one() == 0) by (nonlinear_arith);
        crate::order::lemma_rounded_zero(c.size());
    }
}

/// A population that is nowhere better has no better tail: neither its
/// percentiles nor the means of its worst values are lower, and neither are its
/// largest value and its mean.
pub proof fn lemma_tail_at_most(a: Seq<Binary64>, b: Seq<Binary64>, q: Binary64)
    requires
        0 < a.len() <= usize::MAX,
        latencies(a),
        latencies(b),
        at_most(a, b),
    ensures
        percentile_of(sorted_values(a), q).less_or_equal(percentile_of(sorted_values(b), q)),
        cvar_of(sorted_values(a), q).less_or_equal(cvar_of(sorted_values(b), q)),
        sorted_values(a)[a.len() - 1].less_or_equal(sorted_values(b)[a.len() - 1]),
        mean_of(sorted_values(a)).less_or_equal(mean_of(sorted_values(b))),
{
    let sa = sorted_values(a);
    let sb = sorted_values(b);
    lemma_sorted_at_most(a, b);
    lemma_sorted_values(a);
    lemma_sorted_values(b);
    let n = sa.len();
    let rank = rank_of(n, q);
    assert(sa[rank - 1].less_or_equal(sb[rank - 1]));
    let k = tail_size(n, q);
    let ta = sa.subrange(n - k, n as int);
    let tb = sb.subrange(n - k, n as int);
    assert forall|i: int| 0 <= i < ta.len() implies (#[trigger] ta[i]).less_or_equal(
        #[trigger] tb[i],
    ) by {
        assert(sa[n - k + i].less_or_equal(sb[n - k + i]));
    }
    assert(latencies(ta)) by {
        assert forall|i: int| 0 <= i < ta.len() implies !(#[trigger] ta[i]).nan()
            && ta[i].units() >= 0 by {
            assert(ta[i] == sa[n - k + i]);
        }
    }
    assert(latencies(tb)) by {
        assert forall|i: int| 0 <= i < tb.len() implies !(#[trigger] tb[i]).nan()
            && tb[i].units() >= 0 by {
            assert(tb[i] == sb[n - k + i]);
        }
    }
    lemma_sum_at_most(ta, tb);
    lemma_whole_positive(k);
    lemma_over_both(sum_of(ta), sum_of(tb), whole(k));
    lemma_sum_at_most(sa, sb);
    lemma_whole_positive(n);
    lemma_over_both(sum_of(sa), sum_of(sb), whole(n));
    assert(sa[n - 1].less_or_equal(sb[n - 1]));
}

/// Failing cannot improve the tail: where some requests of a run succeed
/// within the budget and in another run fail instead, and the penalty exceeds
/// the budget, neither the percentiles nor the headline of the other run are
/// lower, nor its maximum or its mean.
pub proof fn lemma_failing_never_helps(
    served: Seq<RequestRecord>,
    failing: Seq<RequestRecord>,
    budget_ns: nat,
    penalty_ms: Binary64,
    q: Binary64,
)
    requires
        0 < served.len() <= usize::MAX,
        served.len() == failing.len(),
        budget_ns <= LONGEST,
        ns_to_ms(budget_ns).less(penalty_ms),
        forall|i: int|
            0 <= i < served.len() ==> {
                ||| (#[trigger] served[i]).scored(penalty_ms) == (
                #[trigger] failing[i]).scored(penalty_ms)
                ||| served[i].latency() matches Some(ns) && ns <= budget_ns
                    && served[i].outcome == Outcome::Success && failing[i].outcome
                    != Outcome::Success
            },
    ensures
        percentile_of(sorted_values(scores(served, penalty_ms)), q).less_or_equal(
            percentile_of(sorted_values(scores(failing, penalty_ms)), q),
        ),
        cvar_of(sorted_values(scores(served, penalty_ms)), q).less_or_equal(
            cvar_of(sorted_values(scores(failing, penalty_ms)), q),
        ),
        sorted_values(scores(served, penalty_ms))[served.len() - 1].less_or_equal(
            sorted_values(scores(failing, penalty_ms))[served.len() - 1],
        ),
        mean_of(sorted_values(scores(served, penalty_ms))).less_or_equal(
            mean_of(sorted_values(scores(failing, penalty_ms))),
        ),
{
    let a = scores(served, penalty_ms);
    let b = scores(failing, penalty_ms);
    lemma_ns_to_ms_monotone(budget_ns, budget_ns);
    lemma_size_ordered(0, ns_to_ms(budget_ns).magnitude());
    assert(size_of_magnitude(0) == 0);
    assert forall|i: int| 0 <= i < a.len() implies !(#[trigger] a[i]).nan() && a[i].units()
        >= 0 by {
        assert(a[i] == served[i].scored(penalty_ms));
        lemma_scored_latency(served[i], penalty_ms);
    }
    assert forall|i: int| 0 <= i < b.len() implies !(#[trigger] b[i]).nan() && b[i].units()
        >= 0 by {
        assert(b[i] == failing[i].scored(penalty_ms));
        lemma_scored_latency(failing[i], penalty_ms);
    }
    assert forall|i: int| 0 <= i < a.len() implies (#[trigger] a[i]).less_or_equal(
        #[trigger] b[i],
    ) by {
        assert(served[i].scored(penalty_ms) == a[i] && failing[i].scored(penalty_ms) == b[i]);
        if a[i] != b[i] {
            lemma_success_beats_failure(served[i], failing[i], budget_ns, penalty_ms);
        }
    }
    lemma_tail_at_most(a, b, q);
}

/// A score is a latency.
proof fn lemma_scored_latency(r: RequestRecord, penalty_ms: Binary64)
    requires
        !penalty_ms.nan(),
        penalty_ms.units() >= 0,
    ensures
        !r.scored(penalty_ms).nan(),
        r.scored(penalty_ms).units() >= 0,
{
    if let Some(ns) = r.latency() {
        lemma_ns_to_ms_monotone(ns, ns);
        lemma_size_ordered(0, ns_to_ms(ns).magnitude());
        assert(size_of_magnitude(0) == 0);
    }
}

/// A request that adds the penalty to the population.
pub open spec fn fails(r: RequestRecord) -> bool {
    r.outcome != Outcome::Success || r.latency() is None
}

/// How many of the requests add the penalty to the population.
pub open spec fn failures(records: Seq<RequestRecord>) -> nat
    decreases records.len(),
{
    if records.len() == 0 {
        0
    } else {
        failures(records.drop_last()) + if fails(records.last()) {
            1nat
        } else {
            0
        }
    }
}

/// The penalty exceeds what every other request scores.
pub open spec fn exceeds(penalty_ms: Binary64, records: Seq<RequestRecord>) -> bool {
    &&& !penalty_ms.nan()
    &&& forall|i: int|
        0 <= i < records.len() && !fails(#[trigger] records[i]) ==> records[i].scored(
            penalty_ms,
        ).less(penalty_ms)
}

/// The positions of those that do not fail.
spec fn successes(records: Seq<RequestRecord>) -> Set<int> {
    Set::new(|p: int| 0 <= p < records.len() && !fails(records[p]))
}

proof fn lemma_successes(records: Seq<RequestRecord>)
    ensures
        successes(records).finite(),
        successes(records).len() + failures(records) == records.len(),
    decreases records.len(),
{
    if records.len() == 0 {
        assert(successes(records) =~= Set::empty());
    } else {
        let rest = records.drop_last();
        let last = records.len() - 1;
        lemma_successes(rest);
        assert(!successes(rest).contains(last));
        if fails(records.last()) {
            assert(successes(records) =~= successes(rest));
        } else {
            assert(successes(records) =~= successes(rest).insert(last));
        }
    }
}

/// Where the order of the scores has its `k`th place.
proof fn lemma_place_of_failure(records: Seq<RequestRecord>, penalty_ms: Binary64, k: int)
    requires
        records.len() <= usize::MAX,
        exceeds(penalty_ms, records),
        0 <= k < records.len(),
    ensures
        ({
            let order = stable_order(order_keys(scores(records, penalty_ms)));
            &&& 0 <= order[k] < records.len()
            &&& fails(records[order[k] as int]) <==> k >= records.len() - failures(records)
        }),
{
    let values = scores(records, penalty_ms);
    let keys = order_keys(values);
    let order = stable_order(keys);
    let n = records.len();
    lemma_some_order(keys);
    lemma_order_complete(keys, order);
    lemma_successes(records);
    let at = order[k] as int;
    if fails(records[at]) {
        lemma_leading(keys, order, k);
        assert(successes(records).subset_of(leading(order, k))) by {
            assert forall|p: int| successes(records).contains(p) implies leading(
                order,
                k,
            ).contains(p) by {
                assert(named(order, p));
                let i = choose|i: int| 0 <= i < order.len() && #[trigger] order[i] == p;
                lemma_order_key(values[p], penalty_ms);
                if i > k {
                    assert(before(keys, order[k], order[i]));
                    assert(false);
                }
                assert(order[i] == p);
            }
        }
        vstd::set_lib::lemma_len_subset(successes(records), leading(order, k));
    } else {
        lemma_leading(keys, order, k + 1);
        assert(leading(order, k + 1).subset_of(successes(records))) by {
            assert forall|p: int| leading(order, k + 1).contains(p) implies successes(
                records,
            ).contains(p) by {
                let j = choose|j: int| 0 <= j < k + 1 && #[trigger] order[j] == p;
                lemma_order_key(values[at], penalty_ms);
                if fails(records[p]) {
                    assert(before(keys, order[j], order[k]));
                    assert(false);
                }
            }
        }
        vstd::set_lib::lemma_len_subset(leading(order, k + 1), successes(records));
    }
}

/// The failures are on top: the sorted population ends with one penalty for
/// each of them, and nothing below is a penalty.
pub proof fn lemma_failures_on_top(records: Seq<RequestRecord>, penalty_ms: Binary64, k: int)
    requires
        records.len() <= usize::MAX,
        exceeds(penalty_ms, records),
        0 <= k < records.len(),
    ensures
        ({
            let at = sorted_values(scores(records, penalty_ms))[k];
            if k >= records.len() - failures(records) {
                at == penalty_ms
            } else {
                at.less(penalty_ms)
            }
        }),
{
    let keys = order_keys(scores(records, penalty_ms));
    let order = stable_order(keys);
    lemma_some_order(keys);
    lemma_place_of_failure(records, penalty_ms, k);
    assert(exceeds(penalty_ms, records));
    assert(sorted_values(scores(records, penalty_ms))[k] == records[order[k] as int].scored(
        penalty_ms,
    ));
}

/// The order of the population does not depend on the penalty.
proof fn lemma_same_order(records: Seq<RequestRecord>, one: Binary64, other: Binary64)
    requires
        records.len() <= usize::MAX,
        exceeds(one, records),
        exceeds(other, records),
    ensures
        stable_order(order_keys(scores(records, one))) == stable_order(
            order_keys(scores(records, other)),
        ),
{
    let a = scores(records, one);
    let b = scores(records, other);
    let ka = order_keys(a);
    let kb = order_keys(b);
    let order = stable_order(ka);
    lemma_some_order(ka);
    assert(orders(kb, 0, kb.len() as int, order)) by {
        assert forall|i: int, j: int| 0 <= i < j < order.len() implies before(
            kb,
            #[trigger] order[i],
            #[trigger] order[j],
        ) by {
            let p = order[i] as int;
            let q = order[j] as int;
            assert(before(ka, order[i], order[j]));
            assert(a[p] == records[p].scored(one) && a[q] == records[q].scored(one));
            assert(b[p] == records[p].scored(other) && b[q] == records[q].scored(other));
            if !fails(records[p]) {
                lemma_order_key(b[p], other);
            }
            if !fails(records[q]) {
                lemma_order_key(a[q], one);
            }
        }
    }
    lemma_order_unique(kb, order);
}

/// Below its rank's share of failures a percentile does not depend on the
/// penalty at all; beyond it, the percentile is the penalty.
pub proof fn lemma_percentile_steps(
    records: Seq<RequestRecord>,
    one: Binary64,
    other: Binary64,
    q: Binary64,
)
    requires
        0 < records.len() <= usize::MAX,
        exceeds(one, records),
        exceeds(other, records),
    ensures
        rank_of(records.len(), q) + failures(records) <= records.len() ==> percentile_of(
            sorted_values(scores(records, one)),
            q,
        ) == percentile_of(sorted_values(scores(records, other)), q),
        rank_of(records.len(), q) + failures(records) > records.len() ==> percentile_of(
            sorted_values(scores(records, one)),
            q,
        ) == one,
{
    let k = rank_of(records.len(), q) - 1;
    lemma_some_order(order_keys(scores(records, one)));
    lemma_some_order(order_keys(scores(records, other)));
    lemma_same_order(records, one, other);
    lemma_place_of_failure(records, one, k);
    lemma_failures_on_top(records, one, k);
}

/// The tail that is averaged holds one penalty for each failure, as far as it
/// reaches; once it is full of them, its mean says nothing of the latencies.
pub proof fn lemma_tail_of_failures(
    records: Seq<RequestRecord>,
    penalty_ms: Binary64,
    q: Binary64,
)
    requires
        0 < records.len() <= usize::MAX,
        exceeds(penalty_ms, records),
        tail_size(records.len(), q) <= failures(records),
    ensures
        cvar_of(sorted_values(scores(records, penalty_ms)), q) == sum_of(
            Seq::new(tail_size(records.len(), q), |i: int| penalty_ms),
        ).over(whole(tail_size(records.len(), q))),
{
    let sorted = sorted_values(scores(records, penalty_ms));
    let n = records.len();
    let k = tail_size(n, q);
    lemma_some_order(order_keys(scores(records, penalty_ms)));
    let tail = sorted.subrange(n - k, n as int);
    assert(tail =~= Seq::new(k, |i: int| penalty_ms)) by {
        assert forall|i: int| 0 <= i < k implies #[trigger] tail[i] == penalty_ms by {
            lemma_failures_on_top(records, penalty_ms, n - k + i);
        }
    }
}

/// While the tail is not full of failures, each of them adds its full penalty
/// to the mean of the tail, and nothing else in the tail depends on the
/// penalty: the mean is that of the worst latencies and of one penalty for each
/// failure.
pub proof fn lemma_each_failure_counts(
    records: Seq<RequestRecord>,
    one: Binary64,
    other: Binary64,
    q: Binary64,
)
    requires
        0 < records.len() <= usize::MAX,
        exceeds(one, records),
        exceeds(other, records),
        failures(records) <= tail_size(records.len(), q),
    ensures
        ({
            let n = records.len();
            let k = tail_size(n, q);
            let f = failures(records);
            let s = sorted_values(scores(records, one));
            let t = sorted_values(scores(records, other));
            &&& cvar_of(s, q) == sum_of(
                s.subrange(n - k, n - f) + Seq::new(f, |i: int| one),
            ).over(whole(k))
            &&& s.subrange(n - k, n - f) == t.subrange(n - k, n - f)
            &&& forall|i: int|
                0 <= i < k - f ==> (#[trigger] s.subrange(n - k, n - f)[i]).less(one)
        }),
{
    let n = records.len();
    let k = tail_size(n, q);
    let f = failures(records);
    let s = sorted_values(scores(records, one));
    let t = sorted_values(scores(records, other));
    lemma_successes(records);
    lemma_some_order(order_keys(scores(records, one)));
    lemma_some_order(order_keys(scores(records, other)));
    lemma_same_order(records, one, other);
    let below = s.subrange(n - k, n - f);
    let whole_tail = s.subrange(n - k, n as int);
    assert(whole_tail =~= below + Seq::new(f, |i: int| one)) by {
        assert forall|i: int| 0 <= i < k implies #[trigger] whole_tail[i] == (below + Seq::new(
            f,
            |i: int| one,
        ))[i] by {
            lemma_failures_on_top(records, one, n - k + i);
        }
    }
    assert(below =~= t.subrange(n - k, n - f)) by {
        assert forall|i: int| 0 <= i < k - f implies #[trigger] below[i] == t.subrange(
            n - k,
            n - f,
        )[i] by {
            lemma_place_of_failure(records, one, n - k + i);
        }
    }
    assert forall|i: int| 0 <= i < k - f implies (#[trigger] below[i]).less(one) by {
        lemma_failures_on_top(records, one, n - k + i);
    }
}

/// With at most one request in a hundred failing, the 99th percentile does not
/// depend on the penalty.
pub proof fn lemma_p99_below_one_percent(
    records: Seq<RequestRecord>,
    one: Binary64,
    other: Binary64,
)
    requires
        0 < records.len() <= 0x800_0000_0000,
        records.len() <= usize::MAX,
        exceeds(one, records),
        exceeds(other, records),
        100 * failures(records) <= records.len(),
    ensures
        percentile_of(sorted_values(scores(records, one)), Binary64 { bits: Q99 })
            == percentile_of(sorted_values(scores(records, other)), Binary64 { bits: Q99 }),
{
    lemma_nearest_ranks(records.len());
    lemma_percentile_steps(records, one, other, Binary64 { bits: Q99 });
}

/// With more than one request in a hundred failing, the 99th percentile is the
/// penalty.
pub proof fn lemma_p99_above_one_percent(records: Seq<RequestRecord>, penalty_ms: Binary64)
    requires
        0 < records.len() <= 0x800_0000_0000,
        records.len() <= usize::MAX,
        exceeds(penalty_ms, records),
        100 * failures(records) > records.len(),
    ensures
        percentile_of(sorted_values(scores(records, penalty_ms)), Binary64 { bits: Q99 })
            == penalty_ms,
{
    lemma_nearest_ranks(records.len());
    lemma_percentile_steps(records, penalty_ms, penalty_ms, Binary64 { bits: Q99 });
}

/// With at most one request in a hundred failing, each failure adds its full
/// penalty to the headline, beside latencies that do not depend on it.
pub proof fn lemma_cvar_below_one_percent(
    records: Seq<RequestRecord>,
    one: Binary64,
    other: Binary64,
)
    requires
        0 < records.len() < 117_964_900,
        exceeds(one, records),
        exceeds(other, records),
        100 * failures(records) <= records.len(),
    ensures
        ({
            let n = records.len();
            let k = (n + 99) / 100;
            let f = failures(records);
            let s = sorted_values(scores(records, one));
            let t = sorted_values(scores(records, other));
            &&& cvar_of(s, Binary64 { bits: Q99 }) == sum_of(
                s.subrange(n - k, n - f) + Seq::new(f, |i: int| one),
            ).over(whole(k))
            &&& s.subrange(n - k, n - f) == t.subrange(n - k, n - f)
        }),
{
    lemma_tail_sizes(records.len());
    lemma_each_failure_counts(records, one, other, Binary64 { bits: Q99 });
}

/// With at least one request in a hundred failing, the headline is a mean of
/// penalties: it says nothing of the latencies.
pub proof fn lemma_cvar_above_one_percent(records: Seq<RequestRecord>, penalty_ms: Binary64)
    requires
        0 < records.len() < 117_964_900,
        exceeds(penalty_ms, records),
        100 * failures(records) >= records.len(),
    ensures
        cvar_of(sorted_values(scores(records, penalty_ms)), Binary64 { bits: Q99 }) == sum_of(
            Seq::new((records.len() + 99) / 100, |i: int| penalty_ms),
        ).over(whole((records.len() + 99) / 100)),
{
    lemma_tail_sizes(records.len());
    lemma_tail_of_failures(records, penalty_ms, Binary64 { bits: Q99 });
}

/// A higher penalty never lowers the headline or a percentile, nor the maximum
/// or the mean.
pub proof fn lemma_penalty_never_helps(
    records: Seq<RequestRecord>,
    lower: Binary64,
    higher: Binary64,
    q: Binary64,
)
    requires
        0 < records.len() <= usize::MAX,
        zero().less_or_equal(lower),
        lower.less_or_equal(higher),
    ensures
        percentile_of(sorted_values(scores(records, lower)), q).less_or_equal(
            percentile_of(sorted_values(scores(records, higher)), q),
        ),
        cvar_of(sorted_values(scores(records, lower)), q).less_or_equal(
            cvar_of(sorted_values(scores(records, higher)), q),
        ),
        sorted_values(scores(records, lower))[records.len() - 1].less_or_equal(
            sorted_values(scores(records, higher))[records.len() - 1],
        ),
        mean_of(sorted_values(scores(records, lower))).less_or_equal(
            mean_of(sorted_values(scores(records, higher))),
        ),
{
    let a = scores(records, lower);
    let b = scores(records, higher);
    assert(size_of_magnitude(0) == 0);
    assert forall|i: int| 0 <= i < a.len() implies !(#[trigger] a[i]).nan() && a[i].units()
        >= 0 by {
        assert(a[i] == records[i].scored(lower));
        lemma_scored_latency(records[i], lower);
    }
    assert forall|i: int| 0 <= i < b.len() implies !(#[trigger] b[i]).nan() && b[i].units()
        >= 0 by {
        assert(b[i] == records[i].scored(higher));
        lemma_scored_latency(records[i], higher);
    }
    assert forall|i: int| 0 <= i < a.len() implies (#[trigger] a[i]).less_or_equal(
        #[trigger] b[i],
    ) by {
        assert(a[i] == records[i].scored(lower) && b[i] == records[i].scored(higher));
        lemma_scored_latency(records[i], lower);
    }
    lemma_tail_at_most(a, b, q);
}

} // verus!
