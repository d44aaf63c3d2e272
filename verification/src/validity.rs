//! What validation accepts, in numbers.
//!
//! A configuration is accepted if and only if every rule holds. The weights are
//! added up with rounding; what is asked of their exact sum comes to the same,
//! up to what the additions round away.

use vstd::arithmetic::div_mod::lemma_fundamental_div_mod_converse;
use vstd::arithmetic::power2::lemma2_to64;
use vstd::arithmetic::power2::lemma_pow2_adds;
use vstd::arithmetic::power2::pow2;
use vstd::prelude::*;

use crate::arithmetic::distance;
use crate::arithmetic::lemma_signed;
use crate::arithmetic::one;
use crate::binary64::lemma_size_ordered;
use crate::binary64::size_of_magnitude;
use crate::binary64::unity;
use crate::binary64::Binary64;
use crate::binary64::HALF;
use crate::binary64::HIDDEN;
use crate::binary64::INFINITY;
use crate::binary64::ONE;
use crate::binary64::TWO;
use crate::config::class_fault;
use crate::config::class_fault_from;
use crate::config::declared;
use crate::config::downstream_fault;
use crate::config::downstream_fault_from;
use crate::config::named;
use crate::config::undeclared_from;
use crate::config::weight_of_first;
use crate::config::Arrival;
use crate::config::Config;
use crate::config::ConfigError;
use crate::config::DownstreamCfg;
use crate::config::RequestClassCfg;
use crate::config::TOLERANCE;
use crate::distributions::Distribution;
use crate::order::lemma_plus_grows;
use crate::order::lemma_plus_units;
use crate::order::lemma_rounded_zero;
use crate::order::lemma_settled_exact;
use crate::order::lemma_settled_monotone;
use crate::order::settled;
use crate::precision::lemma_rounded_not_far_down;
use crate::precision::lemma_rounded_not_far_up;
use crate::ranks::lemma_scales;
use crate::ranks::lemma_settled_short;
use crate::ranks::lemma_unity;
use crate::rounding::lemma_powers;

verus! {

/// The weights of the first `n` classes, added up without rounding.
pub open spec fn exact_weight(classes: Seq<RequestClassCfg>, n: nat) -> int
    decreases n,
{
    if n == 0 {
        0
    } else {
        exact_weight(classes, (n - 1) as nat) + classes[n - 1].weight.units()
    }
}

/// How much `n` additions of weights may round away, in units: 2^-51 each.
pub open spec fn rounded_away(n: nat) -> int {
    4 * (n * pow2(1021)) as int
}

/// The weights are finite and above zero.
pub open spec fn weighted(classes: Seq<RequestClassCfg>) -> bool {
    forall|i: int| 0 <= i < classes.len() ==> (#[trigger] classes[i]).weight.positive()
}

/// 2 is twice 1.
pub proof fn lemma_two()
    ensures
        size_of_magnitude(TWO as nat) == 2 * one(),
        (Binary64 { bits: TWO }).units() == 2 * one(),
{
    lemma_powers();
    lemma_fundamental_div_mod_converse(TWO as int, HIDDEN as int, 0x400, 0);
    lemma_pow2_adds(52, 1023);
    lemma_pow2_adds(1, 1074);
}

/// Below 2, rounding moves a number by less than 2^-51.
proof fn lemma_settled_close(x: int)
    requires
        0 <= x,
        x < 2 * one() || settled(x) < 2 * one(),
    ensures
        x < 2 * one(),
        settled(x) <= 2 * one(),
        -4 * pow2(1021) <= settled(x) - x <= 4 * pow2(1021),
{
    let two = Binary64 { bits: TWO };
    lemma_two();
    lemma_scales();
    lemma_settled_exact(two);
    if x >= 2 * one() {
        lemma_settled_monotone(2 * one() as int, x);
    }
    lemma_settled_monotone(x, 2 * one() as int);
    let n = x as nat;
    lemma_rounded_not_far_up(n, 1);
    lemma_size_ordered(crate::rounding::rounded(n, 1), TWO as nat);
    lemma_rounded_not_far_down(n, 1);
}

/// The weights of the first classes, added up, are near their exact sum as long
/// as they stay below 2.
pub proof fn lemma_weights_close(classes: Seq<RequestClassCfg>, n: nat)
    requires
        weighted(classes),
        n <= classes.len(),
        weight_of_first(classes, n).less(Binary64 { bits: TWO }) || exact_weight(classes, n)
            + rounded_away(n) < 2 * one(),
    ensures
        weight_of_first(classes, n).finite(),
        weight_of_first(classes, n).units() >= 0,
        exact_weight(classes, n) >= 0,
        -rounded_away(n) <= weight_of_first(classes, n).units() - exact_weight(classes, n)
            <= rounded_away(n),
    decreases n,
{
    lemma_two();
    lemma_scales();
    assert(size_of_magnitude(0) == 0);
    let t = weight_of_first(classes, n);
    if n == 0 {
        assert(rounded_away(0) == 0) by {
            assert(0 * pow2(1021) == 0) by (nonlinear_arith);
        }
    } else {
        let k = (n - 1) as nat;
        let before = weight_of_first(classes, k);
        let w = classes[n - 1].weight;
        assert(w.positive());
        assert(rounded_away(n) == rounded_away(k) + 4 * pow2(1021)) by {
            assert(n * pow2(1021) == k * pow2(1021) + pow2(1021)) by (nonlinear_arith)
                requires
                    n == k + 1,
            ;
        }
        if t.less(Binary64 { bits: TWO }) {
            lemma_sum_before(classes, k);
            if before.finite() {
                lemma_plus_grows(before, w);
            }
        }
        lemma_weights_close(classes, k);
        lemma_plus_units(before, w);
        let x = before.units() + w.units();
        lemma_settled_close(x);
        lemma_size_ordered(t.magnitude(), TWO as nat);
        lemma_settled_monotone(0, x);
        lemma_rounded_zero(1);
    }
}

/// A sum of weights is a number, and not below zero.
pub proof fn lemma_sum_before(classes: Seq<RequestClassCfg>, n: nat)
    requires
        weighted(classes),
        n <= classes.len(),
    ensures
        !weight_of_first(classes, n).nan(),
        weight_of_first(classes, n).units() >= 0,
        weight_of_first(classes, n).finite() || weight_of_first(classes, n) == (Binary64 {
            bits: INFINITY,
        }),
    decreases n,
{
    assert(size_of_magnitude(0) == 0);
    if n > 0 {
        let k = (n - 1) as nat;
        lemma_sum_before(classes, k);
        let before = weight_of_first(classes, k);
        let w = classes[n - 1].weight;
        assert(w.positive());
        lemma_size_ordered(0, INFINITY as nat);
        if before.finite() {
            lemma_plus_units(before, w);
            let x = before.units() + w.units();
            lemma_settled_monotone(0, x);
            lemma_rounded_zero(1);
            lemma_signed(false, crate::rounding::rounded(distance(x), 1));
        }
    }
}

/// The tolerance, and what lies between 1/2 and 2 as a multiple of 2^-53.
proof fn lemma_scale_of_tolerance()
    ensures
        (Binary64 { bits: TOLERANCE }).units() == 0x11_2E0B_E826_D695 * pow2(992),
        pow2(1021) == 0x2000_0000 * pow2(992),
        pow2(992) > 0,
        (Binary64 { bits: HALF }).units() * 2 == one(),
{
    lemma_powers();
    lemma2_to64();
    lemma_scales();
    lemma_pow2_adds(29, 992);
    lemma_pow2_adds(52, 1021);
    lemma_pow2_adds(1, 1073);
    lemma_fundamental_div_mod_converse(TOLERANCE as int, HIDDEN as int, 0x3E1, 0x1_2E0B_E826_D695);
    lemma_fundamental_div_mod_converse(HALF as int, HIDDEN as int, 0x3FE, 0);
}

/// Numbers from 1/2 up to 2 are multiples of 2^-53.
proof fn lemma_multiple(x: Binary64) -> (k: nat)
    requires
        !x.negative(),
        HALF <= x.magnitude() < TWO,
    ensures
        x.units() == k * pow2(1021),
        k < 0x40_0000_0000_0000,
{
    lemma_powers();
    let f = x.magnitude() % (HIDDEN as nat);
    if x.magnitude() < ONE {
        assert(x.magnitude() / (HIDDEN as nat) == 1022);
        HIDDEN as nat + f
    } else {
        assert(x.magnitude() / (HIDDEN as nat) == 1023);
        lemma_pow2_adds(1, 1021);
        let a = HIDDEN as nat + f;
        assert(a * (2 * pow2(1021)) == (2 * a) * pow2(1021)) by (nonlinear_arith);
        2 * a
    }
}

/// A sum is told from 1 where it is off by more than a billionth, on either
/// side.
proof fn lemma_tolerance(total: Binary64)
    requires
        !total.nan(),
        total.units() >= 0,
    ensures
        (Binary64 { bits: TOLERANCE }).less(total.minus(unity()).absolute()) <==> 1_000_000_000
            * distance(total.units() - one()) > one(),
{
    let o = one();
    let t = Binary64 { bits: TOLERANCE };
    let d = total.units() - o;
    let gap = total.minus(unity());
    let q = pow2(992);
    let c = pow2(1021);
    lemma_unity();
    lemma_two();
    lemma_scales();
    lemma_scale_of_tolerance();
    assert(size_of_magnitude(0) == 0);
    lemma_signed(true, ONE as nat);
    lemma_signed(false, gap.magnitude());
    lemma_size_ordered(total.magnitude(), INFINITY as nat);
    lemma_size_ordered(TWO as nat, INFINITY as nat);
    if total.finite() {
        lemma_plus_units(total, unity().opposite());
        assert(gap.absolute().units() == distance(settled(d)));
        lemma_settled_exact(t);
        lemma_settled_exact(Binary64 { bits: (TOLERANCE + crate::binary64::SIGN) as u64 });
        lemma_size_ordered(total.magnitude(), HALF as nat);
        lemma_size_ordered(total.magnitude(), TWO as nat);
        lemma_signed(true, TOLERANCE as nat);
        if total.size() < (Binary64 { bits: HALF }).size() {
            lemma_settled_monotone(d, -t.units());
            lemma_far_below(d, t);
        } else if total.size() >= 2 * o {
            lemma_settled_exact(unity());
            lemma_settled_monotone(o as int, d);
        } else {
            lemma_size_ordered(0, total.magnitude());
            let k = lemma_multiple(total);
            let j = k - 0x20_0000_0000_0000;
            assert(d == j * c) by (nonlinear_arith)
                requires
                    d == k * c - o,
                    o == 0x20_0000_0000_0000 * c,
                    j == k - 0x20_0000_0000_0000,
            ;
            if j >= 0 {
                lemma_settled_short(j as nat, 1021);
            } else {
                lemma_settled_short((-j) as nat, 1021);
                assert((-j) * c == -(j * c)) by (nonlinear_arith);
            }
            lemma_steps(j, c, q, o);
        }
    }
}

proof fn lemma_far_below(d: int, t: Binary64)
    requires
        2 * d <= -(one() as int),
        t == (Binary64 { bits: TOLERANCE }),
    ensures
        settled(d) < -t.units(),
{
    lemma_scales();
    lemma_scale_of_tolerance();
    let h = 0x10_0000_0000_0000nat;
    lemma_settled_short(h, 1021);
    lemma_settled_monotone(d, -((h * pow2(1021)) as int));
}

/// How many steps of 2^-53 make a billionth.
proof fn lemma_steps(j: int, c: nat, q: nat, o: nat)
    requires
        o == 0x20_0000_0000_0000 * c,
        c == 0x2000_0000 * q,
        q > 0,
    ensures
        distance(j * c) > 0x11_2E0B_E826_D695 * q <==> 1_000_000_000 * distance(j * c) > o,
{
    let m = distance(j);
    assert(distance(j * c) == m * c) by (nonlinear_arith)
        requires
            m == distance(j),
            c > 0,
    ;
    if m <= 9_007_199 {
        assert(m * c <= 9_007_199 * c) by (nonlinear_arith)
            requires
                m <= 9_007_199,
        ;
    } else {
        assert(m * c >= 9_007_200 * c) by (nonlinear_arith)
            requires
                m >= 9_007_200,
        ;
    }
}

/// What is asked of a distribution: latencies are finite and not below zero,
/// bounds are in order, shares lie between 0 and 1, and the mean is finite.
pub open spec fn fit(d: Distribution) -> bool {
    match d {
        Distribution::Constant { ms } => ms.finite() && ms.units() >= 0,
        Distribution::Uniform { min_ms, max_ms } => {
            &&& min_ms.finite() && max_ms.finite()
            &&& 0 <= min_ms.units() <= max_ms.units()
        },
        Distribution::LogNormal { median_ms, sigma } => {
            &&& median_ms.finite() && sigma.finite()
            &&& median_ms.units() > 0 && sigma.units() > 0
        },
        Distribution::Bimodal { fast_ms, slow_ms, p_slow } => {
            &&& fast_ms.finite() && slow_ms.finite() && p_slow.finite()
            &&& 0 <= fast_ms.units() <= slow_ms.units()
            &&& 0 <= p_slow.units() <= one()
        },
        Distribution::Pareto { scale_ms, alpha } => {
            &&& scale_ms.finite() && alpha.finite()
            &&& scale_ms.units() > 0 && alpha.units() > one()
        },
        Distribution::Empirical { samples_ms } => {
            &&& samples_ms.len() > 0
            &&& forall|i: int|
                0 <= i < samples_ms.len() ==> (#[trigger] samples_ms[i]).finite()
                    && samples_ms[i].units() >= 0
        },
    }
}

proof fn lemma_samples_fine(samples: Seq<Binary64>, i: int)
    requires
        0 <= i <= samples.len(),
    ensures
        crate::distributions::first_bad(samples, i) is None <==> forall|k: int|
            i <= k < samples.len() ==> (#[trigger] samples[k]).finite() && samples[k].units() >= 0,
    decreases samples.len() - i,
{
    if i < samples.len() {
        lemma_samples_fine(samples, i + 1);
    }
}

/// A distribution is accepted if and only if its parameters are fit.
pub proof fn lemma_distribution_accepted(d: Distribution)
    ensures
        d.fault() is None <==> fit(d),
{
    lemma_unity();
    assert(size_of_magnitude(0) == 0);
    match d {
        Distribution::Empirical { samples_ms } => {
            lemma_samples_fine(samples_ms@, 0);
        },
        Distribution::Bimodal { fast_ms, slow_ms, p_slow } => {
            lemma_size_ordered(p_slow.magnitude(), INFINITY as nat);
            lemma_size_ordered(ONE as nat, INFINITY as nat);
            lemma_size_ordered(0, INFINITY as nat);
        },
        _ => {},
    }
}

/// What is asked of the downstreams: no two share an id, and each has room, a
/// timeout and a fit distribution.
pub open spec fn downstreams_fit(downstreams: Seq<DownstreamCfg>) -> bool {
    &&& downstreams.len() > 0
    &&& forall|i: int, j: int|
        0 <= i < j < downstreams.len() ==> (#[trigger] downstreams[i]).id@ != (
        #[trigger] downstreams[j]).id@
    &&& forall|i: int|
        0 <= i < downstreams.len() ==> {
            &&& (#[trigger] downstreams[i]).capacity > 0
            &&& downstreams[i].timeout_ms.finite()
            &&& downstreams[i].timeout_ms.units() > 0
            &&& fit(downstreams[i].distribution)
        }
}

/// A downstream has this id.
pub open spec fn known(downstreams: Seq<DownstreamCfg>, id: Seq<char>) -> bool {
    exists|j: int| 0 <= j < downstreams.len() && (#[trigger] downstreams[j]).id@ == id
}

/// What is asked of the request classes: no two share a name, and each has a
/// weight and something to call, all of it at known downstreams.
pub open spec fn classes_fit(
    downstreams: Seq<DownstreamCfg>,
    classes: Seq<RequestClassCfg>,
) -> bool {
    &&& classes.len() > 0
    &&& forall|i: int, j: int|
        0 <= i < j < classes.len() ==> (#[trigger] classes[i]).name@ != (
        #[trigger] classes[j]).name@
    &&& forall|i: int|
        0 <= i < classes.len() ==> {
            &&& (#[trigger] classes[i]).weight.finite()
            &&& classes[i].weight.units() > 0
            &&& classes[i].requires.len() > 0
            &&& forall|k: int|
                0 <= k < classes[i].requires.len() ==> known(
                    downstreams,
                    (#[trigger] classes[i].requires[k])@,
                )
        }
}

proof fn lemma_downstreams_accepted(downstreams: Seq<DownstreamCfg>, i: int)
    requires
        0 <= i <= downstreams.len(),
    ensures
        downstream_fault_from(downstreams, i) is None <==> forall|k: int|
            i <= k < downstreams.len() ==> #[trigger] downstream_fault(downstreams, k) is None,
    decreases downstreams.len() - i,
{
    if i < downstreams.len() {
        lemma_downstreams_accepted(downstreams, i + 1);
    }
}

proof fn lemma_classes_accepted(
    downstreams: Seq<DownstreamCfg>,
    classes: Seq<RequestClassCfg>,
    i: int,
)
    requires
        0 <= i <= classes.len(),
    ensures
        class_fault_from(downstreams, classes, i) is None <==> forall|k: int|
            i <= k < classes.len() ==> #[trigger] class_fault(downstreams, classes, k) is None,
    decreases classes.len() - i,
{
    if i < classes.len() {
        lemma_classes_accepted(downstreams, classes, i + 1);
    }
}

proof fn lemma_requirements_accepted(
    downstreams: Seq<DownstreamCfg>,
    required: Seq<String>,
    i: int,
)
    requires
        0 <= i <= required.len(),
    ensures
        undeclared_from(downstreams, required, i) is None <==> forall|k: int|
            i <= k < required.len() ==> known(downstreams, (#[trigger] required[k])@),
    decreases required.len() - i,
{
    if i < required.len() {
        lemma_requirements_accepted(downstreams, required, i + 1);
        assert(declared(downstreams, downstreams.len() as int, required[i]@) <==> known(
            downstreams,
            required[i]@,
        ));
    }
}

proof fn lemma_downstreams_mean(downstreams: Seq<DownstreamCfg>)
    requires
        downstreams.len() > 0,
    ensures
        downstream_fault_from(downstreams, 0) is None <==> downstreams_fit(downstreams),
{
    lemma_downstreams_accepted(downstreams, 0);
    if downstream_fault_from(downstreams, 0) is None {
        assert forall|i: int, j: int| 0 <= i < j < downstreams.len() implies (
        #[trigger] downstreams[i]).id@ != (#[trigger] downstreams[j]).id@ by {
            assert(downstream_fault(downstreams, j) is None);
            assert(!declared(downstreams, j, downstreams[j].id@));
        }
        assert forall|i: int| 0 <= i < downstreams.len() implies {
            &&& (#[trigger] downstreams[i]).capacity > 0
            &&& downstreams[i].timeout_ms.finite()
            &&& downstreams[i].timeout_ms.units() > 0
            &&& fit(downstreams[i].distribution)
        } by {
            assert(downstream_fault(downstreams, i) is None);
            lemma_distribution_accepted(downstreams[i].distribution);
        }
    }
    if downstreams_fit(downstreams) {
        assert forall|k: int| 0 <= k < downstreams.len() implies #[trigger] downstream_fault(
            downstreams,
            k,
        ) is None by {
            lemma_distribution_accepted(downstreams[k].distribution);
            assert(downstreams[k].capacity > 0);
            if declared(downstreams, k, downstreams[k].id@) {
                let j = choose|j: int|
                    0 <= j < k && (#[trigger] downstreams[j]).id@ == downstreams[k].id@;
                assert(downstreams[j].id@ != downstreams[k].id@);
            }
        }
    }
}

proof fn lemma_classes_mean(downstreams: Seq<DownstreamCfg>, classes: Seq<RequestClassCfg>)
    requires
        classes.len() > 0,
    ensures
        class_fault_from(downstreams, classes, 0) is None <==> classes_fit(downstreams, classes),
{
    lemma_classes_accepted(downstreams, classes, 0);
    if class_fault_from(downstreams, classes, 0) is None {
        assert forall|i: int, j: int| 0 <= i < j < classes.len() implies (
        #[trigger] classes[i]).name@ != (#[trigger] classes[j]).name@ by {
            assert(class_fault(downstreams, classes, j) is None);
            assert(!named(classes, j, classes[j].name@));
        }
        assert forall|i: int| 0 <= i < classes.len() implies {
            &&& (#[trigger] classes[i]).weight.finite()
            &&& classes[i].weight.units() > 0
            &&& classes[i].requires.len() > 0
            &&& forall|k: int|
                0 <= k < classes[i].requires.len() ==> known(
                    downstreams,
                    (#[trigger] classes[i].requires[k])@,
                )
        } by {
            assert(class_fault(downstreams, classes, i) is None);
            lemma_requirements_accepted(downstreams, classes[i].requires@, 0);
        }
    }
    if classes_fit(downstreams, classes) {
        assert forall|k: int| 0 <= k < classes.len() implies #[trigger] class_fault(
            downstreams,
            classes,
            k,
        ) is None by {
            lemma_requirements_accepted(downstreams, classes[k].requires@, 0);
            assert(classes[k].weight.finite());
            assert forall|m: int| 0 <= m < classes[k].requires@.len() implies known(
                downstreams,
                (#[trigger] classes[k].requires@[m])@,
            ) by {
                assert(known(downstreams, classes[k].requires[m]@));
            }
            if named(classes, k, classes[k].name@) {
                let j = choose|j: int| 0 <= j < k && (#[trigger] classes[j]).name@
                    == classes[k].name@;
                assert(classes[j].name@ != classes[k].name@);
            }
        }
    }
}

/// A configuration is accepted if and only if it keeps every rule: the run
/// outlasts the warmup, requests come at a rate, bursts are burstier than
/// chance, the penalty exceeds the budget, downstreams and classes are fit, and
/// the weights come to 1, up to a billionth on either side.
pub proof fn lemma_accepted(c: Config)
    ensures
        c.valid() <==> {
            &&& c.scenario.duration_s.finite() && c.scenario.warmup_s.finite()
            &&& 0 <= c.scenario.warmup_s.units() < c.scenario.duration_s.units()
            &&& c.load.target_utilization is None
            &&& c.load.rate_rps.finite() && c.load.rate_rps.units() > 0
            &&& c.load.arrival == Arrival::Bursty ==> (c.load.burstiness_cv matches Some(cv)
                && cv.finite() && cv.units() > one())
            &&& c.slo.budget_ms.finite() && c.slo.penalty().finite()
            &&& 0 < c.slo.budget_ms.units() < c.slo.penalty().units()
            &&& downstreams_fit(c.downstreams@)
            &&& classes_fit(c.downstreams@, c.request_classes@)
            &&& 1_000_000_000 * distance(
                weight_of_first(c.request_classes@, c.request_classes.len() as nat).units()
                    - one(),
            ) <= one()
        },
{
    lemma_unity();
    let classes = c.request_classes@;
    let total = weight_of_first(classes, classes.len());
    if c.downstreams.len() > 0 {
        lemma_downstreams_mean(c.downstreams@);
    }
    if classes.len() > 0 {
        lemma_classes_mean(c.downstreams@, classes);
        if classes_fit(c.downstreams@, classes) {
            lemma_sum_before(classes, classes.len());
            lemma_tolerance(total);
        }
    }
}

/// Under a valid configuration the exact sum of the weights is 1, up to a
/// billionth on either side and what the additions round away.
pub proof fn lemma_valid_weights(c: Config)
    requires
        c.valid(),
    ensures
        1_000_000_000 * distance(
            exact_weight(c.request_classes@, c.request_classes.len() as nat) - one(),
        ) <= one() + 1_000_000_000 * rounded_away(c.request_classes.len() as nat),
{
    let classes = c.request_classes@;
    let n = classes.len();
    let total = weight_of_first(classes, n);
    lemma_accepted(c);
    assert(weighted(classes));
    lemma_sum_before(classes, n);
    lemma_two();
    lemma_unity();
    lemma_size_ordered(total.magnitude(), TWO as nat);
    lemma_weights_close(classes, n);
}

/// Weights whose exact sum is further than that from 1 are rejected, whichever
/// side they are on.
pub proof fn lemma_wrong_weights_rejected(c: Config)
    requires
        1_000_000_000 * distance(
            exact_weight(c.request_classes@, c.request_classes.len() as nat) - one(),
        ) > one() + 1_000_000_000 * rounded_away(c.request_classes.len() as nat),
    ensures
        !c.valid(),
{
    if c.valid() {
        lemma_valid_weights(c);
    }
}

/// A downstream gave rise to this rejection, with these values.
pub open spec fn downstream_rejected(
    downstreams: Seq<DownstreamCfg>,
    i: int,
    error: ConfigError,
) -> bool {
    &&& 0 <= i < downstreams.len()
    &&& match error {
        ConfigError::DuplicateDownstream { id } => id == downstreams[i].id && exists|j: int|
            0 <= j < i && (#[trigger] downstreams[j]).id@ == id@,
        ConfigError::Capacity { id, capacity } => id == downstreams[i].id && capacity
            == downstreams[i].capacity && capacity == 0,
        ConfigError::Timeout { id, timeout_ms } => id == downstreams[i].id && timeout_ms
            == downstreams[i].timeout_ms && !(timeout_ms.finite() && timeout_ms.units() > 0),
        ConfigError::Distribution { id, error: e } => id == downstreams[i].id && Some(e)
            == downstreams[i].distribution.fault() && !fit(downstreams[i].distribution),
        _ => false,
    }
}

/// A class gave rise to this rejection, with these values.
pub open spec fn class_rejected(
    downstreams: Seq<DownstreamCfg>,
    classes: Seq<RequestClassCfg>,
    i: int,
    error: ConfigError,
) -> bool {
    &&& 0 <= i < classes.len()
    &&& match error {
        ConfigError::DuplicateClass { name } => name == classes[i].name && exists|j: int|
            0 <= j < i && (#[trigger] classes[j]).name@ == name@,
        ConfigError::Weight { name, weight } => name == classes[i].name && weight
            == classes[i].weight && !(weight.finite() && weight.units() > 0),
        ConfigError::NothingRequired { name } => name == classes[i].name
            && classes[i].requires.len() == 0,
        ConfigError::Undeclared { name, downstream } => name == classes[i].name
            && classes[i].requires@.contains(downstream) && !known(downstreams, downstream@),
        _ => false,
    }
}

/// The rejection names the value of `c` that breaks a rule, and which rule that
/// is.
pub open spec fn names_the_fault(c: Config, error: ConfigError) -> bool {
    match error {
        ConfigError::Duration { duration_s } => duration_s == c.scenario.duration_s && !(
        duration_s.finite() && duration_s.units() > 0),
        ConfigError::Warmup { warmup_s } => warmup_s == c.scenario.warmup_s && !(warmup_s.finite()
            && warmup_s.units() >= 0),
        ConfigError::WarmupNotBelowDuration { warmup_s, duration_s } => warmup_s
            == c.scenario.warmup_s && duration_s == c.scenario.duration_s && warmup_s.units()
            >= duration_s.units(),
        ConfigError::TargetUtilization { target_utilization } => c.load.target_utilization == Some(
            target_utilization,
        ),
        ConfigError::Rate { rate_rps } => rate_rps == c.load.rate_rps && !(rate_rps.finite()
            && rate_rps.units() > 0),
        ConfigError::BurstinessMissing => c.load.arrival == Arrival::Bursty
            && c.load.burstiness_cv is None,
        ConfigError::Burstiness { cv } => c.load.arrival == Arrival::Bursty
            && c.load.burstiness_cv == Some(cv) && !(cv.finite() && cv.units() > one()),
        ConfigError::Budget { budget_ms } => budget_ms == c.slo.budget_ms && !(budget_ms.finite()
            && budget_ms.units() > 0),
        ConfigError::Penalty { penalty_ms, budget_ms } => penalty_ms == c.slo.penalty()
            && budget_ms == c.slo.budget_ms && !(penalty_ms.finite() && penalty_ms.units()
            > budget_ms.units()),
        ConfigError::NoDownstream => c.downstreams.len() == 0,
        ConfigError::NoRequestClass => c.request_classes.len() == 0,
        ConfigError::Weights { total } => total == weight_of_first(
            c.request_classes@,
            c.request_classes.len() as nat,
        ) && 1_000_000_000 * distance(total.units() - one()) > one(),
        ConfigError::DuplicateDownstream { .. }
        | ConfigError::Capacity { .. }
        | ConfigError::Timeout { .. }
        | ConfigError::Distribution { .. } => exists|i: int|
            #[trigger] downstream_rejected(c.downstreams@, i, error),
        _ => exists|i: int|
            #[trigger] class_rejected(c.downstreams@, c.request_classes@, i, error),
    }
}

proof fn lemma_downstream_named(downstreams: Seq<DownstreamCfg>, i: int)
    requires
        0 <= i <= downstreams.len(),
        downstream_fault_from(downstreams, i) is Some,
    ensures
        exists|k: int|
            #[trigger] downstream_rejected(
                downstreams,
                k,
                downstream_fault_from(downstreams, i)->0,
            ),
    decreases downstreams.len() - i,
{
    match downstream_fault(downstreams, i) {
        Some(e) => {
            lemma_distribution_accepted(downstreams[i].distribution);
            assert(downstream_rejected(downstreams, i, e));
        },
        None => {
            lemma_downstream_named(downstreams, i + 1);
        },
    }
}

proof fn lemma_requirement_named(downstreams: Seq<DownstreamCfg>, required: Seq<String>, i: int)
    requires
        0 <= i <= required.len(),
        undeclared_from(downstreams, required, i) is Some,
    ensures
        required.contains(undeclared_from(downstreams, required, i)->0),
        !known(downstreams, undeclared_from(downstreams, required, i)->0@),
    decreases required.len() - i,
{
    assert(declared(downstreams, downstreams.len() as int, required[i]@) <==> known(
        downstreams,
        required[i]@,
    ));
    if declared(downstreams, downstreams.len() as int, required[i]@) {
        lemma_requirement_named(downstreams, required, i + 1);
    }
}

proof fn lemma_class_named(downstreams: Seq<DownstreamCfg>, classes: Seq<RequestClassCfg>, i: int)
    requires
        0 <= i <= classes.len(),
        class_fault_from(downstreams, classes, i) is Some,
    ensures
        exists|k: int|
            #[trigger] class_rejected(
                downstreams,
                classes,
                k,
                class_fault_from(downstreams, classes, i)->0,
            ),
    decreases classes.len() - i,
{
    match class_fault(downstreams, classes, i) {
        Some(e) => {
            if undeclared_from(downstreams, classes[i].requires@, 0) is Some {
                lemma_requirement_named(downstreams, classes[i].requires@, 0);
            }
            assert(class_rejected(downstreams, classes, i, e));
        },
        None => {
            lemma_class_named(downstreams, classes, i + 1);
        },
    }
}

/// Every rejection names the value that breaks a rule.
pub proof fn lemma_rejection_names_the_fault(c: Config)
    requires
        !c.valid(),
    ensures
        names_the_fault(c, c.fault()->0),
{
    lemma_unity();
    let classes = c.request_classes@;
    if downstream_fault_from(c.downstreams@, 0) is Some {
        lemma_downstream_named(c.downstreams@, 0);
    }
    if class_fault_from(c.downstreams@, classes, 0) is Some {
        lemma_class_named(c.downstreams@, classes, 0);
    } else if classes.len() > 0 {
        lemma_classes_mean(c.downstreams@, classes);
        lemma_sum_before(classes, classes.len());
        lemma_tolerance(weight_of_first(classes, classes.len()));
    }
}

/// Which section of the configuration a rejection speaks of, counted from 1.
pub open spec fn section(error: ConfigError) -> int {
    match error {
        ConfigError::Duration { .. }
        | ConfigError::Warmup { .. }
        | ConfigError::WarmupNotBelowDuration { .. } => 1,
        ConfigError::TargetUtilization { .. }
        | ConfigError::Rate { .. }
        | ConfigError::BurstinessMissing
        | ConfigError::Burstiness { .. } => 2,
        ConfigError::Budget { .. } | ConfigError::Penalty { .. } => 3,
        ConfigError::NoDownstream
        | ConfigError::DuplicateDownstream { .. }
        | ConfigError::Capacity { .. }
        | ConfigError::Timeout { .. }
        | ConfigError::Distribution { .. } => 4,
        _ => 5,
    }
}

/// Sections are checked in order: a rejection that speaks of one means that
/// those before it keep their rules.
pub proof fn lemma_earlier_sections_hold(c: Config)
    requires
        !c.valid(),
    ensures
        section(c.fault()->0) > 1 ==> c.scenario.duration_s.finite() && c.scenario.warmup_s.finite()
            && 0 <= c.scenario.warmup_s.units() < c.scenario.duration_s.units(),
        section(c.fault()->0) > 2 ==> {
            &&& c.load.target_utilization is None
            &&& c.load.rate_rps.finite() && c.load.rate_rps.units() > 0
            &&& c.load.arrival == Arrival::Bursty ==> (c.load.burstiness_cv matches Some(cv)
                && cv.finite() && cv.units() > one())
        },
        section(c.fault()->0) > 3 ==> c.slo.budget_ms.finite() && c.slo.penalty().finite() && 0
            < c.slo.budget_ms.units() < c.slo.penalty().units(),
        section(c.fault()->0) > 4 ==> downstreams_fit(c.downstreams@),
{
    lemma_unity();
    let classes = c.request_classes@;
    if c.downstreams.len() > 0 {
        lemma_downstreams_mean(c.downstreams@);
        if downstream_fault_from(c.downstreams@, 0) is Some {
            lemma_downstream_named(c.downstreams@, 0);
        }
    }
    if class_fault_from(c.downstreams@, classes, 0) is Some {
        lemma_class_named(c.downstreams@, classes, 0);
    }
}

} // verus!
