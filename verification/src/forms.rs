//! Draws and closed forms, against exact arithmetic.

use vstd::arithmetic::power2::pow2;
use vstd::prelude::*;

use crate::arithmetic::distance;
use crate::arithmetic::lemma_signed;
use crate::arithmetic::one;
use crate::arithmetic::sum_of;
use crate::binary64::lemma_size_ordered;
use crate::binary64::size_of_magnitude;
use crate::binary64::unity;
use crate::binary64::zero;
use crate::binary64::Binary64;
use crate::binary64::INFINITY;
use crate::binary64::MINUS_ONE;
use crate::binary64::ONE;
use crate::binary64::TWO;
use crate::config::Slo;
use crate::config::TEN;
use crate::distributions::lemma_share;
use crate::distributions::ClosedForm;
use crate::distributions::Distribution;
use crate::distributions::Draw;
use crate::gamma::scale_of;
use crate::gamma::shape_of;
use crate::means::lemma_difference_near;
use crate::means::lemma_mean_near;
use crate::means::lemma_product_near;
use crate::means::lemma_quotient_near;
use crate::means::lemma_settled_near;
use crate::means::near_mean;
use crate::means::near_quotient;
use crate::order::lemma_plus_units;
use crate::order::lemma_rounded_zero;
use crate::precision::lemma_rounded_not_far_down;
use crate::precision::lemma_rounded_not_far_up;
use crate::ranks::lemma_scales;
use crate::ranks::lemma_unity;
use crate::rng::lemma_unit;
use crate::rounding::rounded;

verus! {

/// A bimodal draw is slow for as large a share of the words as `p_slow` says,
/// and fast for all others: it is slow where the leading 53 bits of the word,
/// read as a fraction, are below.
pub proof fn lemma_slow_share(
    fast_ms: Binary64,
    slow_ms: Binary64,
    p_slow: Binary64,
    words: Map<nat, u64>,
)
    requires
        !p_slow.nan(),
    ensures
        (Distribution::Bimodal { fast_ms, slow_ms, p_slow }).drawn(words) == (Draw::Ms {
            ms: if (words[0] / 2048) * pow2(1021) < p_slow.units() {
                slow_ms
            } else {
                fast_ms
            },
        }),
{
    lemma_unit(words[0]);
}

/// The sum of two numbers that are not below zero is near the exact one.
proof fn lemma_total_near(a: Binary64, b: Binary64)
    requires
        a.not_negative(),
        b.not_negative(),
        a.plus(b).finite(),
    ensures
        a.plus(b).units() >= 0,
        0x20_0000_0000_0000 * distance(a.plus(b).units() - (a.units() + b.units())) <= a.units()
            + b.units() + 0x10_0000_0000_0000,
{
    let s = a.units() + b.units();
    assert(size_of_magnitude(0) == 0);
    lemma_plus_units(a, b);
    lemma_rounded_zero(1);
    if s != 0 {
        lemma_signed(false, rounded(distance(s), 1));
    }
    lemma_settled_near(s);
}

/// The quantile of a uniform distribution lies as far between the bounds as `q`
/// between 0 and 1.
pub proof fn lemma_uniform_quantile(min_ms: Binary64, max_ms: Binary64, q: Binary64)
    requires
        (Distribution::Uniform { min_ms, max_ms }).fault() is None,
        zero().less_or_equal(q),
        q.less(unity()),
    ensures
        (Distribution::Uniform { min_ms, max_ms }).quantile(q) matches Some(
            ClosedForm::Ms { ms },
        ) && (ms.finite() ==> 0x4_0000_0000_0000 * distance(
            ms.units() * one() - (min_ms.units() * one() + q.units() * (max_ms.units()
                - min_ms.units())),
        ) <= one() * (max_ms.units() + 0x10_0000_0000_0000)),
{
    let o = one();
    let w = max_ms.minus(min_ms);
    let p = q.times(w);
    let x = min_ms.plus(p);
    assert(size_of_magnitude(0) == 0);
    lemma_unity();
    lemma_difference_near(max_ms, min_ms);
    lemma_share(q, w);
    lemma_size_ordered(q.magnitude(), ONE as nat);
    lemma_product_near(q, w);
    crate::distributions::lemma_width_bounded(min_ms, max_ms);
    if x.finite() {
        lemma_total_near(min_ms, p);
        lemma_between(
            o as int,
            q.units(),
            min_ms.units(),
            max_ms.units(),
            w.units(),
            p.units(),
            x.units(),
        );
    }
}

proof fn lemma_between(o: int, q: int, min: int, max: int, w: int, p: int, x: int)
    requires
        o > 0,
        0 <= q <= o,
        0 <= min <= max,
        0 <= w <= max,
        0 <= p <= w,
        0x20_0000_0000_0000 * distance(w - (max - min)) <= max - min + 0x10_0000_0000_0000,
        0x20_0000_0000_0000 * distance(p * o - q * w) <= q * w + o * 0x10_0000_0000_0000,
        0x20_0000_0000_0000 * distance(x - (min + p)) <= min + p + 0x10_0000_0000_0000,
    ensures
        0x4_0000_0000_0000 * distance(x * o - (min * o + q * (max - min))) <= o * (max
            + 0x10_0000_0000_0000),
{
    let t: int = 0x20_0000_0000_0000;
    let h: int = 0x10_0000_0000_0000;
    let mo = max * o;
    let a = (x - (min + p)) * o;
    let b = p * o - q * w;
    let c = q * (w - (max - min));
    assert(x * o - (min * o + q * (max - min)) == a + b + c) by (nonlinear_arith)
        requires
            a == (x - (min + p)) * o,
            b == p * o - q * w,
            c == q * (w - (max - min)),
    ;
    assert(t * distance(a) <= 2 * mo + h * o) by (nonlinear_arith)
        requires
            a == (x - (min + p)) * o,
            t * distance(x - (min + p)) <= min + p + h,
            min + p <= 2 * max,
            mo == max * o,
            o > 0,
            t > 0,
    ;
    assert(q * w <= mo) by (nonlinear_arith)
        requires
            0 <= q <= o,
            0 <= w <= max,
            mo == max * o,
    ;
    assert(t * distance(c) <= mo + h * o) by (nonlinear_arith)
        requires
            c == q * (w - (max - min)),
            t * distance(w - (max - min)) <= max - min + h,
            max - min <= max,
            0 <= q <= o,
            mo == max * o,
            t > 0,
            h > 0,
            max >= 0,
    ;
    assert(o * (max + h) == mo + h * o) by (nonlinear_arith)
        requires
            mo == max * o,
    ;
}

/// The quantile of a bimodal distribution is fast up to the share that is not
/// slow, and slow beyond, up to what rounding takes.
pub proof fn lemma_bimodal_quantile(
    fast_ms: Binary64,
    slow_ms: Binary64,
    p_slow: Binary64,
    q: Binary64,
)
    requires
        (Distribution::Bimodal { fast_ms, slow_ms, p_slow }).fault() is None,
        zero().less_or_equal(q),
        q.less(unity()),
    ensures
        ({
            let form = (Distribution::Bimodal { fast_ms, slow_ms, p_slow }).quantile(q);
            &&& q.units() + p_slow.units() + 2 * pow2(1021) < one() ==> form == Some(
                ClosedForm::Ms { ms: fast_ms },
            )
            &&& q.units() + p_slow.units() >= one() + 2 * pow2(1021) ==> form == Some(
                ClosedForm::Ms { ms: slow_ms },
            )
        }),
{
    assert(size_of_magnitude(0) == 0);
    lemma_unity();
    lemma_scales();
    lemma_size_ordered(p_slow.magnitude(), ONE as nat);
    lemma_size_ordered(p_slow.magnitude(), INFINITY as nat);
    lemma_size_ordered(ONE as nat, INFINITY as nat);
    lemma_difference_near(unity(), p_slow);
}

/// The quantile of a Pareto distribution is the scale times what is left of 1,
/// to the power of `-1 / alpha`.
pub proof fn lemma_pareto_quantile(scale_ms: Binary64, alpha: Binary64, q: Binary64)
    requires
        (Distribution::Pareto { scale_ms, alpha }).fault() is None,
        zero().less_or_equal(q),
        q.less(unity()),
    ensures
        (Distribution::Pareto { scale_ms, alpha }).quantile(q) matches Some(
            ClosedForm::Power { scale_ms: s, base, exponent },
        ) && {
            &&& s == scale_ms
            &&& 0x20_0000_0000_0000 * distance(base.units() - (one() - q.units())) <= one()
                - q.units() + 0x10_0000_0000_0000
            &&& exponent.units() <= 0
            &&& 0x20_0000_0000_0000 * distance(alpha.units() * exponent.units() + one() * one())
                <= one() * one() + alpha.units() * 0x10_0000_0000_0000
        },
{
    let o = one();
    let m = rounded(o * o, alpha.size());
    let e = (Binary64 { bits: MINUS_ONE }).over(alpha);
    assert(size_of_magnitude(0) == 0);
    lemma_unity();
    lemma_size_ordered(q.magnitude(), ONE as nat);
    lemma_size_ordered(q.magnitude(), INFINITY as nat);
    lemma_size_ordered(ONE as nat, INFINITY as nat);
    lemma_difference_near(unity(), q);
    lemma_signed(true, m);
    assert((Binary64 { bits: MINUS_ONE }).size() == o);
    lemma_rounded_not_far_up(o * o, alpha.size());
    crate::distributions::lemma_exponent_finite(alpha);
    lemma_rounded_not_far_down(o * o, alpha.size());
    let y = size_of_magnitude(m);
    let a = alpha.size();
    assert(a * (-(y as int)) == -(a * y)) by (nonlinear_arith);
}

/// The mean of a uniform distribution lies half way between the bounds.
pub proof fn lemma_uniform_mean(min_ms: Binary64, max_ms: Binary64)
    requires
        (Distribution::Uniform { min_ms, max_ms }).fault() is None,
        min_ms.plus(max_ms).finite(),
    ensures
        (Distribution::Uniform { min_ms, max_ms }).mean() matches ClosedForm::Ms { ms } &&
            0x10_0000_0000_0000 * distance(2 * ms.units() - (min_ms.units() + max_ms.units()))
            <= 2 * (min_ms.units() + max_ms.units()) + 4 * 0x10_0000_0000_0000,
{
    let s = min_ms.plus(max_ms);
    let two = Binary64 { bits: TWO };
    let o = one();
    assert(size_of_magnitude(0) == 0);
    lemma_unity();
    crate::validity::lemma_two();
    lemma_total_near(min_ms, max_ms);
    let m = rounded(s.size() * o, two.size());
    crate::distributions::lemma_halved(s);
    lemma_quotient_near(s, two);
    let y = s.over(two).units();
    assert(0x20_0000_0000_0000 * distance(2 * y - s.units()) <= s.units() + 2
        * 0x10_0000_0000_0000) by (nonlinear_arith)
        requires
            0x20_0000_0000_0000 * distance((2 * o) * y - s.units() * o) <= s.units() * o + (2 * o)
                * 0x10_0000_0000_0000,
            o > 0,
    ;
}

/// The mean of a trace is that of its samples.
pub proof fn lemma_empirical_mean(d: Distribution)
    requires
        d is Empirical,
        d.fault() is None,
        d->samples_ms.len() <= 0x100_0000_0000,
        sum_of(d->samples_ms@).finite(),
    ensures
        d.mean() matches ClosedForm::Ms { ms } && near_mean(ms, d->samples_ms@),
{
    crate::validity::lemma_distribution_accepted(d);
    let samples = d->samples_ms@;
    assert forall|i: int| 0 <= i < samples.len() implies (
    #[trigger] samples[i]).not_negative() by {
        assert(d->samples_ms[i].finite());
    }
    lemma_mean_near(samples);
}

/// A failed request scores what the objective says, or else ten budgets.
pub proof fn lemma_penalty_is_ten_budgets(slo: Slo)
    requires
        slo.budget_ms.not_negative(),
        slo.penalty().finite(),
    ensures
        slo.penalty_ms matches Some(p) ==> slo.penalty() == p,
        slo.penalty_ms is None ==> 0x20_0000_0000_0000 * distance(
            slo.penalty().units() - 10 * slo.budget_ms.units(),
        ) <= 10 * slo.budget_ms.units() + 0x10_0000_0000_0000,
{
    if slo.penalty_ms is None {
        let o = one();
        let b = slo.budget_ms.units();
        let ten = Binary64 { bits: TEN };
        lemma_unity();
        crate::budget::lemma_ten();
        lemma_product_near(slo.budget_ms, ten);
        let y = slo.penalty().units();
        assert(0x20_0000_0000_0000 * distance(y - 10 * b) <= 10 * b + 0x10_0000_0000_0000)
            by (nonlinear_arith)
            requires
                0x20_0000_0000_0000 * distance(y * o - b * (10 * o)) <= b * (10 * o) + o
                    * 0x10_0000_0000_0000,
                o > 0,
        ;
    }
}

/// The gaps of bursty arrivals: the shape is 1 over the square of the
/// coefficient of variation, and the mean gap, shape times scale, is 1 over the
/// rate.
pub proof fn lemma_burst_parameters(rate: Binary64, cv: Binary64)
    requires
        rate.positive(),
        cv.positive(),
        cv.times(cv).positive(),
        shape_of(cv).positive(),
        rate.times(shape_of(cv)).positive(),
        scale_of(rate, shape_of(cv)).finite(),
    ensures
        near_quotient(shape_of(cv), unity(), cv.times(cv)),
        0x20_0000_0000_0000 * distance(cv.times(cv).units() * one() - cv.units() * cv.units())
            <= cv.units() * cv.units() + one() * 0x10_0000_0000_0000,
        near_quotient(scale_of(rate, shape_of(cv)), unity(), rate.times(shape_of(cv))),
        0x20_0000_0000_0000 * distance(
            rate.times(shape_of(cv)).units() * one() - rate.units() * shape_of(cv).units(),
        ) <= rate.units() * shape_of(cv).units() + one() * 0x10_0000_0000_0000,
{
    lemma_unity();
    lemma_product_near(cv, cv);
    lemma_quotient_near(unity(), cv.times(cv));
    lemma_product_near(rate, shape_of(cv));
    lemma_quotient_near(unity(), rate.times(shape_of(cv)));
}

/// The mean of a log-normal distribution is its median times the exponential of
/// half the square of sigma.
pub proof fn lemma_log_normal_mean(median_ms: Binary64, sigma: Binary64)
    requires
        (Distribution::LogNormal { median_ms, sigma }).fault() is None,
        sigma.times(sigma).finite(),
    ensures
        (Distribution::LogNormal { median_ms, sigma }).mean() matches ClosedForm::Exponential {
            scale_ms,
            exponent,
        } && {
            &&& scale_ms == median_ms
            &&& 0x8_0000_0000_0000 * distance(
                2 * (exponent.units() * one()) - sigma.units() * sigma.units(),
            ) <= sigma.units() * sigma.units() + one() * 0x10_0000_0000_0000
        },
{
    let o = one();
    let h: int = 0x10_0000_0000_0000;
    let v = sigma.units() * sigma.units();
    let square = sigma.times(sigma);
    let two = Binary64 { bits: TWO };
    assert(size_of_magnitude(0) == 0);
    lemma_unity();
    crate::validity::lemma_two();
    lemma_product_near(sigma, sigma);
    lemma_signed(false, rounded(sigma.size() * sigma.size(), o));
    crate::distributions::lemma_halved(square);
    lemma_quotient_near(square, two);
    let y = square.over(two).units();
    let z = square.units();
    assert(0x20_0000_0000_0000 * distance(2 * (y * o) - z * o) <= z * o + 2 * (o * h))
        by (nonlinear_arith)
        requires
            0x20_0000_0000_0000 * distance((2 * o) * y - z * o) <= z * o + (2 * o) * h,
    ;
    assert(v >= 0) by (nonlinear_arith)
        requires
            v == sigma.units() * sigma.units(),
    ;
}

proof fn lemma_mixed(
    o: int,
    h: int,
    f: int,
    s: int,
    p: int,
    q: int,
    a: int,
    b: int,
    y: int,
)
    requires
        h == 0x10_0000_0000_0000,
        o >= 0,
        f >= 0,
        s >= 0,
        0 <= p <= o,
        q >= 0,
        a >= 0,
        b >= 0,
        0x20_0000_0000_0000 * distance(q - (o - p)) <= o - p + h,
        0x20_0000_0000_0000 * distance(a * o - f * q) <= f * q + o * h,
        0x20_0000_0000_0000 * distance(b * o - s * p) <= s * p + o * h,
        0x20_0000_0000_0000 * distance(y - (a + b)) <= a + b + h,
    ensures
        0x4_0000_0000_0000 * distance(y * o - (f * (o - p) + s * p)) <= f * (o - p) + s * p + (f
            + o) * h,
{
    let fq = f * q;
    let fr = f * (o - p);
    let sp = s * p;
    assert(0x20_0000_0000_0000 * distance(fq - fr) <= fr + f * h && fr >= 0 && sp >= 0 && fq >= 0)
        by (nonlinear_arith)
        requires
            fq == f * q,
            fr == f * (o - p),
            sp == s * p,
            f >= 0,
            s >= 0,
            q >= 0,
            0 <= p <= o,
            0x20_0000_0000_0000 * distance(q - (o - p)) <= o - p + h,
    ;
    assert(0x20_0000_0000_0000 * distance(y * o - (a * o + b * o)) <= a * o + b * o + o * h)
        by (nonlinear_arith)
        requires
            o >= 0,
            0x20_0000_0000_0000 * distance(y - (a + b)) <= a + b + h,
    ;
    assert((f + o) * h == f * h + o * h && f * h >= 0 && o * h >= 0) by (nonlinear_arith)
        requires
            f >= 0,
            o >= 0,
            h >= 0,
    ;
}

/// The mean of a bimodal distribution weighs each of its two values by its
/// share.
pub proof fn lemma_bimodal_mean(fast_ms: Binary64, slow_ms: Binary64, p_slow: Binary64)
    requires
        (Distribution::Bimodal { fast_ms, slow_ms, p_slow }).fault() is None,
        ((Distribution::Bimodal { fast_ms, slow_ms, p_slow }).mean()->Ms_ms).finite(),
    ensures
        (Distribution::Bimodal { fast_ms, slow_ms, p_slow }).mean() matches ClosedForm::Ms { ms }
            && 0x4_0000_0000_0000 * distance(
            ms.units() * one() - (fast_ms.units() * (one() - p_slow.units()) + slow_ms.units()
                * p_slow.units()),
        ) <= fast_ms.units() * (one() - p_slow.units()) + slow_ms.units() * p_slow.units() + (
        fast_ms.units() + one()) * 0x10_0000_0000_0000,
{
    let o = one();
    assert(size_of_magnitude(0) == 0);
    lemma_unity();
    lemma_size_ordered(p_slow.magnitude(), ONE as nat);
    lemma_size_ordered(p_slow.magnitude(), INFINITY as nat);
    lemma_size_ordered(ONE as nat, INFINITY as nat);
    lemma_size_ordered(0, p_slow.magnitude());
    lemma_size_ordered(0, fast_ms.magnitude());
    lemma_size_ordered(0, slow_ms.magnitude());
    lemma_difference_near(unity(), p_slow);
    let q = unity().minus(p_slow);
    crate::order::lemma_minus_shrinks(unity(), p_slow);
    lemma_no_larger(fast_ms, q);
    lemma_no_larger(slow_ms, p_slow);
    lemma_product_near(fast_ms, q);
    lemma_product_near(slow_ms, p_slow);
    let a = fast_ms.times(q);
    let b = slow_ms.times(p_slow);
    lemma_no_less(a);
    lemma_no_less(b);
    lemma_total_near(a, b);
    lemma_mixed(
        o as int,
        0x10_0000_0000_0000,
        fast_ms.units(),
        slow_ms.units(),
        p_slow.units(),
        q.units(),
        a.units(),
        b.units(),
        a.plus(b).units(),
    );
}

proof fn lemma_no_less(a: Binary64)
    requires
        a.finite(),
        a.units() >= 0,
    ensures
        a.not_negative(),
{
    assert(size_of_magnitude(0) == 0);
    lemma_size_ordered(0, a.magnitude());
}

/// A share of a number is finite.
proof fn lemma_no_larger(a: Binary64, q: Binary64)
    requires
        a.finite(),
        q.finite(),
        0 <= q.units() <= one(),
    ensures
        a.times(q).finite(),
{
    let o = one();
    let n = a.size() * q.size();
    lemma_unity();
    assert(n * 1 <= a.size() * o) by (nonlinear_arith)
        requires
            n == a.size() * q.size(),
            q.size() <= o,
    ;
    crate::rounding::lemma_rounded_monotone(n, o, a.size(), 1);
    crate::rounding::lemma_rounded_exact(a.magnitude(), 1);
    assert(a.size() * 1 == a.size());
    lemma_signed(a.negative() != q.negative(), rounded(n, o));
}

/// The mean of a Pareto distribution is `alpha / (alpha - 1)` scales.
pub proof fn lemma_pareto_mean(scale_ms: Binary64, alpha: Binary64)
    requires
        (Distribution::Pareto { scale_ms, alpha }).fault() is None,
        alpha.times(scale_ms).finite(),
        ((Distribution::Pareto { scale_ms, alpha }).mean()->Ms_ms).finite(),
    ensures
        (Distribution::Pareto { scale_ms, alpha }).mean() matches ClosedForm::Ms { ms } &&
            0x8_0000_0000_0000 * distance(
            ms.units() * (alpha.units() - one()) - alpha.units() * scale_ms.units(),
        ) <= ms.units() * (alpha.units() - one()) + alpha.units() * scale_ms.units() + (ms.units()
            + alpha.units()) * 0x10_0000_0000_0000,
{
    let o = one();
    let p = alpha.times(scale_ms);
    let d = alpha.minus(unity());
    assert(size_of_magnitude(0) == 0);
    lemma_unity();
    lemma_size_ordered(ONE as nat, INFINITY as nat);
    lemma_size_ordered(0, alpha.magnitude());
    lemma_size_ordered(0, scale_ms.magnitude());
    lemma_product_near(alpha, scale_ms);
    lemma_no_less(p);
    lemma_difference_near(alpha, unity());
    lemma_signed(true, ONE as nat);
    lemma_plus_units(alpha, unity().opposite());
    crate::order::lemma_settled_monotone(1, alpha.units() - o);
    lemma_smallest();
    lemma_size_ordered(0, d.magnitude());
    lemma_quotient_near(p, d);
    lemma_stretched(
        o as int,
        0x10_0000_0000_0000,
        alpha.units(),
        scale_ms.units(),
        p.units(),
        d.units(),
        p.over(d).units(),
    );
}

/// A unit is representable.
proof fn lemma_smallest()
    ensures
        crate::order::settled(1) == 1,
{
    let tiny = Binary64 { bits: 1 };
    assert(tiny.units() == 1) by {
        assert(pow2(0) == 1) by {
            vstd::arithmetic::power2::lemma2_to64();
        }
    }
    crate::order::lemma_settled_exact(tiny);
}

proof fn lemma_stretched(o: int, h: int, alpha: int, s: int, p: int, d: int, y: int)
    requires
        h == 0x10_0000_0000_0000,
        h <= o <= alpha,
        s >= 0,
        p >= 0,
        d >= 0,
        y >= 0,
        0x20_0000_0000_0000 * distance(p * o - alpha * s) <= alpha * s + o * h,
        0x20_0000_0000_0000 * distance(d - (alpha - o)) <= alpha - o + h,
        0x20_0000_0000_0000 * distance(d * y - p * o) <= p * o + d * h,
    ensures
        0x8_0000_0000_0000 * distance(y * (alpha - o) - alpha * s) <= y * (alpha - o) + alpha * s
            + (y + alpha) * h,
{
    let t = y * (alpha - o);
    let u = alpha * s;
    let v = p * o;
    assert(0x20_0000_0000_0000 * distance(d * y - t) <= t + y * h && t >= 0 && u >= 0 && v >= 0
        && y * h >= 0) by (nonlinear_arith)
        requires
            t == y * (alpha - o),
            u == alpha * s,
            v == p * o,
            y >= 0,
            s >= 0,
            p >= 0,
            h >= 0,
            0 <= o <= alpha,
            0x20_0000_0000_0000 * distance(d - (alpha - o)) <= alpha - o + h,
    ;
    assert(d * h <= 2 * (alpha * h) && o * h <= alpha * h && (y + alpha) * h == y * h + alpha * h)
        by (nonlinear_arith)
        requires
            h == 0x10_0000_0000_0000,
            h <= o <= alpha,
            0x20_0000_0000_0000 * distance(d - (alpha - o)) <= alpha - o + h,
    ;
}

/// The quantile of a log-normal distribution is that of its own median and
/// sigma at `q`; nothing of it lies below zero.
pub proof fn lemma_log_normal_quantile(median_ms: Binary64, sigma: Binary64, q: Binary64)
    requires
        zero().less_or_equal(q),
        q.less(unity()),
    ensures
        q.units() > 0 ==> (Distribution::LogNormal { median_ms, sigma }).quantile(q) == Some(
            ClosedForm::NormalQuantile { median_ms, sigma, q },
        ),
        q.units() == 0 ==> ((Distribution::LogNormal { median_ms, sigma }).quantile(q) matches Some(
            ClosedForm::Ms { ms },
        ) && ms.units() == 0),
{
    assert(size_of_magnitude(0) == 0);
}

} // verus!
