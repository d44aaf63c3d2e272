//! Latency distributions.

use rand_chacha::ChaCha8Rng;
use vstd::arithmetic::div_mod::lemma_fundamental_div_mod_converse;
use vstd::arithmetic::power2::lemma2_to64;
use vstd::arithmetic::power2::lemma_pow2_adds;
use vstd::arithmetic::power2::lemma_pow2_pos;
use vstd::arithmetic::power2::pow2;
use vstd::prelude::*;

use crate::arithmetic::lemma_signed;
use crate::arithmetic::one;
use crate::arithmetic::sum;
use crate::arithmetic::sum_of;
use crate::binary64::lemma_size_increases;
use crate::binary64::lemma_size_ordered;
use crate::binary64::size_of_magnitude;
use crate::binary64::unity;
use crate::binary64::zero;
use crate::binary64::Binary64;
use crate::binary64::HIDDEN;
use crate::binary64::INFINITY;
use crate::binary64::MINUS_ONE;
use crate::binary64::ONE;
use crate::binary64::TWO;
use crate::conversion::from_u64;
use crate::conversion::whole;
use crate::order::lemma_plus_units;
use crate::order::lemma_rounded_zero;
use crate::order::lemma_settled_exact;
use crate::order::lemma_settled_monotone;
use crate::order::settled;
use crate::ranks::lemma_settled_short;
use crate::ranks::lemma_unity;
use crate::report::Q99;
use crate::rng::call_seed;
use crate::rng::chacha8_words;
use crate::rng::index_draw;
use crate::rng::lemma_open_unit;
use crate::rng::lemma_unit;
use crate::rng::open_unit;
use crate::rng::open_unit_draw;
use crate::rng::shifted;
use crate::rng::uniform_draw;
use crate::rng::unit;
use crate::rng::unit_draw;
use crate::rng::words;
use crate::rounding::lemma_nearest_integer_is;
use crate::rounding::lemma_nearest_magnitude_is;
use crate::rounding::lemma_powers;
use crate::rounding::lemma_rounded_exact;
use crate::rounding::lemma_rounded_monotone;
use crate::rounding::rounded;

verus! {

#[derive(Clone, Debug, PartialEq, Eq)]
pub enum Distribution {
    Constant { ms: Binary64 },
    Uniform { min_ms: Binary64, max_ms: Binary64 },
    LogNormal { median_ms: Binary64, sigma: Binary64 },
    Bimodal { fast_ms: Binary64, slow_ms: Binary64, p_slow: Binary64 },
    Pareto { scale_ms: Binary64, alpha: Binary64 },
    Empirical { samples_ms: Vec<Binary64> },
}

/// Why a distribution is rejected, with the offending values.
#[derive(Clone, Copy, Debug, PartialEq, Eq, Structural)]
pub enum DistributionError {
    ConstantMs { ms: Binary64 },
    UniformBounds { min_ms: Binary64, max_ms: Binary64 },
    UniformOrder { min_ms: Binary64, max_ms: Binary64 },
    LogNormalMedian { median_ms: Binary64 },
    LogNormalSigma { sigma: Binary64 },
    BimodalBounds { fast_ms: Binary64, slow_ms: Binary64 },
    BimodalOrder { fast_ms: Binary64, slow_ms: Binary64 },
    BimodalShare { p_slow: Binary64 },
    ParetoScale { scale_ms: Binary64 },
    ParetoAlpha { alpha: Binary64 },
    EmpiricalEmpty,
    /// The first sample that is out of the domain.
    EmpiricalSamples { ms: Binary64 },
}

/// A latency in milliseconds, as far as arithmetic alone settles it. The other
/// forms name the function that is left to evaluate.
#[derive(Clone, Copy, Debug, PartialEq, Eq, Structural)]
pub enum Draw {
    Ms { ms: Binary64 },
    /// Uniform over both bounds; the generator has not been drawn from.
    Between { min_ms: Binary64, max_ms: Binary64 },
    /// `median * exp(sigma * z)`, with `z` the standard normal number of
    /// `u1` and `u2`.
    Normal { median_ms: Binary64, sigma: Binary64, u1: Binary64, u2: Binary64 },
    /// `scale * base ^ exponent`.
    Power { scale_ms: Binary64, base: Binary64, exponent: Binary64 },
}

/// A closed form, as far as arithmetic alone settles it.
#[derive(Clone, Copy, Debug, PartialEq, Eq, Structural)]
pub enum ClosedForm {
    Ms { ms: Binary64 },
    /// `median * exp(sigma * z)`, with `z` the `q`-quantile of the standard
    /// normal distribution.
    NormalQuantile { median_ms: Binary64, sigma: Binary64, q: Binary64 },
    /// `scale * exp(exponent)`.
    Exponential { scale_ms: Binary64, exponent: Binary64 },
    /// `scale * base ^ exponent`.
    Power { scale_ms: Binary64, base: Binary64, exponent: Binary64 },
}

/// The first sample, from the `i`th on, that is not finite or below zero.
pub open spec fn first_bad(samples_ms: Seq<Binary64>, i: int) -> Option<Binary64>
    decreases samples_ms.len() - i,
{
    if i >= samples_ms.len() {
        None
    } else if !samples_ms[i].not_negative() {
        Some(samples_ms[i])
    } else {
        first_bad(samples_ms, i + 1)
    }
}

impl Distribution {
    /// The first rule that the parameters break, if any.
    pub open spec fn fault(self) -> Option<DistributionError> {
        match self {
            Distribution::Constant { ms } => if !ms.not_negative() {
                Some(DistributionError::ConstantMs { ms })
            } else {
                None
            },
            Distribution::Uniform { min_ms, max_ms } => if !min_ms.not_negative()
                || !max_ms.finite() {
                Some(DistributionError::UniformBounds { min_ms, max_ms })
            } else if max_ms.less(min_ms) {
                Some(DistributionError::UniformOrder { min_ms, max_ms })
            } else {
                None
            },
            Distribution::LogNormal { median_ms, sigma } => if !median_ms.positive() {
                Some(DistributionError::LogNormalMedian { median_ms })
            } else if !sigma.positive() {
                Some(DistributionError::LogNormalSigma { sigma })
            } else {
                None
            },
            Distribution::Bimodal { fast_ms, slow_ms, p_slow } => if !fast_ms.not_negative()
                || !slow_ms.finite() {
                Some(DistributionError::BimodalBounds { fast_ms, slow_ms })
            } else if slow_ms.less(fast_ms) {
                Some(DistributionError::BimodalOrder { fast_ms, slow_ms })
            } else if !(zero().less_or_equal(p_slow) && p_slow.less_or_equal(unity())) {
                Some(DistributionError::BimodalShare { p_slow })
            } else {
                None
            },
            Distribution::Pareto { scale_ms, alpha } => if !scale_ms.positive() {
                Some(DistributionError::ParetoScale { scale_ms })
            } else if !(alpha.finite() && unity().less(alpha)) {
                Some(DistributionError::ParetoAlpha { alpha })
            } else {
                None
            },
            Distribution::Empirical { samples_ms } => if samples_ms.len() == 0 {
                Some(DistributionError::EmpiricalEmpty)
            } else {
                match first_bad(samples_ms@, 0) {
                    Some(ms) => Some(DistributionError::EmpiricalSamples { ms }),
                    None => None,
                }
            },
        }
    }

    /// Rejects parameters outside the domain, before anything is drawn.
    pub fn validate(&self) -> (r: Result<(), DistributionError>)
        ensures
            r == (match self.fault() {
                Some(e) => Err::<(), DistributionError>(e),
                None => Ok(()),
            }),
    {
        let one: Binary64 = Binary64::from_bits(ONE);
        match self {
            Distribution::Constant { ms } => {
                if !ms.is_not_negative() {
                    return Err(DistributionError::ConstantMs { ms: *ms });
                }
            },
            Distribution::Uniform { min_ms, max_ms } => {
                if !min_ms.is_not_negative() || !max_ms.is_finite() {
                    return Err(
                        DistributionError::UniformBounds { min_ms: *min_ms, max_ms: *max_ms },
                    );
                }
                if max_ms.lt(*min_ms) {
                    return Err(
                        DistributionError::UniformOrder { min_ms: *min_ms, max_ms: *max_ms },
                    );
                }
            },
            Distribution::LogNormal { median_ms, sigma } => {
                if !median_ms.is_positive() {
                    return Err(DistributionError::LogNormalMedian { median_ms: *median_ms });
                }
                if !sigma.is_positive() {
                    return Err(DistributionError::LogNormalSigma { sigma: *sigma });
                }
            },
            Distribution::Bimodal { fast_ms, slow_ms, p_slow } => {
                if !fast_ms.is_not_negative() || !slow_ms.is_finite() {
                    return Err(
                        DistributionError::BimodalBounds { fast_ms: *fast_ms, slow_ms: *slow_ms },
                    );
                }
                if slow_ms.lt(*fast_ms) {
                    return Err(
                        DistributionError::BimodalOrder { fast_ms: *fast_ms, slow_ms: *slow_ms },
                    );
                }
                if !(Binary64::from_bits(0).le(*p_slow) && p_slow.le(one)) {
                    return Err(DistributionError::BimodalShare { p_slow: *p_slow });
                }
            },
            Distribution::Pareto { scale_ms, alpha } => {
                if !scale_ms.is_positive() {
                    return Err(DistributionError::ParetoScale { scale_ms: *scale_ms });
                }
                // At 1 and below the mean is infinite.
                if !(alpha.is_finite() && one.lt(*alpha)) {
                    return Err(DistributionError::ParetoAlpha { alpha: *alpha });
                }
            },
            Distribution::Empirical { samples_ms } => {
                if samples_ms.len() == 0 {
                    return Err(DistributionError::EmpiricalEmpty);
                }
                let mut i: usize = 0;
                while i < samples_ms.len()
                    invariant
                        i <= samples_ms.len(),
                        *self == (Distribution::Empirical { samples_ms: *samples_ms }),
                        samples_ms.len() > 0,
                        first_bad(samples_ms@, 0) == first_bad(samples_ms@, i as int),
                    decreases samples_ms.len() - i,
                {
                    if !samples_ms[i].is_not_negative() {
                        return Err(DistributionError::EmpiricalSamples { ms: samples_ms[i] });
                    }
                    i = i + 1;
                }
            },
        }
        Ok(())
    }

    /// What a draw from the stream `words` comes to.
    pub open spec fn drawn(self, words: Map<nat, u64>) -> Draw {
        match self {
            Distribution::Constant { ms } => Draw::Ms { ms },
            Distribution::Uniform { min_ms, max_ms } => Draw::Between { min_ms, max_ms },
            Distribution::LogNormal { median_ms, sigma } => Draw::Normal {
                median_ms,
                sigma,
                u1: open_unit(words[0]),
                u2: unit(words[1]),
            },
            Distribution::Bimodal { fast_ms, slow_ms, p_slow } => Draw::Ms {
                ms: if unit(words[0]).less(p_slow) {
                    slow_ms
                } else {
                    fast_ms
                },
            },
            Distribution::Pareto { scale_ms, alpha } => Draw::Power {
                scale_ms,
                base: unity().minus(unit(words[0])),
                exponent: (Binary64 { bits: MINUS_ONE }).over(alpha),
            },
            Distribution::Empirical { samples_ms } => Draw::Ms {
                ms: samples_ms[uniform_draw(words, samples_ms.len() as u64).0 as int],
            },
        }
    }

    /// The words left after a draw from the stream `words`. The number taken
    /// depends on the kind of distribution, not on what else is drawn.
    pub open spec fn words_left(self, words: Map<nat, u64>) -> Map<nat, u64> {
        match self {
            Distribution::Constant { .. } => words,
            Distribution::Uniform { .. } => words,
            Distribution::LogNormal { .. } => shifted(shifted(words)),
            Distribution::Bimodal { .. } => shifted(words),
            Distribution::Pareto { .. } => shifted(words),
            Distribution::Empirical { samples_ms } => uniform_draw(
                words,
                samples_ms.len() as u64,
            ).1,
        }
    }

    /// A draw lies where the distribution has its weight, as far as arithmetic
    /// alone settles it. A power with a base of at most 1 and an exponent of at
    /// most 0 is at least 1, so that a Pareto draw is at least the scale.
    pub open spec fn supports(self, draw: Draw) -> bool {
        match self {
            Distribution::Constant { ms } => draw == (Draw::Ms { ms }),
            Distribution::Uniform { min_ms, max_ms } => draw == (Draw::Between { min_ms, max_ms }),
            Distribution::LogNormal { median_ms, sigma } => {
                &&& draw matches Draw::Normal { median_ms: m, sigma: s, u1, u2 }
                &&& m == median_ms
                &&& s == sigma
                &&& u1.positive() && u1.less(unity())
                &&& zero().less_or_equal(u2) && u2.less(unity())
            },
            Distribution::Bimodal { fast_ms, slow_ms, .. } => draw == (Draw::Ms { ms: fast_ms })
                || draw == (Draw::Ms { ms: slow_ms }),
            Distribution::Pareto { scale_ms, .. } => {
                &&& draw matches Draw::Power { scale_ms: s, base, exponent }
                &&& s == scale_ms
                &&& base.positive() && base.less_or_equal(unity())
                &&& exponent.less_or_equal(zero())
            },
            Distribution::Empirical { samples_ms } => {
                &&& draw matches Draw::Ms { ms }
                &&& samples_ms@.contains(ms)
            },
        }
    }

    /// One draw, in milliseconds. Callers supply the generator of one call
    /// site, never a shared one.
    pub fn sample_ms(&self, rng: &mut ChaCha8Rng) -> (r: Draw)
        requires
            self matches Distribution::Empirical { samples_ms } ==> samples_ms.len() > 0,
        ensures
            r == self.drawn(words(*old(rng))),
            words(*final(rng)) == self.words_left(words(*old(rng))),
            self matches Distribution::Empirical { samples_ms } ==> (r matches Draw::Ms { ms }
                && samples_ms@.contains(ms)),
            self.fault() is None ==> self.supports(r),
    {
        match self {
            Distribution::Constant { ms } => Draw::Ms { ms: *ms },
            Distribution::Uniform { min_ms, max_ms } => Draw::Between {
                min_ms: *min_ms,
                max_ms: *max_ms,
            },
            Distribution::LogNormal { median_ms, sigma } => {
                proof {
                    lemma_open_unit(words(*rng)[0]);
                    lemma_unit(words(*rng)[1]);
                }
                let u1: Binary64 = open_unit_draw(rng);
                let u2: Binary64 = unit_draw(rng);
                Draw::Normal { median_ms: *median_ms, sigma: *sigma, u1, u2 }
            },
            Distribution::Bimodal { fast_ms, slow_ms, p_slow } => {
                if unit_draw(rng).lt(*p_slow) {
                    Draw::Ms { ms: *slow_ms }
                } else {
                    Draw::Ms { ms: *fast_ms }
                }
            },
            Distribution::Pareto { scale_ms, alpha } => {
                proof {
                    lemma_unit(words(*rng)[0]);
                    lemma_base(unit(words(*rng)[0]));
                    if self.fault() is None {
                        lemma_exponent(*alpha);
                    }
                }
                let u: Binary64 = unit_draw(rng);
                Draw::Power {
                    scale_ms: *scale_ms,
                    base: Binary64::from_bits(ONE).sub(u),
                    exponent: Binary64::from_bits(MINUS_ONE).div(*alpha),
                }
            },
            Distribution::Empirical { samples_ms } => {
                let i: usize = index_draw(rng, samples_ms.len());
                Draw::Ms { ms: samples_ms[i] }
            },
        }
    }

    /// The `q`-quantile.
    pub open spec fn quantile(self, q: Binary64) -> Option<ClosedForm> {
        match self {
            Distribution::Constant { ms } => Some(ClosedForm::Ms { ms }),
            Distribution::Uniform { min_ms, max_ms } => Some(
                ClosedForm::Ms { ms: min_ms.plus(q.times(max_ms.minus(min_ms))) },
            ),
            Distribution::LogNormal { median_ms, sigma } => Some(
                if q.less_or_equal(zero()) {
                    // Nothing of it lies below zero.
                    ClosedForm::Ms { ms: zero() }
                } else {
                    ClosedForm::NormalQuantile { median_ms, sigma, q }
                },
            ),
            Distribution::Bimodal { fast_ms, slow_ms, p_slow } => Some(
                ClosedForm::Ms {
                    ms: if q.less(unity().minus(p_slow)) {
                        fast_ms
                    } else {
                        slow_ms
                    },
                },
            ),
            Distribution::Pareto { scale_ms, alpha } => Some(
                ClosedForm::Power {
                    scale_ms,
                    base: unity().minus(q),
                    exponent: (Binary64 { bits: MINUS_ONE }).over(alpha),
                },
            ),
            Distribution::Empirical { .. } => None,
        }
    }

    /// The closed-form quantile, or `None` for `Empirical`, whose order
    /// statistic takes its place.
    pub fn analytic_quantile(&self, q: Binary64) -> (r: Option<ClosedForm>)
        requires
            zero().less_or_equal(q),
            q.less(unity()),
        ensures
            r == self.quantile(q),
    {
        let one: Binary64 = Binary64::from_bits(ONE);
        match self {
            Distribution::Constant { ms } => Some(ClosedForm::Ms { ms: *ms }),
            Distribution::Uniform { min_ms, max_ms } => Some(
                ClosedForm::Ms { ms: min_ms.add(q.mul(max_ms.sub(*min_ms))) },
            ),
            Distribution::LogNormal { median_ms, sigma } => Some(
                if q.le(Binary64::from_bits(0)) {
                    ClosedForm::Ms { ms: Binary64::from_bits(0) }
                } else {
                    ClosedForm::NormalQuantile { median_ms: *median_ms, sigma: *sigma, q }
                },
            ),
            Distribution::Bimodal { fast_ms, slow_ms, p_slow } => Some(
                ClosedForm::Ms {
                    ms: if q.lt(one.sub(*p_slow)) {
                        *fast_ms
                    } else {
                        *slow_ms
                    },
                },
            ),
            Distribution::Pareto { scale_ms, alpha } => Some(
                ClosedForm::Power {
                    scale_ms: *scale_ms,
                    base: one.sub(q),
                    exponent: Binary64::from_bits(MINUS_ONE).div(*alpha),
                },
            ),
            Distribution::Empirical { .. } => None,
        }
    }

    /// The mean.
    pub open spec fn mean(self) -> ClosedForm {
        match self {
            Distribution::Constant { ms } => ClosedForm::Ms { ms },
            Distribution::Uniform { min_ms, max_ms } => ClosedForm::Ms {
                ms: min_ms.plus(max_ms).over(Binary64 { bits: TWO }),
            },
            Distribution::LogNormal { median_ms, sigma } => ClosedForm::Exponential {
                scale_ms: median_ms,
                exponent: sigma.times(sigma).over(Binary64 { bits: TWO }),
            },
            Distribution::Bimodal { fast_ms, slow_ms, p_slow } => ClosedForm::Ms {
                ms: fast_ms.times(unity().minus(p_slow)).plus(slow_ms.times(p_slow)),
            },
            Distribution::Pareto { scale_ms, alpha } => ClosedForm::Ms {
                ms: alpha.times(scale_ms).over(alpha.minus(unity())),
            },
            Distribution::Empirical { samples_ms } => ClosedForm::Ms {
                ms: sum_of(samples_ms@).over(whole(samples_ms.len() as nat)),
            },
        }
    }

    /// The mean in closed form.
    pub fn analytic_mean(&self) -> (r: Option<ClosedForm>)
        ensures
            r == Some(self.mean()),
    {
        let one: Binary64 = Binary64::from_bits(ONE);
        let two: Binary64 = Binary64::from_bits(TWO);
        Some(
            match self {
                Distribution::Constant { ms } => ClosedForm::Ms { ms: *ms },
                Distribution::Uniform { min_ms, max_ms } => ClosedForm::Ms {
                    ms: min_ms.add(*max_ms).div(two),
                },
                Distribution::LogNormal { median_ms, sigma } => ClosedForm::Exponential {
                    scale_ms: *median_ms,
                    exponent: sigma.mul(*sigma).div(two),
                },
                Distribution::Bimodal { fast_ms, slow_ms, p_slow } => ClosedForm::Ms {
                    ms: fast_ms.mul(one.sub(*p_slow)).add(slow_ms.mul(*p_slow)),
                },
                // Finite only for an alpha above 1, which validation asks for.
                Distribution::Pareto { scale_ms, alpha } => ClosedForm::Ms {
                    ms: alpha.mul(*scale_ms).div(alpha.sub(one)),
                },
                Distribution::Empirical { samples_ms } => ClosedForm::Ms {
                    ms: sum(samples_ms).div(from_u64(samples_ms.len() as u64)),
                },
            },
        )
    }
}

/// 0.01.
pub const HUNDREDTH: u64 = 0x3F84_7AE1_47AE_147B;

/// 1 - 0.01 is 0.99, once rounded.
proof fn lemma_all_but_a_hundredth()
    ensures
        settled(one() - (Binary64 { bits: HUNDREDTH }).units()) == (Binary64 { bits: Q99 }).units(),
{
    let h = Binary64 { bits: HUNDREDTH };
    let q = Binary64 { bits: Q99 };
    lemma_powers();
    lemma_pow2_pos(1015);
    lemma2_to64();
    lemma_pow2_adds(59, 1015);
    lemma_pow2_adds(6, 1015);
    lemma_pow2_adds(58, 1015);
    lemma_pow2_adds(32, 27);
    lemma_pow2_adds(32, 26);
    assert(pow2(59) == 0x800_0000_0000_0000);
    assert(pow2(58) == 0x400_0000_0000_0000);
    let c = pow2(1015);
    assert(one() == 0x800_0000_0000_0000 * c);
    assert(pow2(1073) == 0x400_0000_0000_0000 * c);
    lemma_fundamental_div_mod_converse(HUNDREDTH as int, HIDDEN as int, 0x3F8, 0x4_7AE1_47AE_147B);
    lemma_fundamental_div_mod_converse(Q99 as int, HIDDEN as int, 0x3FE, 0xF_AE14_7AE1_47AE);
    assert(h.units() == 0x14_7AE1_47AE_147B * c);
    assert(q.units() == 0x1F_AE14_7AE1_47AE * pow2(1021));
    assert(one() - h.units() == 0x7EB_851E_B851_EB85 * c && 0x7EB_851E_B851_EB85 * c > 0)
        by (nonlinear_arith)
        requires
            one() == 0x800_0000_0000_0000 * c,
            h.units() == 0x14_7AE1_47AE_147B * c,
            0 < c,
    ;
    let x = (one() - h.units()) as nat;
    let d = 1 * pow2(1021);
    assert(d == 64 * c);
    let k: nat = 0x1F_AE14_7AE1_47AE;
    assert(pow2(1073) <= x < pow2(1074) && k * d <= x < (k + 1) * d && 2 * (x - k * d) < d)
        by (nonlinear_arith)
        requires
            x == 0x7EB_851E_B851_EB85 * c,
            pow2(1073) == 0x400_0000_0000_0000 * c,
            pow2(1074) == 0x800_0000_0000_0000 * c,
            d == 64 * c,
            k == 0x1F_AE14_7AE1_47AE,
            c > 0,
    ;
    assert(1 * pow2(1073) == pow2(1073) && 1 * pow2(1074) == pow2(1074));
    lemma_nearest_magnitude_is(x, 1, 1021);
    lemma_nearest_integer_is(x, d, k);
}

/// Where more than one draw in a hundred is slow, the 99th percentile is the
/// slow one.
pub proof fn lemma_bimodal_p99(fast_ms: Binary64, slow_ms: Binary64, p_slow: Binary64)
    requires
        p_slow.finite(),
        (Binary64 { bits: HUNDREDTH }).less(p_slow),
    ensures
        (Distribution::Bimodal { fast_ms, slow_ms, p_slow }).quantile(Binary64 { bits: Q99 })
            == Some(ClosedForm::Ms { ms: slow_ms }),
{
    let q = Binary64 { bits: Q99 };
    lemma_all_but_a_hundredth();
    lemma_unity();
    lemma_signed(!p_slow.negative(), p_slow.magnitude());
    lemma_plus_units(unity(), p_slow.opposite());
    lemma_settled_monotone(one() - p_slow.units(), one() - (Binary64 { bits: HUNDREDTH }).units());
}

/// What is left of 1 lies in `(0, 1]`.
proof fn lemma_base(q: Binary64)
    requires
        zero().less_or_equal(q),
        q.less(unity()),
    ensures
        unity().minus(q).positive(),
        unity().minus(q).less_or_equal(unity()),
{
    let r = unity().minus(q);
    lemma_unity();
    assert(size_of_magnitude(0) == 0);
    lemma_size_ordered(q.magnitude(), ONE as nat);
    lemma_size_ordered(0, q.magnitude());
    lemma_signed(!q.negative(), q.magnitude());
    lemma_plus_units(unity(), q.opposite());
    lemma_powers();
    lemma_settled_short(1, 0);
    lemma_settled_short(1, 1074);
    assert(1 * pow2(0) == 1);
    assert(1 * one() == one());
    lemma_settled_monotone(1, one() - q.units());
    lemma_settled_monotone(one() - q.units(), one() as int);
    lemma_size_ordered(r.magnitude(), INFINITY as nat);
    lemma_size_increases(ONE as nat, INFINITY as nat);
}

/// `-1 / alpha` lies in `[-1, 0]`.
proof fn lemma_exponent(alpha: Binary64)
    requires
        alpha.finite(),
        unity().less(alpha),
    ensures
        (Binary64 { bits: MINUS_ONE }).over(alpha).less_or_equal(zero()),
        (Binary64 { bits: MINUS_ONE }).less_or_equal((Binary64 { bits: MINUS_ONE }).over(alpha)),
{
    let o = one();
    let m = rounded(o * o, alpha.size());
    lemma_unity();
    assert(size_of_magnitude(0) == 0);
    assert((o * o) * 1 <= o * alpha.size()) by (nonlinear_arith)
        requires
            o <= alpha.size(),
    ;
    lemma_rounded_monotone(o * o, alpha.size(), o, 1);
    lemma_rounded_exact(ONE as nat, 1);
    assert(size_of_magnitude(ONE as nat) * 1 == o);
    lemma_signed(true, m);
    lemma_size_ordered(m, ONE as nat);
}

impl ClosedForm {
    /// What the form comes to is a number, and not below zero, as far as
    /// arithmetic alone settles it: an exponential and a power of a positive
    /// base are positive.
    pub open spec fn not_below_zero(self) -> bool {
        match self {
            ClosedForm::Ms { ms } => zero().less_or_equal(ms),
            ClosedForm::NormalQuantile { median_ms, sigma, q } => median_ms.positive()
                && sigma.positive() && q.positive() && q.less(unity()),
            ClosedForm::Exponential { scale_ms, exponent } => scale_ms.positive()
                && !exponent.nan(),
            ClosedForm::Power { scale_ms, base, exponent } => scale_ms.positive()
                && base.positive() && !exponent.nan(),
        }
    }

    /// What `self` comes to is no more than what `other` comes to, as far as
    /// arithmetic alone settles it: normal quantiles grow with `q`, and powers
    /// with an exponent of at most 0 fall as the base grows.
    pub open spec fn at_most(self, other: Self) -> bool {
        match (self, other) {
            (ClosedForm::Ms { ms: a }, ClosedForm::Ms { ms: b }) => a.less_or_equal(b),
            (
                ClosedForm::Ms { ms },
                ClosedForm::NormalQuantile { .. },
            ) => ms.less_or_equal(zero()) && other.not_below_zero(),
            (
                ClosedForm::NormalQuantile { median_ms: m1, sigma: s1, q: q1 },
                ClosedForm::NormalQuantile { median_ms: m2, sigma: s2, q: q2 },
            ) => m1 == m2 && s1 == s2 && q1.less_or_equal(q2),
            (
                ClosedForm::Power { scale_ms: s1, base: b1, exponent: e1 },
                ClosedForm::Power { scale_ms: s2, base: b2, exponent: e2 },
            ) => s1 == s2 && e1 == e2 && e1.less_or_equal(zero()) && b2.less_or_equal(b1),
            _ => false,
        }
    }
}

/// Products of a number between 0 and 1 with one that is not below zero.
pub proof fn lemma_share(q: Binary64, x: Binary64)
    requires
        zero().less_or_equal(q),
        q.less(unity()),
        x.finite(),
        x.units() >= 0,
    ensures
        q.times(x).finite(),
        q.times(x).units() == size_of_magnitude(rounded(q.size() * x.size(), one())),
        q.times(x).units() <= x.units(),
{
    let m = rounded(q.size() * x.size(), one());
    lemma_unity();
    assert(size_of_magnitude(0) == 0);
    lemma_size_ordered(q.magnitude(), ONE as nat);
    lemma_size_ordered(0, q.magnitude());
    lemma_size_ordered(0, x.magnitude());
    assert(q.size() <= one());
    assert((q.size() * x.size()) * 1 <= x.size() * one()) by (nonlinear_arith)
        requires
            q.size() <= one(),
    ;
    lemma_rounded_monotone(q.size() * x.size(), one(), x.size(), 1);
    lemma_rounded_exact(x.magnitude(), 1);
    assert(x.size() * 1 == x.size());
    lemma_size_ordered(m, x.magnitude());
    let negative = q.negative() != x.negative();
    lemma_signed(negative, m);
    if negative {
        assert(q.size() * x.size() == 0) by (nonlinear_arith)
            requires
                q.size() == 0 || x.size() == 0,
        ;
        lemma_rounded_zero(one());
    }
}

/// A larger share is no smaller.
proof fn lemma_share_monotone(q1: Binary64, q2: Binary64, x: Binary64)
    requires
        zero().less_or_equal(q1),
        q1.less_or_equal(q2),
        q2.less(unity()),
        x.finite(),
        x.units() >= 0,
    ensures
        q1.times(x).finite(),
        q2.times(x).finite(),
        0 <= q1.times(x).units() <= q2.times(x).units(),
{
    lemma_unity();
    assert(size_of_magnitude(0) == 0);
    lemma_share(q1, x);
    lemma_share(q2, x);
    lemma_size_ordered(q1.magnitude(), q2.magnitude());
    let a = q1.size() * x.size();
    let b = q2.size() * x.size();
    assert(q1.size() <= q2.size());
    assert(a * one() <= b * one()) by (nonlinear_arith)
        requires
            q1.size() <= q2.size(),
            a == q1.size() * x.size(),
            b == q2.size() * x.size(),
    ;
    lemma_rounded_monotone(a, one(), b, one());
    lemma_size_ordered(rounded(a, one()), rounded(b, one()));
}

/// The width of a range of latencies is no more than its end.
pub proof fn lemma_width_bounded(min_ms: Binary64, max_ms: Binary64)
    requires
        min_ms.finite(),
        max_ms.finite(),
        0 <= min_ms.units() <= max_ms.units(),
    ensures
        max_ms.minus(min_ms).units() <= max_ms.units(),
{
    assert(size_of_magnitude(0) == 0);
    lemma_signed(!min_ms.negative(), min_ms.magnitude());
    lemma_plus_units(max_ms, min_ms.opposite());
    lemma_settled_monotone(max_ms.units() - min_ms.units(), max_ms.units());
    lemma_settled_exact(max_ms);
}

/// Half of a finite number is finite.
pub proof fn lemma_halved(s: Binary64)
    requires
        s.finite(),
    ensures
        s.over(Binary64 { bits: TWO }).finite(),
{
    let two = Binary64 { bits: TWO };
    lemma_unity();
    crate::validity::lemma_two();
    let x = s.size() * one();
    assert(x * 1 <= s.size() * two.size()) by (nonlinear_arith)
        requires
            x == s.size() * one(),
            one() <= two.size(),
    ;
    lemma_rounded_monotone(x, two.size(), s.size(), 1);
    lemma_rounded_exact(s.magnitude(), 1);
    assert(s.size() * 1 == s.size());
    lemma_signed(s.negative(), rounded(x, two.size()));
}

/// `1 / alpha` is finite.
pub proof fn lemma_exponent_finite(alpha: Binary64)
    requires
        alpha.finite(),
        unity().less(alpha),
    ensures
        rounded(one() * one(), alpha.size()) <= ONE,
{
    let o = one();
    lemma_unity();
    assert(size_of_magnitude(0) == 0);
    assert((o * o) * 1 <= o * alpha.size()) by (nonlinear_arith)
        requires
            o <= alpha.size(),
    ;
    lemma_rounded_monotone(o * o, alpha.size(), o, 1);
    lemma_rounded_exact(ONE as nat, 1);
    assert(size_of_magnitude(ONE as nat) * 1 == o);
}

/// The width of a range of latencies is a latency.
proof fn lemma_width(min_ms: Binary64, max_ms: Binary64)
    requires
        min_ms.finite(),
        max_ms.finite(),
        0 <= min_ms.units() <= max_ms.units(),
    ensures
        max_ms.minus(min_ms).finite(),
        max_ms.minus(min_ms).units() >= 0,
{
    let w = max_ms.minus(min_ms);
    assert(size_of_magnitude(0) == 0);
    lemma_signed(!min_ms.negative(), min_ms.magnitude());
    lemma_plus_units(max_ms, min_ms.opposite());
    let d = max_ms.units() - min_ms.units();
    lemma_settled_monotone(0, d);
    lemma_settled_monotone(d, max_ms.units());
    lemma_rounded_zero(1);
    lemma_settled_exact(max_ms);
    lemma_size_ordered(w.magnitude(), max_ms.magnitude());
}

#[verifier::rlimit(40)]
proof fn lemma_uniform_grows(min_ms: Binary64, max_ms: Binary64, q1: Binary64, q2: Binary64)
    requires
        (Distribution::Uniform { min_ms, max_ms }).fault() is None,
        zero().less_or_equal(q1),
        q1.less_or_equal(q2),
        q2.less(unity()),
    ensures
        ({
            let a = min_ms.plus(q1.times(max_ms.minus(min_ms)));
            let b = min_ms.plus(q2.times(max_ms.minus(min_ms)));
            a.less_or_equal(b) && zero().less_or_equal(a)
        }),
{
    let w = max_ms.minus(min_ms);
    assert(size_of_magnitude(0) == 0);
    lemma_width(min_ms, max_ms);
    lemma_share_monotone(q1, q2, w);
    let a = q1.times(w);
    let b = q2.times(w);
    lemma_rounded_zero(1);
    lemma_plus_units(min_ms, a);
    lemma_plus_units(min_ms, b);
    lemma_settled_monotone(min_ms.units() + a.units(), min_ms.units() + b.units());
    lemma_settled_monotone(0, min_ms.units() + a.units());
}

/// The closed forms at two quantiles are in order.
spec fn grows(d: Distribution, q1: Binary64, q2: Binary64) -> bool {
    &&& d.quantile(q1) matches Some(x1)
    &&& d.quantile(q2) matches Some(x2)
    &&& x1.not_below_zero()
    &&& x2.not_below_zero()
    &&& x1.at_most(x2)
}

/// A step from a latency up to another never falls.
proof fn lemma_step_grows(
    low: Binary64,
    high: Binary64,
    at: Binary64,
    q1: Binary64,
    q2: Binary64,
)
    requires
        low.not_negative(),
        high.finite(),
        low.units() <= high.units(),
        q1.less_or_equal(q2),
    ensures
        ({
            let a = if q1.less(at) {
                low
            } else {
                high
            };
            let b = if q2.less(at) {
                low
            } else {
                high
            };
            zero().less_or_equal(a) && zero().less_or_equal(b) && a.less_or_equal(b)
        }),
{
    assert(zero().units() == 0) by {
        assert(size_of_magnitude(0) == 0);
    }
}

#[verifier::rlimit(40)]
proof fn lemma_bimodal_grows(
    fast_ms: Binary64,
    slow_ms: Binary64,
    p_slow: Binary64,
    q1: Binary64,
    q2: Binary64,
)
    requires
        (Distribution::Bimodal { fast_ms, slow_ms, p_slow }).fault() is None,
        q1.less_or_equal(q2),
    ensures
        grows(Distribution::Bimodal { fast_ms, slow_ms, p_slow }, q1, q2),
{
    lemma_step_grows(fast_ms, slow_ms, unity().minus(p_slow), q1, q2);
}

#[verifier::rlimit(40)]
proof fn lemma_normal_grows(median_ms: Binary64, sigma: Binary64, q1: Binary64, q2: Binary64)
    requires
        (Distribution::LogNormal { median_ms, sigma }).fault() is None,
        zero().less_or_equal(q1),
        q1.less_or_equal(q2),
        q2.less(unity()),
    ensures
        grows(Distribution::LogNormal { median_ms, sigma }, q1, q2),
{
    assert(size_of_magnitude(0) == 0);
    lemma_size_ordered(q1.magnitude(), ONE as nat);
    lemma_size_ordered(q2.magnitude(), ONE as nat);
}

#[verifier::rlimit(40)]
proof fn lemma_pareto_grows(scale_ms: Binary64, alpha: Binary64, q1: Binary64, q2: Binary64)
    requires
        (Distribution::Pareto { scale_ms, alpha }).fault() is None,
        zero().less_or_equal(q1),
        q1.less_or_equal(q2),
        q2.less(unity()),
    ensures
        grows(Distribution::Pareto { scale_ms, alpha }, q1, q2),
{
    lemma_unity();
    assert(size_of_magnitude(0) == 0);
    lemma_base(q1);
    lemma_base(q2);
    lemma_exponent(alpha);
    lemma_size_ordered(q1.magnitude(), ONE as nat);
    lemma_size_ordered(q2.magnitude(), ONE as nat);
    lemma_signed(!q1.negative(), q1.magnitude());
    lemma_signed(!q2.negative(), q2.magnitude());
    lemma_plus_units(unity(), q1.opposite());
    lemma_plus_units(unity(), q2.opposite());
    lemma_settled_monotone(one() - q2.units(), one() - q1.units());
}

/// Quantiles grow with `q`. Every distribution but `Empirical` has one, which
/// is a number and not below zero.
#[verifier::rlimit(40)]
pub proof fn lemma_quantiles_grow(d: Distribution, q1: Binary64, q2: Binary64)
    requires
        d.fault() is None,
        zero().less_or_equal(q1),
        q1.less_or_equal(q2),
        q2.less(unity()),
    ensures
        d.quantile(q1) is None <==> d is Empirical,
        d.quantile(q2) is None <==> d is Empirical,
        d !is Empirical ==> {
            &&& d.quantile(q1)->0.not_below_zero()
            &&& d.quantile(q2)->0.not_below_zero()
            &&& d.quantile(q1)->0.at_most(d.quantile(q2)->0)
        },
{
    match d {
        Distribution::Constant { .. } => {
            assert(size_of_magnitude(0) == 0);
        },
        Distribution::Uniform { min_ms, max_ms } => {
            lemma_uniform_grows(min_ms, max_ms, q1, q2);
            lemma_uniform_grows(min_ms, max_ms, q2, q2);
        },
        Distribution::LogNormal { median_ms, sigma } => {
            lemma_normal_grows(median_ms, sigma, q1, q2);
        },
        Distribution::Bimodal { fast_ms, slow_ms, p_slow } => {
            lemma_bimodal_grows(fast_ms, slow_ms, p_slow, q1, q2);
        },
        Distribution::Pareto { scale_ms, alpha } => {
            lemma_pareto_grows(scale_ms, alpha, q1, q2);
        },
        Distribution::Empirical { .. } => {},
    }
}

/// A draw depends on the distribution and on the call site alone, whatever was
/// drawn before and elsewhere.
pub proof fn lemma_draws_by_call_site(
    d: Distribution,
    a: ChaCha8Rng,
    b: ChaCha8Rng,
    seed: u64,
    request_id: u64,
    downstream_id: u16,
    attempt: u32,
)
    requires
        words(a) == chacha8_words(call_seed(seed, request_id, downstream_id, attempt)),
        words(b) == chacha8_words(call_seed(seed, request_id, downstream_id, attempt)),
    ensures
        d.drawn(words(a)) == d.drawn(words(b)),
        d.words_left(words(a)) == d.words_left(words(b)),
{
}

} // verus!
