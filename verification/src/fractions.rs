//! Percentages as numbers.
//!
//! A quantile that is named after a percentage is taken at the number nearest
//! to that many hundredths.

use vstd::arithmetic::power2::lemma2_to64;
use vstd::arithmetic::power2::lemma_pow2_adds;
use vstd::arithmetic::power2::lemma_pow2_pos;
use vstd::arithmetic::power2::pow2;
use vstd::prelude::*;

use crate::arithmetic::one;
use crate::arithmetic::signed;
use crate::binary64::lemma_size_ordered;
use crate::binary64::Binary64;
use crate::binary64::HIDDEN;
use crate::distributions::Distribution;
use crate::loadgen::Quantile;
use crate::normal::region_of;
use crate::normal::Region;
use crate::normal::P_HIGH;
use crate::normal::P_LOW;
use crate::report::Report;
use crate::rounding::lemma_nearest_integer_is;
use crate::rounding::lemma_nearest_magnitude_is;
use crate::rounding::lemma_powers;
use crate::rounding::rounded;

verus! {

/// The number nearest to `a / b`.
pub open spec fn nearest_fraction(a: nat, b: nat) -> Binary64 {
    signed(false, rounded(a * one(), b))
}

/// A fraction from 1/2 up to 1, to 53 digits.
proof fn lemma_fraction(a: nat, b: nat, digits: nat)
    requires
        0 < b,
        b <= 2 * a < 2 * b,
        HIDDEN <= digits < 0x20_0000_0000_0000,
        -(b as int) < 2 * (b * digits - a * 0x20_0000_0000_0000) < b,
    ensures
        rounded(a * one(), b) == 1021 * HIDDEN + digits,
{
    let c = pow2(1021);
    let x = a * one();
    let d = b * c;
    lemma_powers();
    lemma_pow2_pos(1021);
    lemma_pow2_adds(53, 1021);
    lemma_pow2_adds(52, 1021);
    let off = b * digits - a * 0x20_0000_0000_0000;
    let e = off * c;
    assert(x == digits * d - e) by (nonlinear_arith)
        requires
            x == a * (0x20_0000_0000_0000 * c),
            d == b * c,
            e == off * c,
            off == b * digits - a * 0x20_0000_0000_0000,
    ;
    assert(-d < 2 * e < d) by (nonlinear_arith)
        requires
            e == off * c,
            d == b * c,
            -(b as int) < 2 * off < b,
            c > 0,
    ;
    assert(b * pow2((52 + 1021) as nat) <= x < b * pow2((53 + 1021) as nat)) by (nonlinear_arith)
        requires
            x == a * one(),
            2 * pow2((52 + 1021) as nat) == one(),
            pow2((53 + 1021) as nat) == one(),
            b <= 2 * a < 2 * b,
            one() > 0,
    ;
    lemma_nearest_magnitude_is(x, b, 1021);
    assert((digits + 1) * d == digits * d + d) by (nonlinear_arith);
    assert((digits - 1) * d == digits * d - d) by (nonlinear_arith);
    if e <= 0 {
        lemma_nearest_integer_is(x, d, digits);
    } else {
        lemma_nearest_integer_is(x, d, (digits - 1) as nat);
    }
}

/// The quantile named after a percentage lies above that many hundredths: p50
/// is taken at 50/100, p90 at 90/100, p99 at 99/100.
pub proof fn lemma_named_after_percentages()
    ensures
        Quantile::P50.fraction() == nearest_fraction(50, 100),
        Quantile::P90.fraction() == nearest_fraction(90, 100),
        Quantile::P99.fraction() == nearest_fraction(99, 100),
{
    lemma_fraction(50, 100, 0x10_0000_0000_0000);
    lemma_fraction(90, 100, 0x1C_CCCC_CCCC_CCCD);
    lemma_fraction(99, 100, 0x1F_AE14_7AE1_47AE);
}

/// What is set side by side belongs together: the measured p50 and the closed
/// form at a half, the measured p90 and that at nine tenths, the measured p99
/// and that at ninety-nine hundredths.
pub proof fn lemma_compared_like_with_like(report: Report, dist: Distribution)
    ensures
        Quantile::P50.measured(report) == report.p50,
        dist.quantile(Quantile::P50.fraction()) == dist.quantile(nearest_fraction(1, 2)),
        Quantile::P90.measured(report) == report.p90,
        dist.quantile(Quantile::P90.fraction()) == dist.quantile(nearest_fraction(9, 10)),
        Quantile::P99.measured(report) == report.p99,
        dist.quantile(Quantile::P99.fraction()) == dist.quantile(nearest_fraction(99, 100)),
{
    lemma_named_after_percentages();
    lemma_fraction(1, 2, 0x10_0000_0000_0000);
    lemma_fraction(9, 10, 0x1C_CCCC_CCCC_CCCD);
    lemma_fraction(50, 100, 0x10_0000_0000_0000);
    lemma_fraction(90, 100, 0x1C_CCCC_CCCC_CCCD);
}

/// A fraction from 1/64 up to 1/32, to 53 digits.
proof fn lemma_small_fraction(a: nat, b: nat, digits: nat)
    requires
        0 < b,
        b <= 64 * a < 2 * b,
        HIDDEN <= digits < 0x20_0000_0000_0000,
        -(b as int) < 2 * (b * digits - a * 0x400_0000_0000_0000) < b,
    ensures
        rounded(a * one(), b) == 1016 * HIDDEN + digits,
{
    let c = pow2(1016);
    let x = a * one();
    let d = b * c;
    lemma_powers();
    lemma2_to64();
    lemma_pow2_pos(1016);
    lemma_pow2_adds(32, 26);
    lemma_pow2_adds(58, 1016);
    lemma_pow2_adds(52, 1016);
    lemma_pow2_adds(53, 1016);
    lemma_pow2_adds(6, (52 + 1016) as nat);
    lemma_pow2_adds(5, (53 + 1016) as nat);
    let off = b * digits - a * 0x400_0000_0000_0000;
    let e = off * c;
    assert(x == digits * d - e) by (nonlinear_arith)
        requires
            x == a * (0x400_0000_0000_0000 * c),
            d == b * c,
            e == off * c,
            off == b * digits - a * 0x400_0000_0000_0000,
    ;
    assert(-d < 2 * e < d) by (nonlinear_arith)
        requires
            e == off * c,
            d == b * c,
            -(b as int) < 2 * off < b,
            c > 0,
    ;
    assert(b * pow2((52 + 1016) as nat) <= x < b * pow2((53 + 1016) as nat)) by (nonlinear_arith)
        requires
            x == a * one(),
            64 * pow2((52 + 1016) as nat) == one(),
            32 * pow2((53 + 1016) as nat) == one(),
            b <= 64 * a < 2 * b,
            one() > 0,
    ;
    lemma_nearest_magnitude_is(x, b, 1016);
    assert((digits + 1) * d == digits * d + d) by (nonlinear_arith);
    assert((digits - 1) * d == digits * d - d) by (nonlinear_arith);
    if e <= 0 {
        lemma_nearest_integer_is(x, d, digits);
    } else {
        lemma_nearest_integer_is(x, d, (digits - 1) as nat);
    }
}

/// The tails of the normal distribution begin at 2.425 percent from either end,
/// and the centre reaches up to both of these.
pub proof fn lemma_regions(p: Binary64)
    requires
        p.finite(),
    ensures
        region_of(p) == Region::Lower <==> p.units() < nearest_fraction(2_425, 100_000).units(),
        region_of(p) == Region::Upper <==> nearest_fraction(97_575, 100_000).units() < p.units(),
{
    lemma_small_fraction(2_425, 100_000, 0x18_D4FD_F3B6_45A2);
    lemma_fraction(97_575, 100_000, 0x1F_3958_1062_4DD3);
    assert(nearest_fraction(2_425, 100_000) == (Binary64 { bits: P_LOW }));
    assert(nearest_fraction(97_575, 100_000) == (Binary64 { bits: P_HIGH }));
    lemma_size_ordered(P_LOW as nat, P_HIGH as nat);
}

} // verus!
