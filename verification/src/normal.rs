//! Acklam's approximation of the inverse normal distribution function.
//!
//! Accurate to about 1.15e-9, far tighter than the sampling error of a run.
//! The rational functions are evaluated here. The argument of the tails, a
//! root of a logarithm, is handed in.

use vstd::arithmetic::power2::lemma_pow2_adds;
use vstd::arithmetic::power2::lemma_pow2_pos;
use vstd::arithmetic::power2::pow2;
use vstd::prelude::*;

use crate::arithmetic::distance;
use crate::arithmetic::lemma_signed;
use crate::arithmetic::one;
use crate::arithmetic::signed;
use crate::binary64::lemma_size_ordered;
use crate::binary64::size_of_magnitude;
use crate::binary64::unity;
use crate::binary64::zero;
use crate::binary64::Binary64;
use crate::binary64::HALF;
use crate::binary64::HIDDEN;
use crate::binary64::INFINITY;
use crate::binary64::ONE;
use crate::binary64::SIGN;
use crate::order::lemma_rounded_zero;
use crate::ranks::lemma_unity;
use crate::rounding::lemma_powers;
use crate::rounding::lemma_rounded_exact;
use crate::rounding::rounded;

verus! {

/// 0.02425: below it lies the lower tail.
pub const P_LOW: u64 = 0x3F98_D4FD_F3B6_45A2;

/// 1 - 0.02425: above it lies the upper tail.
pub const P_HIGH: u64 = 0x3FEF_3958_1062_4DD3;

/// Which of the three approximations a probability calls for.
#[derive(Clone, Copy, Debug, PartialEq, Eq, Structural)]
pub enum Region {
    Lower,
    Central,
    Upper,
}

/// The polynomial with these coefficients, highest power first.
pub open spec fn polynomial(coefficients: Seq<u64>, x: Binary64) -> Binary64
    decreases coefficients.len(),
{
    if coefficients.len() <= 1 {
        Binary64 { bits: coefficients[0] }
    } else {
        polynomial(coefficients.drop_last(), x).times(x).plus(
            Binary64 { bits: coefficients.last() },
        )
    }
}

pub open spec fn central_top() -> Seq<u64> {
    seq![
        0xC043_D931_BC1E_0525,
        0x406B_9E46_7034_039B,
        0xC071_3EDB_2DC5_3B99,
        0x4061_4B72_B40B_401B,
        0xC03E_AA30_34C0_8BCD,
        0x4004_0D93_2057_5479,
    ]
}

pub open spec fn central_bottom() -> Seq<u64> {
    seq![
        0xC04B_3CF0_CE30_04C4,
        0x4064_32BF_2CF0_4277,
        0xC063_765E_0B02_D8D2,
        0x4050_B348_B1A7_E9BE,
        0xC02A_8FB5_7E14_7826,
        ONE,
    ]
}

pub open spec fn tail_top() -> Seq<u64> {
    seq![
        0xBF7F_E30D_924A_CFE0,
        0xBFD4_A224_C0E8_81B8,
        0xC003_34C0_C170_1758,
        0xC004_65DA_2C70_3A1A,
        0x4011_7FA7_F4EA_4DC7,
        0x4007_815C_1E3F_CFA2,
    ]
}

pub open spec fn tail_bottom() -> Seq<u64> {
    seq![
        0x3F7F_E2D8_57AC_9FD4,
        0x3FD4_A34D_2B59_0364,
        0x4003_8FA2_7C8A_E616,
        0x400E_0907_6895_B119,
        ONE,
    ]
}

pub open spec fn region_of(p: Binary64) -> Region {
    if p.less(Binary64 { bits: P_LOW }) {
        Region::Lower
    } else if p.less_or_equal(Binary64 { bits: P_HIGH }) {
        Region::Central
    } else {
        Region::Upper
    }
}

/// The approximation of the region that `p` lies in, where `root` is the
/// argument of the tails.
pub open spec fn approximation(p: Binary64, root: Binary64) -> Binary64 {
    match region_of(p) {
        Region::Lower => polynomial(tail_top(), root).over(polynomial(tail_bottom(), root)),
        Region::Central => {
            let q = p.minus(Binary64 { bits: HALF });
            let r = q.times(q);
            polynomial(central_top(), r).times(q).over(polynomial(central_bottom(), r))
        },
        Region::Upper => polynomial(tail_top(), root).opposite().over(
            polynomial(tail_bottom(), root),
        ),
    }
}

/// The quantile of the standard normal distribution. Below all of it lies
/// minus infinity.
pub open spec fn normal_quantile(p: Binary64, root: Binary64) -> Binary64 {
    if p.less_or_equal(zero()) {
        signed(true, INFINITY as nat)
    } else {
        approximation(p, root)
    }
}

/// Evaluates a polynomial from its highest power down.
fn horner(coefficients: &Vec<u64>, x: Binary64) -> (r: Binary64)
    requires
        coefficients.len() > 0,
    ensures
        r == polynomial(coefficients@, x),
{
    let mut acc: Binary64 = Binary64::from_bits(coefficients[0]);
    let mut i: usize = 1;
    while i < coefficients.len()
        invariant
            1 <= i <= coefficients.len(),
            acc == polynomial(coefficients@.take(i as int), x),
        decreases coefficients.len() - i,
    {
        proof {
            let next = coefficients@.take(i + 1);
            assert(next.drop_last() =~= coefficients@.take(i as int));
        }
        acc = acc.mul(x).add(Binary64::from_bits(coefficients[i]));
        i = i + 1;
    }
    assert(coefficients@.take(i as int) =~= coefficients@);
    acc
}

/// Which approximation `p` calls for. In the lower tail the root is
/// `sqrt(-2 ln p)`, in the upper `sqrt(-2 ln (1 - p))`; the central region has
/// none.
pub fn normal_region(p: Binary64) -> (r: Region)
    ensures
        r == region_of(p),
{
    if p.lt(Binary64::from_bits(P_LOW)) {
        Region::Lower
    } else if p.le(Binary64::from_bits(P_HIGH)) {
        Region::Central
    } else {
        Region::Upper
    }
}

/// The quantile of the standard normal distribution.
pub fn inverse_standard_normal_cdf(p: Binary64, root: Binary64) -> (r: Binary64)
    requires
        zero().less_or_equal(p),
        p.less(unity()),
    ensures
        r == normal_quantile(p, root),
{
    if p.le(Binary64::from_bits(0)) {
        Binary64::from_bits(INFINITY).neg()
    } else {
        approximate(p, root)
    }
}

fn approximate(p: Binary64, root: Binary64) -> (r: Binary64)
    ensures
        r == approximation(p, root),
{
    let region: Region = normal_region(p);
    if region == Region::Central {
        let top: Vec<u64> = vec![
            0xC043_D931_BC1E_0525,
            0x406B_9E46_7034_039B,
            0xC071_3EDB_2DC5_3B99,
            0x4061_4B72_B40B_401B,
            0xC03E_AA30_34C0_8BCD,
            0x4004_0D93_2057_5479,
        ];
        let bottom: Vec<u64> = vec![
            0xC04B_3CF0_CE30_04C4,
            0x4064_32BF_2CF0_4277,
            0xC063_765E_0B02_D8D2,
            0x4050_B348_B1A7_E9BE,
            0xC02A_8FB5_7E14_7826,
            ONE,
        ];
        assert(top@ =~= central_top());
        assert(bottom@ =~= central_bottom());
        let q: Binary64 = p.sub(Binary64::from_bits(HALF));
        let r: Binary64 = q.mul(q);
        horner(&top, r).mul(q).div(horner(&bottom, r))
    } else {
        let top: Vec<u64> = vec![
            0xBF7F_E30D_924A_CFE0,
            0xBFD4_A224_C0E8_81B8,
            0xC003_34C0_C170_1758,
            0xC004_65DA_2C70_3A1A,
            0x4011_7FA7_F4EA_4DC7,
            0x4007_815C_1E3F_CFA2,
        ];
        let bottom: Vec<u64> = vec![
            0x3F7F_E2D8_57AC_9FD4,
            0x3FD4_A34D_2B59_0364,
            0x4003_8FA2_7C8A_E616,
            0x400E_0907_6895_B119,
            ONE,
        ];
        assert(top@ =~= tail_top());
        assert(bottom@ =~= tail_bottom());
        let t: Binary64 = horner(&top, root);
        let b: Binary64 = horner(&bottom, root);
        if region == Region::Lower {
            t.div(b)
        } else {
            t.neg().div(b)
        }
    }
}

/// The same number with the other sign; nothing where there is no number.
pub open spec fn mirrored(a: Binary64, b: Binary64) -> bool {
    if a.nan() {
        b.nan()
    } else {
        b == a.opposite()
    }
}

proof fn lemma_times_mirrored(a: Binary64, b: Binary64)
    requires
        !b.nan(),
    ensures
        mirrored(a.times(b), a.times(b.opposite())),
{
    lemma_signed(!b.negative(), b.magnitude());
    let m = rounded(a.size() * b.size(), one());
    lemma_signed(true, m);
    lemma_signed(false, m);
    lemma_signed(true, INFINITY as nat);
    lemma_signed(false, INFINITY as nat);
}

proof fn lemma_over_mirrored(a: Binary64, b: Binary64, c: Binary64)
    requires
        mirrored(a, b),
    ensures
        mirrored(a.over(c), b.over(c)),
{
    if !a.nan() {
        lemma_signed(!a.negative(), a.magnitude());
        let m = rounded(a.size() * one(), c.size());
        lemma_signed(true, m);
        lemma_signed(false, m);
        lemma_signed(true, 0);
        lemma_signed(false, 0);
        lemma_signed(true, INFINITY as nat);
        lemma_signed(false, INFINITY as nat);
    }
}

/// 0.5 is half of 1, and what lies between them is counted in steps of 2^-53.
proof fn lemma_upper_half(p: Binary64)
    requires
        !p.negative(),
        HALF <= p.magnitude() < ONE,
    ensures
        p.size() == (HIDDEN + p.magnitude() % (HIDDEN as nat)) * pow2(1021),
        2 * (HIDDEN * pow2(1021)) == one(),
        (Binary64 { bits: HALF }).units() == HIDDEN * pow2(1021),
        pow2(1021) == 32 * pow2(1016),
        pow2(1016) > 0,
{
    lemma_powers();
    vstd::arithmetic::power2::lemma2_to64();
    lemma_pow2_adds(53, 1021);
    lemma_pow2_adds(5, 1016);
    lemma_pow2_pos(1016);
    assert(p.magnitude() / (HIDDEN as nat) == 1022);
    assert(HALF as nat / HIDDEN as nat == 1022 && HALF as nat % HIDDEN as nat == 0);
}

/// The edges of the central region.
proof fn lemma_edges()
    ensures
        (Binary64 { bits: P_LOW }).units() == 0x18_D4FD_F3B6_45A2 * pow2(1016),
        (Binary64 { bits: P_HIGH }).units() == 0x1F_3958_1062_4DD3 * pow2(1021),
{
    assert(P_LOW as nat / HIDDEN as nat == 1017 && P_LOW as nat % HIDDEN as nat
        == 0x8_D4FD_F3B6_45A2);
    assert(P_HIGH as nat / HIDDEN as nat == 1022 && P_HIGH as nat % HIDDEN as nat
        == 0xF_3958_1062_4DD3);
}

/// Two probabilities that add up to 1 call for the same approximation, or for
/// the two tails.
proof fn lemma_regions_mirror(p: Binary64, other: Binary64)
    requires
        p.positive(),
        p.less(other),
        p.units() + other.units() == one(),
        other.bits != P_HIGH,
    ensures
        region_of(p) == Region::Lower ==> region_of(other) == Region::Upper,
        region_of(p) == Region::Central ==> region_of(other) == Region::Central,
        region_of(p) != Region::Upper,
{
    lemma_unity();
    assert(size_of_magnitude(0) == 0);
    lemma_size_ordered(other.magnitude(), ONE as nat);
    lemma_upper_half(Binary64 { bits: HALF });
    lemma_size_ordered(other.magnitude(), HALF as nat);
    lemma_upper_half(other);
    lemma_edges();
    let c = pow2(1021);
    let s = pow2(1016);
    let j = HIDDEN + other.magnitude() % (HIDDEN as nat);
    let h = 0x1F_3958_1062_4DD3int;
    lemma_size_ordered(other.magnitude(), P_HIGH as nat);
    assert(j != h);
    if j >= h + 1 {
        assert(j * c >= (h + 1) * c) by (nonlinear_arith)
            requires
                j >= h + 1,
        ;
        assert((h + 1) * c == h * c + c) by (nonlinear_arith);
    } else {
        assert(j * c <= (h - 1) * c) by (nonlinear_arith)
            requires
                j <= h - 1,
        ;
        assert((h - 1) * c == h * c - c) by (nonlinear_arith);
    }
}

/// How far two probabilities that add up to 1 are from 0.5.
proof fn lemma_centres_mirror(p: Binary64, other: Binary64)
    requires
        p.positive(),
        other.finite(),
        p.less(other),
        p.units() + other.units() == one(),
    ensures
        ({
            let half = Binary64 { bits: HALF };
            &&& !p.minus(half).nan()
            &&& other.minus(half) == p.minus(half).opposite()
        }),
{
    let half = Binary64 { bits: HALF };
    lemma_upper_half(half);
    lemma_signed(true, half.magnitude());
    let m = rounded(distance(p.units() - half.units()), 1);
    lemma_signed(true, m);
    lemma_signed(false, m);
}

proof fn lemma_centre_mirrored(top: Binary64, q: Binary64, bottom: Binary64)
    requires
        !q.nan(),
    ensures
        q.opposite().times(q.opposite()) == q.times(q),
        mirrored(top.times(q).over(bottom), top.times(q.opposite()).over(bottom)),
{
    assert(q.opposite().times(q.opposite()) == q.times(q)) by {
        lemma_signed(!q.negative(), q.magnitude());
    }
    lemma_times_mirrored(top, q);
    lemma_over_mirrored(top.times(q), top.times(q.opposite()), bottom);
}

proof fn lemma_tail_mirrored(top: Binary64, bottom: Binary64)
    ensures
        mirrored(top.over(bottom), top.opposite().over(bottom)),
{
    lemma_signed(!top.negative(), top.magnitude());
    lemma_over_mirrored(top, top.opposite(), bottom);
}

proof fn lemma_approximations_mirror(p: Binary64, other: Binary64, root: Binary64)
    requires
        p.positive(),
        other.finite(),
        p.less(other),
        p.units() + other.units() == one(),
        other.bits != P_HIGH,
    ensures
        mirrored(approximation(p, root), approximation(other, root)),
{
    lemma_regions_mirror(p, other);
    if region_of(p) == Region::Lower {
        lemma_tail_mirrored(polynomial(tail_top(), root), polynomial(tail_bottom(), root));
    } else {
        lemma_centres_mirror(p, other);
        let q = p.minus(Binary64 { bits: HALF });
        let r = q.times(q);
        lemma_centre_mirrored(
            polynomial(central_top(), r),
            q,
            polynomial(central_bottom(), r),
        );
    }
}

/// The quantiles of two probabilities that add up to 1 are opposite. They share
/// the argument of the tails: one's distance from 1 is the other. Left out is
/// the edge of the central region, where one lies inside and the other does
/// not.
pub proof fn lemma_quantiles_mirror(p: Binary64, other: Binary64, root: Binary64)
    requires
        p.positive(),
        p.less(other),
        p.units() + other.units() == one(),
        other.bits != P_HIGH,
    ensures
        mirrored(normal_quantile(p, root), normal_quantile(other, root)),
{
    assert(zero().units() == 0 && other.finite()) by {
        lemma_unity();
        assert(size_of_magnitude(0) == 0);
        lemma_size_ordered(other.magnitude(), ONE as nat);
    }
    lemma_approximations_mirror(p, other, root);
}

/// At 0 a polynomial is its last coefficient.
proof fn lemma_polynomial_at_zero(coefficients: Seq<u64>)
    requires
        coefficients.len() > 0,
        forall|i: int|
            0 <= i < coefficients.len() ==> 0 < #[trigger] coefficients[i] % SIGN < INFINITY,
    ensures
        polynomial(coefficients, zero()) == (Binary64 { bits: coefficients.last() }),
    decreases coefficients.len(),
{
    if coefficients.len() > 1 {
        let before = coefficients.drop_last();
        let a = Binary64 { bits: before.last() };
        let b = Binary64 { bits: coefficients.last() };
        assert forall|i: int| 0 <= i < before.len() implies 0 < #[trigger] before[i] % SIGN
            < INFINITY by {
            assert(before[i] == coefficients[i]);
        }
        lemma_polynomial_at_zero(before);
        assert(a.finite());
        assert(size_of_magnitude(0) == 0);
        lemma_size_ordered(0, b.magnitude());
        lemma_pow2_pos(1074);
        lemma_rounded_zero(one());
        assert(a.size() * 0 == 0) by (nonlinear_arith);
        lemma_signed(a.negative(), 0);
        lemma_rounded_exact(b.magnitude(), 1);
        assert(b.size() * 1 == b.size());
        assert(distance(b.units()) == b.size());
        lemma_signed(b.negative(), b.magnitude());
    }
}

/// The central approximation at its centre.
proof fn lemma_centre()
    ensures
        ({
            let r = polynomial(central_top(), zero()).times(zero()).over(
                polynomial(central_bottom(), zero()),
            );
            !r.nan() && r.units() == 0
        }),
{
    let top = central_top();
    let bottom = central_bottom();
    assert(forall|i: int| 0 <= i < top.len() ==> 0 < #[trigger] top[i] % SIGN < INFINITY);
    assert(forall|i: int| 0 <= i < bottom.len() ==> 0 < #[trigger] bottom[i] % SIGN < INFINITY);
    lemma_polynomial_at_zero(top);
    lemma_polynomial_at_zero(bottom);
    let a = polynomial(top, zero());
    let b = polynomial(bottom, zero());
    assert(b == unity());
    lemma_unity();
    assert(size_of_magnitude(0) == 0);
    lemma_rounded_zero(one());
    assert(a.size() * 0 == 0) by (nonlinear_arith);
    lemma_signed(a.negative(), 0);
    assert(0 * one() == 0) by (nonlinear_arith);
}

/// The median of the standard normal distribution is 0.
pub proof fn lemma_median(root: Binary64)
    ensures
        ({
            let r = normal_quantile(Binary64 { bits: HALF }, root);
            !r.nan() && r.units() == 0
        }),
{
    let half = Binary64 { bits: HALF };
    assert(region_of(half) == Region::Central && !half.less_or_equal(zero())) by {
        assert(size_of_magnitude(0) == 0);
        lemma_size_ordered(half.magnitude(), 0);
        lemma_size_ordered(half.magnitude(), P_LOW as nat);
        lemma_size_ordered(half.magnitude(), P_HIGH as nat);
    }
    let q = half.minus(half);
    assert(q == zero()) by {
        lemma_signed(true, half.magnitude());
    }
    assert(q.times(q) == zero()) by {
        let n = zero().size();
        assert(n == 0);
        assert(n * n == 0) by (nonlinear_arith)
            requires
                n == 0,
        ;
        lemma_unity();
        lemma_rounded_zero(one());
    }
    lemma_centre();
}

} // verus!
