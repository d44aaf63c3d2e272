//! Bursty arrivals: gaps from a gamma distribution.
//!
//! The method of Marsaglia and Tsang: a normal number is turned into a
//! candidate, and accepted or not. Logarithms, roots and powers are handed in.

use vstd::arithmetic::div_mod::lemma_fundamental_div_mod_converse;
use vstd::arithmetic::power2::lemma2_to64;
use vstd::arithmetic::power2::lemma_pow2_adds;
use vstd::arithmetic::power2::lemma_pow2_pos;
use vstd::arithmetic::power2::pow2;
use vstd::prelude::*;

use crate::arithmetic::distance;
use crate::arithmetic::lemma_signed;
use crate::arithmetic::one;
use crate::arithmetic::signed;
use crate::binary64::lemma_size_increases;
use crate::binary64::lemma_size_ordered;
use crate::binary64::size_of_magnitude;
use crate::binary64::unity;
use crate::binary64::zero;
use crate::binary64::Binary64;
use crate::binary64::HALF;
use crate::binary64::HIDDEN;
use crate::binary64::ONE;
use crate::means::lemma_difference_near;
use crate::means::lemma_product_near;
use crate::ranks::lemma_unity;
use crate::rounding::lemma_powers;
use crate::rounding::lemma_rounded_exact;
use crate::rounding::rounded;

verus! {

/// 1/3.
pub const THIRD: u64 = 0x3FD5_5555_5555_5555;

/// 9.
pub const NINE: u64 = 0x4022_0000_0000_0000;

/// The shape of gaps with this coefficient of variation.
pub open spec fn shape_of(cv: Binary64) -> Binary64 {
    unity().over(cv.times(cv))
}

/// The scale at which gaps of this shape have this mean rate.
pub open spec fn scale_of(rate: Binary64, shape: Binary64) -> Binary64 {
    unity().over(rate.times(shape))
}

/// The shape and the scale of gaps with this mean rate and this coefficient of
/// variation.
pub fn burst_parameters(rate: Binary64, cv: Binary64) -> (r: (Binary64, Binary64))
    ensures
        r.0 == shape_of(cv),
        r.1 == scale_of(rate, shape_of(cv)),
{
    let one: Binary64 = Binary64::from_bits(ONE);
    let shape: Binary64 = one.div(cv.mul(cv));
    (shape, one.div(rate.mul(shape)))
}

/// Whether the shape is below 1, and a draw of the next shape is to be scaled
/// down.
pub fn needs_boost(shape: Binary64) -> (r: bool)
    ensures
        r == shape.less(unity()),
{
    shape.lt(Binary64::from_bits(ONE))
}

/// The constants of a shape: `d`, and nine times `d`, whose root is needed.
pub fn shape_constants(shape: Binary64) -> (r: (Binary64, Binary64))
    ensures
        r.0 == shape.minus(Binary64 { bits: THIRD }),
        r.1 == (Binary64 { bits: NINE }).times(r.0),
{
    let d: Binary64 = shape.sub(Binary64::from_bits(THIRD));
    (d, Binary64::from_bits(NINE).mul(d))
}

/// `1 + x / root`.
pub open spec fn base_of(root: Binary64, x: Binary64) -> Binary64 {
    unity().plus(unity().over(root).times(x))
}

/// The cube of `1 + x / root`, where it is above zero.
pub open spec fn candidate_of(root: Binary64, x: Binary64) -> Option<Binary64> {
    let w = base_of(root, x);
    let v = w.times(w).times(w);
    if v.less_or_equal(zero()) {
        None
    } else {
        Some(v)
    }
}

/// The candidate of the normal number `x`. `None` where it is not above zero,
/// and another number is to be drawn.
pub fn candidate(root: Binary64, x: Binary64) -> (r: Option<Binary64>)
    ensures
        r == candidate_of(root, x),
{
    let one: Binary64 = Binary64::from_bits(ONE);
    let w: Binary64 = one.add(one.div(root).mul(x));
    let v: Binary64 = w.mul(w).mul(w);
    if v.le(Binary64::from_bits(0)) {
        None
    } else {
        Some(v)
    }
}

/// Whether the candidate `v` is taken, given the logarithms of a uniform
/// number and of `v`.
pub fn accepted(ln_u: Binary64, x: Binary64, d: Binary64, v: Binary64, ln_v: Binary64) -> (r: bool)
    ensures
        r == ln_u.less(
            (Binary64 { bits: HALF }).times(x).times(x).plus(d).minus(d.times(v)).plus(
                d.times(ln_v),
            ),
        ),
{
    let bound: Binary64 = Binary64::from_bits(HALF).mul(x).mul(x).add(d).sub(d.mul(v)).add(
        d.mul(ln_v),
    );
    ln_u.lt(bound)
}

/// A number times 1 is the number.
proof fn lemma_times_unity(x: Binary64)
    requires
        !x.nan(),
    ensures
        x.times(unity()) == x,
{
    lemma_unity();
    assert(signed(x.negative(), x.magnitude()) == x);
    if x.finite() {
        lemma_rounded_exact(x.magnitude(), one());
    } else {
        lemma_size_increases(0, x.magnitude());
        assert(size_of_magnitude(0) == 0);
    }
}

/// Poisson arrivals are the bursts of a coefficient of variation of 1: the
/// shape is 1, and the scale is the mean gap.
pub proof fn lemma_poisson_is_a_special_case(rate: Binary64)
    requires
        !rate.nan(),
    ensures
        shape_of(unity()) == unity(),
        scale_of(rate, shape_of(unity())) == unity().over(rate),
{
    lemma_unity();
    lemma_times_unity(unity());
    lemma_times_unity(rate);
    lemma_rounded_exact(ONE as nat, one());
}

/// A candidate is above zero, and is the cube of what it is made of: as near to
/// it as two products come. There is none where `1 + x / root` is not above
/// zero.
pub proof fn lemma_candidate(root: Binary64, x: Binary64)
    requires
        base_of(root, x).finite(),
        base_of(root, x).times(base_of(root, x)).times(base_of(root, x)).finite(),
        base_of(root, x).times(base_of(root, x)).finite(),
    ensures
        base_of(root, x).units() <= 0 ==> candidate_of(root, x) is None,
        candidate_of(root, x) matches Some(v) ==> {
            let w = base_of(root, x);
            let square = w.times(w);
            &&& v.units() > 0
            &&& 0x20_0000_0000_0000 * distance(square.units() * one() - w.units() * w.units())
                <= w.units() * w.units() + one() * 0x10_0000_0000_0000
            &&& 0x20_0000_0000_0000 * distance(v.units() * one() - square.units() * w.units())
                <= square.units() * w.units() + one() * 0x10_0000_0000_0000
        },
        candidate_of(root, x) is None ==> base_of(root, x).times(base_of(root, x)).times(
            base_of(root, x),
        ).units() <= 0,
{
    let w = base_of(root, x);
    let square = w.times(w);
    let v = square.times(w);
    assert(size_of_magnitude(0) == 0);
    lemma_unity();
    lemma_size_ordered(0, w.magnitude());
    lemma_signed(false, rounded(w.size() * w.size(), one()));
    lemma_signed(w.negative(), rounded(square.size() * w.size(), one()));
    if w.units() > 0 {
        lemma_product_near(w, w);
        lemma_product_near(square, w);
    } else if !w.negative() {
        assert(square.size() * 0 == 0) by (nonlinear_arith);
        crate::order::lemma_rounded_zero(one());
    }
}

/// The constants of a shape: a third less than it, and nine times that.
pub proof fn lemma_shape_constants(shape: Binary64)
    requires
        shape.finite(),
        unity().less_or_equal(shape),
        (Binary64 { bits: NINE }).times(shape.minus(Binary64 { bits: THIRD })).finite(),
    ensures
        ({
            let d = shape.minus(Binary64 { bits: THIRD });
            let n = (Binary64 { bits: NINE }).times(d);
            &&& 0x20_0000_0000_0000 * distance(3 * d.units() - (3 * shape.units() - one())) <= 3
                * shape.units() + 3 * 0x10_0000_0000_0000
            &&& 0x20_0000_0000_0000 * distance(n.units() - 9 * d.units()) <= 9 * d.units()
                + 0x10_0000_0000_0000
        }),
{
    let o = one();
    let third = Binary64 { bits: THIRD };
    let nine = Binary64 { bits: NINE };
    let d = shape.minus(third);
    let n = nine.times(d);
    assert(size_of_magnitude(0) == 0);
    lemma_unity();
    lemma_thirds();
    lemma_difference_near(shape, third);
    lemma_product_near(nine, d);
    let y = n.units();
    let x = d.units();
    assert(0x20_0000_0000_0000 * distance(y - 9 * x) <= 9 * x + 0x10_0000_0000_0000)
        by (nonlinear_arith)
        requires
            0x20_0000_0000_0000 * distance(y * o - (9 * o) * x) <= (9 * o) * x + o
                * 0x10_0000_0000_0000,
            o > 0,
    ;
}

proof fn lemma_thirds()
    ensures
        (Binary64 { bits: THIRD }).not_negative(),
        0 < (Binary64 { bits: THIRD }).units() < one(),
        0 <= 0x40_0000_0000_0000 * (one() - 3 * (Binary64 { bits: THIRD }).units()) <= one(),
        (Binary64 { bits: NINE }).not_negative(),
        (Binary64 { bits: NINE }).units() == 9 * one(),
{
    let a = pow2(1020);
    let b = pow2(1025);
    lemma_powers();
    lemma2_to64();
    lemma_pow2_pos(1020);
    lemma_pow2_adds(54, 1020);
    lemma_pow2_adds(49, 1025);
    lemma_pow2_adds(32, 22);
    lemma_pow2_adds(32, 17);
    lemma_fundamental_div_mod_converse(THIRD as int, HIDDEN as int, 0x3FD, 0x5_5555_5555_5555);
    lemma_fundamental_div_mod_converse(NINE as int, HIDDEN as int, 0x402, 0x2_0000_0000_0000);
    assert((Binary64 { bits: THIRD }).units() == 0x15_5555_5555_5555 * a);
    assert((Binary64 { bits: NINE }).units() == 0x12_0000_0000_0000 * b);
    assert((9 * 0x2_0000_0000_0000) * b == 9 * (0x2_0000_0000_0000 * b)) by (nonlinear_arith);
}

} // verus!
