//! Order: no operation reverses it.

use vstd::arithmetic::power2::lemma_pow2_pos;
use vstd::prelude::*;

use crate::arithmetic::distance;
use crate::arithmetic::lemma_signed;
use crate::arithmetic::one;
use crate::binary64::lemma_size_ordered;
use crate::binary64::size_of_magnitude;
use crate::binary64::Binary64;
use crate::conversion::nanoseconds;
use crate::conversion::whole;
use crate::rounding::lemma_nearest_integer_monotone;
use crate::rounding::lemma_rounded_exact;
use crate::rounding::lemma_rounded_monotone;
use crate::rounding::rounded;

verus! {

/// What `x` units come to once rounded.
pub open spec fn settled(x: int) -> int {
    if x < 0 {
        -(size_of_magnitude(rounded(distance(x), 1)) as int)
    } else {
        size_of_magnitude(rounded(distance(x), 1)) as int
    }
}

/// Sizes compare as the bits do, also when equal.
pub proof fn lemma_size_monotone(a: nat, b: nat)
    requires
        a <= b,
    ensures
        size_of_magnitude(a) <= size_of_magnitude(b),
{
    lemma_size_ordered(a, b);
}

/// Zero is its own rounding.
pub proof fn lemma_rounded_zero(d: nat)
    requires
        d > 0,
    ensures
        rounded(0, d) == 0,
{
    lemma_rounded_exact(0, d);
    assert(size_of_magnitude(0) == 0);
    assert(0 * d == 0) by (nonlinear_arith);
}

pub proof fn lemma_settled_monotone(x: int, y: int)
    requires
        x <= y,
    ensures
        settled(x) <= settled(y),
{
    if x >= 0 {
        lemma_rounded_monotone(distance(x), 1, distance(y), 1);
        lemma_size_monotone(rounded(distance(x), 1), rounded(distance(y), 1));
    } else if y < 0 {
        lemma_rounded_monotone(distance(y), 1, distance(x), 1);
        lemma_size_monotone(rounded(distance(y), 1), rounded(distance(x), 1));
    }
}

/// What a sum of finite numbers is worth.
pub proof fn lemma_plus_units(a: Binary64, b: Binary64)
    requires
        a.finite(),
        b.finite(),
    ensures
        !a.plus(b).nan(),
        a.plus(b).units() == settled(a.units() + b.units()),
{
    let sum = a.units() + b.units();
    assert(size_of_magnitude(0) == 0);
    lemma_rounded_zero(1);
    if sum == 0 {
        lemma_signed(a.negative() && b.negative(), 0);
    } else {
        lemma_signed(sum < 0, rounded(distance(sum), 1));
    }
}

/// Adding the same number to two numbers keeps their order.
pub proof fn lemma_plus_monotone(a: Binary64, b: Binary64, c: Binary64)
    requires
        a.finite(),
        b.finite(),
        c.finite(),
        a.less_or_equal(b),
    ensures
        a.plus(c).less_or_equal(b.plus(c)),
{
    lemma_plus_units(a, c);
    lemma_plus_units(b, c);
    lemma_settled_monotone(a.units() + c.units(), b.units() + c.units());
}

/// Taking the same number from two numbers keeps their order.
pub proof fn lemma_minus_monotone(a: Binary64, b: Binary64, c: Binary64)
    requires
        a.finite(),
        b.finite(),
        c.finite(),
        a.less_or_equal(b),
    ensures
        a.minus(c).less_or_equal(b.minus(c)),
{
    lemma_signed(!c.negative(), c.magnitude());
    lemma_plus_monotone(a, b, c.opposite());
}

/// A representable number is what it settles to.
pub proof fn lemma_settled_exact(a: Binary64)
    requires
        !a.nan(),
    ensures
        settled(a.units()) == a.units(),
{
    assert(size_of_magnitude(0) == 0);
    lemma_rounded_zero(1);
    lemma_rounded_exact(a.magnitude(), 1);
    assert(a.size() * 1 == a.size());
    assert(distance(a.units()) == a.size());
}

/// Adding what is not below zero never makes a number smaller.
pub proof fn lemma_plus_grows(a: Binary64, b: Binary64)
    requires
        a.finite(),
        b.not_negative(),
    ensures
        a.less_or_equal(a.plus(b)),
{
    lemma_plus_units(a, b);
    lemma_settled_monotone(a.units(), a.units() + b.units());
    lemma_settled_exact(a);
}

/// Taking away what is not below zero never makes a number larger.
pub proof fn lemma_minus_shrinks(a: Binary64, b: Binary64)
    requires
        a.finite(),
        b.not_negative(),
    ensures
        a.minus(b).less_or_equal(a),
{
    lemma_signed(!b.negative(), b.magnitude());
    lemma_plus_units(a, b.opposite());
    lemma_settled_monotone(a.units() - b.units(), a.units());
    lemma_settled_exact(a);
}

/// What an integer converts to is worth its rounding.
pub proof fn lemma_whole_units(n: nat)
    ensures
        !whole(n).nan(),
        !whole(n).negative(),
        whole(n).magnitude() == rounded(n * one(), 1),
        whole(n).units() == settled((n * one()) as int),
{
    lemma_signed(false, rounded(n * one(), 1));
}

/// Converting integers keeps their order.
pub proof fn lemma_whole_monotone(a: nat, b: nat)
    requires
        a <= b,
    ensures
        whole(a).less_or_equal(whole(b)),
{
    lemma_whole_units(a);
    lemma_whole_units(b);
    assert(a * one() <= b * one()) by (nonlinear_arith)
        requires
            a <= b,
    ;
    lemma_settled_monotone((a * one()) as int, (b * one()) as int);
}

/// Dividing two numbers by the same positive number keeps their order.
pub proof fn lemma_over_monotone(a: Binary64, b: Binary64, c: Binary64)
    requires
        a.finite() && !a.negative(),
        b.finite() && !b.negative(),
        c.positive() && !c.negative(),
        a.less_or_equal(b),
    ensures
        a.over(c).less_or_equal(b.over(c)),
        !a.over(c).negative(),
        !b.over(c).negative(),
{
    lemma_pow2_pos(1074);
    let x = a.size() * one();
    let y = b.size() * one();
    let d = c.size();
    assert(x * d <= y * d) by (nonlinear_arith)
        requires
            x == a.size() * one(),
            y == b.size() * one(),
            a.size() <= b.size(),
    ;
    lemma_rounded_monotone(x, d, y, d);
    lemma_signed(false, rounded(x, d));
    lemma_signed(false, rounded(y, d));
    lemma_size_monotone(rounded(x, d), rounded(y, d));
}

/// A later time has no fewer nanoseconds.
pub proof fn lemma_nanoseconds_monotone(a: Binary64, b: Binary64)
    requires
        a.units() >= 0,
        a.less_or_equal(b),
    ensures
        nanoseconds(a) <= nanoseconds(b),
{
    lemma_pow2_pos(1074);
    lemma_nearest_integer_monotone(
        a.size() * 1_000_000_000,
        b.size() * 1_000_000_000,
        one(),
    );
}

} // verus!
