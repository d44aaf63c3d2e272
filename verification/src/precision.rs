//! How far rounding goes.
//!
//! A number is rounded by at most half of its last place: by one part in 2^53,
//! or, among the smallest numbers, by half a unit.

use vstd::arithmetic::div_mod::lemma_fundamental_div_mod;
use vstd::arithmetic::div_mod::lemma_fundamental_div_mod_converse;
use vstd::arithmetic::power2::lemma_pow2_unfold;
use vstd::arithmetic::power2::pow2;
use vstd::prelude::*;

use crate::binary64::size_of_magnitude;
use crate::binary64::HIDDEN;
use crate::binary64::INFINITY;
use crate::order::lemma_size_monotone;
use crate::rounding::lemma_nearest_magnitude_floor;
use crate::rounding::lemma_powers;
use crate::rounding::nearest_integer;
use crate::rounding::nearest_magnitude;
use crate::rounding::rounded;

verus! {

/// Rounding to an integer moves by at most a half.
pub proof fn lemma_nearest_integer_close(n: nat, d: nat)
    requires
        d > 0,
    ensures
        2 * n <= 2 * (d * nearest_integer(n, d)) + d,
        2 * (d * nearest_integer(n, d)) <= 2 * n + d,
{
    let q = n / d;
    lemma_fundamental_div_mod(n as int, d as int);
    assert(d * (q + 1) == d * q + d) by (nonlinear_arith);
}

/// One step up in the exponent doubles the size.
proof fn lemma_next_exponent(m: nat)
    requires
        m >= HIDDEN,
    ensures
        size_of_magnitude(HIDDEN as nat + m) == 2 * size_of_magnitude(m),
{
    let h = HIDDEN as int;
    let e = m as int / h;
    let f = m as int % h;
    lemma_fundamental_div_mod(m as int, h);
    assert((e + 1) * h == h * e + h) by (nonlinear_arith);
    lemma_fundamental_div_mod_converse(h + m, h, e + 1, f);
    assert(e >= 1) by (nonlinear_arith)
        requires
            m == h * e + f,
            m >= h,
            f < h,
            h > 0,
    ;
    lemma_pow2_unfold(e as nat);
    let p = pow2((e - 1) as nat);
    let a = (h + f) as nat;
    assert(a * (2 * p) == 2 * (a * p)) by (nonlinear_arith);
}

/// Up to 2^53, bits are worth what they count.
proof fn lemma_small_size(k: nat)
    requires
        k <= 0x20_0000_0000_0000,
    ensures
        size_of_magnitude(k) == k,
{
    lemma_powers();
    let h = HIDDEN as nat;
    if k == 2 * h {
        lemma_fundamental_div_mod_converse(k as int, h as int, 2, 0);
        assert((h + 0) * pow2(1) == 2 * h);
    } else if k >= h {
        lemma_fundamental_div_mod_converse(k as int, h as int, 1, k - h);
        assert((h + (k - h)) * pow2(0) == k) by (nonlinear_arith)
            requires
                pow2(0) == 1,
                k >= h,
        ;
    } else {
        lemma_fundamental_div_mod_converse(k as int, h as int, 0, k as int);
    }
}

/// Numbers of at least 53 digits move by at most one part in 2^53.
proof fn lemma_magnitude_close(n: nat, d: nat)
    requires
        d > 0,
        n >= d * HIDDEN,
    ensures
        (d * size_of_magnitude(nearest_magnitude(n, d))) * 0x20_0000_0000_0000 <= n
            * 0x20_0000_0000_0001,
        (d * size_of_magnitude(nearest_magnitude(n, d))) * 0x20_0000_0000_0000 >= n
            * 0x1F_FFFF_FFFF_FFFF,
    decreases n - d,
{
    reveal(nearest_magnitude);
    if n < d * 0x20_0000_0000_0000 {
        let k = nearest_integer(n, d);
        lemma_nearest_integer_close(n, d);
        assert(k <= 0x20_0000_0000_0000) by (nonlinear_arith)
            requires
                2 * (d * k) <= 2 * n + d,
                n < d * 0x20_0000_0000_0000,
                d > 0,
        ;
        lemma_small_size(k);
    } else {
        let m = nearest_magnitude(n, 2 * d);
        assert(n >= (2 * d) * HIDDEN) by (nonlinear_arith)
            requires
                n >= d * 0x20_0000_0000_0000,
        ;
        assert(n > d) by (nonlinear_arith)
            requires
                n >= d * 0x20_0000_0000_0000,
                d > 0,
        ;
        lemma_magnitude_close(n, 2 * d);
        lemma_nearest_magnitude_floor(n, 2 * d);
        lemma_next_exponent(m);
        let s = size_of_magnitude(m);
        assert(d * (2 * s) == (2 * d) * s) by (nonlinear_arith);
    }
}

/// Rounding moves a number up by at most one part in 2^53 and half a unit.
pub proof fn lemma_rounded_not_far_up(n: nat, d: nat)
    requires
        d > 0,
    ensures
        (d * size_of_magnitude(rounded(n, d))) * 0x20_0000_0000_0000 <= n * 0x20_0000_0000_0001 + d
            * 0x10_0000_0000_0000,
{
    let m = nearest_magnitude(n, d);
    lemma_magnitude_small_or_close(n, d);
    lemma_size_monotone(rounded(n, d), m);
    let a = size_of_magnitude(rounded(n, d));
    let b = size_of_magnitude(m);
    assert(d * a <= d * b) by (nonlinear_arith)
        requires
            a <= b,
    ;
}

/// Rounding moves a number down by at most one part in 2^53 and half a unit,
/// as long as it stays finite.
pub proof fn lemma_rounded_not_far_down(n: nat, d: nat)
    requires
        d > 0,
        rounded(n, d) < INFINITY,
    ensures
        (d * size_of_magnitude(rounded(n, d))) * 0x20_0000_0000_0000 + d * 0x10_0000_0000_0000 >= n
            * 0x1F_FFFF_FFFF_FFFF,
{
    lemma_magnitude_small_or_close(n, d);
}

proof fn lemma_magnitude_small_or_close(n: nat, d: nat)
    requires
        d > 0,
    ensures
        (d * size_of_magnitude(nearest_magnitude(n, d))) * 0x20_0000_0000_0000 <= n
            * 0x20_0000_0000_0001 + d * 0x10_0000_0000_0000,
        (d * size_of_magnitude(nearest_magnitude(n, d))) * 0x20_0000_0000_0000 + d
            * 0x10_0000_0000_0000 >= n * 0x1F_FFFF_FFFF_FFFF,
{
    reveal(nearest_magnitude);
    if n >= d * HIDDEN {
        lemma_magnitude_close(n, d);
    } else {
        let k = nearest_integer(n, d);
        lemma_nearest_integer_close(n, d);
        assert(k <= 0x20_0000_0000_0000) by (nonlinear_arith)
            requires
                2 * (d * k) <= 2 * n + d,
                n < d * 0x10_0000_0000_0000,
                d > 0,
        ;
        assert(n < d * 0x20_0000_0000_0000) by (nonlinear_arith)
            requires
                n < d * 0x10_0000_0000_0000,
        ;
        lemma_small_size(k);
    }
}

} // verus!
