//! Ranks and tail sizes as whole numbers.
//!
//! A quantile such as 0.99 has no exact representation, and neither has most
//! of its multiples. Ranks and tail sizes come out as they do with exact
//! fractions all the same: ranks in populations of up to 2^43 values, tails in
//! those of up to 117964899.

use vstd::arithmetic::div_mod::lemma_fundamental_div_mod;
use vstd::arithmetic::div_mod::lemma_fundamental_div_mod_converse;
use vstd::arithmetic::power2::lemma_pow2_adds;
use vstd::arithmetic::power2::lemma_pow2_pos;
use vstd::arithmetic::power2::lemma_pow2_unfold;
use vstd::arithmetic::power2::pow2;
use vstd::prelude::*;

use crate::arithmetic::distance;
use crate::arithmetic::lemma_signed;
use crate::arithmetic::one;
use crate::binary64::lemma_size_increases;
use crate::binary64::lemma_size_ordered;
use crate::binary64::size_of_magnitude;
use crate::binary64::unity;
use crate::binary64::Binary64;
use crate::binary64::HIDDEN;
use crate::binary64::INFINITY;
use crate::binary64::ONE;
use crate::config::TOLERANCE;
use crate::conversion::half_up;
use crate::conversion::next_whole;
use crate::conversion::whole;
use crate::order::lemma_plus_units;
use crate::order::lemma_settled_monotone;
use crate::order::settled;
use crate::report::after_warmup;
use crate::report::aggregates;
use crate::report::lemma_sorted_values;
use crate::report::rank_of;
use crate::report::robust_ceiling;
use crate::report::scores;
use crate::report::tail_size;
use crate::report::warmup_end;
use crate::report::Report;
use crate::report::ReportInput;
use crate::report::Q50;
use crate::report::Q90;
use crate::report::Q99;
use crate::report::Q999;
use crate::rounding::lemma_nearest_integer_is;
use crate::rounding::lemma_nearest_integer_scaled;
use crate::rounding::lemma_nearest_magnitude_is;
use crate::rounding::lemma_powers;
use crate::rounding::lemma_rounded_exact;
use crate::rounding::lemma_rounded_scaled;
use crate::rounding::nearest_integer;
use crate::rounding::rounded;
use crate::seconds::lemma_whole_exact;

verus! {

/// Numbers of at most 53 digits are represented exactly.
pub proof fn lemma_representable(k: nat, e: nat) -> (m: nat)
    requires
        k < 0x20_0000_0000_0000,
        e <= 2000,
    ensures
        m < INFINITY,
        size_of_magnitude(m) == k * pow2(e),
    decreases e,
{
    lemma_powers();
    if k >= HIDDEN {
        let m = (e + 1) * (HIDDEN as nat) + (k - HIDDEN) as nat;
        lemma_fundamental_div_mod_converse(m as int, HIDDEN as int, (e + 1) as int, k - HIDDEN);
        m
    } else if e == 0 {
        assert(k * pow2(0) == k) by (nonlinear_arith)
            requires
                pow2(0) == 1,
        ;
        k
    } else {
        lemma_pow2_unfold(e);
        assert((2 * k) * pow2((e - 1) as nat) == k * (2 * pow2((e - 1) as nat)))
            by (nonlinear_arith);
        lemma_representable(2 * k, (e - 1) as nat)
    }
}

/// Numbers of at most 53 digits are their own rounding.
pub proof fn lemma_settled_short(k: nat, e: nat)
    requires
        k < 0x20_0000_0000_0000,
        e <= 2000,
    ensures
        settled((k * pow2(e)) as int) == k * pow2(e),
        settled(-((k * pow2(e)) as int)) == -((k * pow2(e)) as int),
{
    let m = lemma_representable(k, e);
    let x = k * pow2(e);
    lemma_rounded_exact(m, 1);
    assert(x * 1 == x);
    assert(distance(x as int) == x && distance(-(x as int)) == x);
    if x == 0 {
        assert(-(x as int) == 0);
    }
}

/// The powers of two between the digits of a quantile and 1.
pub proof fn lemma_scales()
    ensures
        pow2(1021) > 0,
        one() == 0x20_0000_0000_0000 * pow2(1021),
        pow2(1044) == 0x80_0000 * pow2(1021),
        pow2(1064) == 0x800_0000_0000 * pow2(1021),
        pow2(1044) == HIDDEN * pow2(992),
        pow2(992) > 0,
{
    lemma_powers();
    vstd::arithmetic::power2::lemma2_to64();
    lemma_pow2_pos(1021);
    lemma_pow2_pos(992);
    lemma_pow2_adds(53, 1021);
    lemma_pow2_adds(23, 1021);
    lemma_pow2_adds(11, 32);
    lemma_pow2_adds(43, 1021);
    lemma_pow2_adds(52, 992);
}

/// A number within 2^-30 of a whole one counts as that one.
proof fn lemma_near_whole(x: Binary64, m: nat)
    requires
        x.finite(),
        !x.negative(),
        1 <= m < 0x20_0000_0000_0000,
        m * one() - pow2(1044) <= x.units() <= m * one() + pow2(1044),
    ensures
        robust_ceiling(x) == m,
{
    lemma_scales();
    let c = pow2(1021);
    let p = pow2(1044);
    let o = one();
    assert(m * o <= x.size() + p && x.size() <= m * o + p);
    // The nearest integer.
    assert(half_up(x.size()) == m) by {
        let y = 2 * x.size() + o;
        assert((2 * o) * m == 2 * (m * o)) by (nonlinear_arith);
        lemma_fundamental_div_mod_converse(y as int, (2 * o) as int, m as int, y - (2 * o) * m);
    }
    let r = x.nearest_whole();
    assert(r == whole(m));
    lemma_whole_exact(m);
    crate::order::lemma_whole_units(m);
    lemma_whole_finite(m);
    // What lies between the two.
    let gap = x.minus(r);
    lemma_signed(true, r.magnitude());
    assert(r.opposite().units() == -(m * o));
    lemma_plus_units(x, r.opposite());
    let d = x.units() - m * o;
    lemma_settled_short(1, 1044);
    assert(1 * p == p);
    lemma_settled_monotone(-(p as int), d);
    lemma_settled_monotone(d, p as int);
    lemma_signed(false, gap.magnitude());
    let t = Binary64 { bits: TOLERANCE };
    assert(t.size() == 0x11_2E0B_E826_D695 * pow2(992)) by {
        lemma_fundamental_div_mod_converse(
            TOLERANCE as int,
            HIDDEN as int,
            0x3E1,
            0x1_2E0B_E826_D695,
        );
    }
    assert(gap.absolute().less(t));
    lemma_fundamental_div_mod_converse(r.size() as int, o as int, m as int, 0);
}

/// Whole numbers of at most 53 digits are finite.
proof fn lemma_whole_finite(m: nat)
    requires
        m < 0x20_0000_0000_0000,
    ensures
        whole(m).finite(),
{
    lemma_whole_exact(m);
    crate::order::lemma_whole_units(m);
    let k = lemma_representable(m, 1074);
    lemma_size_ordered(whole(m).magnitude(), k);
}

/// A number that keeps 2^-10 away from the whole ones counts as the next.
proof fn lemma_between_wholes(x: Binary64, m: nat)
    requires
        x.finite(),
        !x.negative(),
        m < 0x800_0000_0000,
        m * one() + pow2(1064) <= x.units() <= (m + 1) * one() - pow2(1064),
    ensures
        robust_ceiling(x) == m + 1,
{
    lemma_scales();
    let g = pow2(1064);
    let o = one();
    assert((m + 1) * o == m * o + o) by (nonlinear_arith);
    let h = half_up(x.size());
    assert(h == m || h == m + 1) by {
        let y = 2 * x.size() + o;
        assert((2 * o) * m == 2 * (m * o)) by (nonlinear_arith);
        assert((2 * o) * (m + 1) == 2 * (m * o) + 2 * o) by (nonlinear_arith);
        assert((m + 1) * (2 * o) == (2 * o) * (m + 1)) by (nonlinear_arith);
        if y < (2 * o) * (m + 1) {
            lemma_fundamental_div_mod_converse(y as int, (2 * o) as int, m as int, y - (2 * o) * m);
        } else {
            lemma_fundamental_div_mod_converse(
                y as int,
                (2 * o) as int,
                (m + 1) as int,
                y - (2 * o) * (m + 1),
            );
        }
    }
    let r = x.nearest_whole();
    assert(r == whole(h));
    lemma_whole_exact(h);
    crate::order::lemma_whole_units(h);
    lemma_whole_finite(h);
    let gap = x.minus(r);
    lemma_signed(true, r.magnitude());
    assert(r.opposite().units() == -(h * o));
    lemma_plus_units(x, r.opposite());
    let d = x.units() - h * o;
    lemma_settled_short(1, 1064);
    assert(1 * g == g);
    if h == m {
        lemma_settled_monotone(g as int, d);
    } else {
        lemma_settled_monotone(d, -(g as int));
    }
    lemma_signed(false, gap.magnitude());
    let t = Binary64 { bits: TOLERANCE };
    assert(t.size() == 0x11_2E0B_E826_D695 * pow2(992)) by {
        lemma_fundamental_div_mod_converse(
            TOLERANCE as int,
            HIDDEN as int,
            0x3E1,
            0x1_2E0B_E826_D695,
        );
    }
    assert(!gap.absolute().less(t));
    assert(next_whole(x.size()) == m + 1) by {
        let y = (x.size() + o - 1) as nat;
        assert(o * (m + 1) == m * o + o) by (nonlinear_arith);
        lemma_fundamental_div_mod_converse(y as int, o as int, (m + 1) as int, y - o * (m + 1));
    }
    let up = x.ceiling();
    assert(up == whole(m + 1));
    lemma_whole_exact(m + 1);
    crate::order::lemma_whole_units(m + 1);
    lemma_whole_finite(m + 1);
    lemma_fundamental_div_mod_converse(up.size() as int, o as int, (m + 1) as int, 0);
}

/// A quantile with these digits behind the point.
pub open spec fn has_digits(q: Binary64, digits: nat) -> bool {
    &&& q.finite()
    &&& !q.negative()
    &&& q.size() == digits * pow2(1021)
}

/// A product with a whole number, once rounded.
pub proof fn lemma_share_of(q: Binary64, digits: nat, n: nat)
    requires
        has_digits(q, digits),
        digits <= 0x20_0000_0000_0000,
        n < 0x20_0000_0000_0000,
    ensures
        q.times(whole(n)).finite(),
        !q.times(whole(n)).negative(),
        q.times(whole(n)).units() == settled((q.size() * n) as int),
{
    let x = q.times(whole(n));
    let s = q.size();
    let o = one();
    lemma_scales();
    lemma_whole_exact(n);
    crate::order::lemma_whole_units(n);
    lemma_whole_finite(n);
    assert(s * (n * o) == o * (s * n)) by (nonlinear_arith);
    assert(o * 1 == o);
    lemma_rounded_scaled(s * n, 1, o);
    let magnitude = rounded(s * n, 1);
    lemma_signed(false, magnitude);
    assert(distance((s * n) as int) == s * n);
    // Not more than `n`.
    assert(s * n <= n * o) by (nonlinear_arith)
        requires
            s == digits * pow2(1021),
            o == 0x20_0000_0000_0000 * pow2(1021),
            digits <= 0x20_0000_0000_0000,
    ;
    lemma_settled_monotone((s * n) as int, (n * o) as int);
    lemma_settled_short(n, 1074);
    lemma_size_ordered(magnitude, whole(n).magnitude());
}

/// How far the digits of a quantile are off the fraction `a / b`, `b` times.
spec fn off_by(digits: nat, a: nat, b: nat) -> int {
    b * digits - a * 0x20_0000_0000_0000
}

/// The digits of a quantile stand for the fraction `a / b`.
spec fn stands_for(digits: nat, a: nat, b: nat) -> bool {
    &&& digits <= 0x20_0000_0000_0000
    &&& 0 < a < b <= 1000
    &&& -8 <= off_by(digits, a, b) <= 8
}

/// A share that is not a whole number counts as the next one.
proof fn lemma_share_in_part(q: Binary64, digits: nat, a: nat, b: nat, n: nat)
    requires
        has_digits(q, digits),
        stands_for(digits, a, b),
        n <= 0x800_0000_0000,
        (a * n) % b > 0,
    ensures
        robust_ceiling(q.times(whole(n))) == (a * n) / b + 1,
{
    let x = q.times(whole(n));
    let c = pow2(1021);
    let o = one();
    let s = q.size();
    let off = off_by(digits, a, b);
    lemma_scales();
    lemma_share_of(q, digits, n);
    let m = (a * n) / b;
    let j = (a * n) % b;
    lemma_fundamental_div_mod((a * n) as int, b as int);
    assert(m < 0x800_0000_0000) by (nonlinear_arith)
        requires
            a * n == b * m + j,
            a < b,
            j > 0,
            n <= 0x800_0000_0000,
    ;
    let e = off * n;
    assert(-0x4000_0000_0000 <= e <= 0x4000_0000_0000) by (nonlinear_arith)
        requires
            e == off * n,
            -8 <= off <= 8,
            0 <= n <= 0x800_0000_0000,
    ;
    let v = b * m * 0x20_0000_0000_0000 + j * 0x20_0000_0000_0000 + e;
    assert(b * digits * n == v) by (nonlinear_arith)
        requires
            b * digits == a * 0x20_0000_0000_0000 + off,
            a * n == b * m + j,
            e == off * n,
            v == b * m * 0x20_0000_0000_0000 + j * 0x20_0000_0000_0000 + e,
    ;
    let lo = m * 1024 + 1;
    let hi = m * 1024 + 1023;
    assert(b * (lo * 0x800_0000_0000) == b * m * 0x20_0000_0000_0000 + b * 0x800_0000_0000 && b * (hi
        * 0x800_0000_0000) == b * m * 0x20_0000_0000_0000 + b * 0x1F_F800_0000_0000)
        by (nonlinear_arith)
        requires
            lo == m * 1024 + 1,
            hi == m * 1024 + 1023,
    ;
    lemma_bound(b, digits, n, lo * 0x800_0000_0000, hi * 0x800_0000_0000, c);
    lemma_settled_short(lo, 1064);
    lemma_settled_short(hi, 1064);
    assert(lo * pow2(1064) == (lo * 0x800_0000_0000) * c && hi * pow2(1064) == (hi
        * 0x800_0000_0000) * c) by (nonlinear_arith)
        requires
            pow2(1064) == 0x800_0000_0000 * c,
    ;
    lemma_settled_monotone((lo * pow2(1064)) as int, (s * n) as int);
    lemma_settled_monotone((s * n) as int, (hi * pow2(1064)) as int);
    assert(lo * pow2(1064) == m * o + pow2(1064) && hi * pow2(1064) == (m + 1) * o - pow2(1064))
        by (nonlinear_arith)
        requires
            lo == m * 1024 + 1,
            hi == m * 1024 + 1023,
            o == 0x20_0000_0000_0000 * c,
            pow2(1064) == 0x800_0000_0000 * c,
    ;
    lemma_between_wholes(x, m);
}

/// The digits of a share that is a whole number.
proof fn lemma_whole_share(digits: nat, a: nat, b: nat, n: nat)
    requires
        stands_for(digits, a, b),
        n > 0,
        (a * n) % b == 0,
    ensures
        a * (digits * n - (a * n) / b * 0x20_0000_0000_0000) == off_by(digits, a, b) * ((a * n) / b),
        0 < (a * n) / b < n,
{
    let m = (a * n) / b;
    let off = off_by(digits, a, b);
    lemma_fundamental_div_mod((a * n) as int, b as int);
    assert(0 < m < n) by (nonlinear_arith)
        requires
            a * n == b * m,
            0 < a < b,
            n > 0,
    ;
    let d = digits * n - m * 0x20_0000_0000_0000;
    assert(b * d == off * n) by (nonlinear_arith)
        requires
            d == digits * n - m * 0x20_0000_0000_0000,
            b * digits == a * 0x20_0000_0000_0000 + off,
            a * n == b * m,
    ;
    assert(a * d == off * m) by (nonlinear_arith)
        requires
            b * d == off * n,
            a * n == b * m,
            b > 0,
    ;
}

/// The power of two below `m`.
proof fn lemma_log(m: nat) -> (k: nat)
    requires
        m > 0,
    ensures
        pow2(k) <= m < 2 * pow2(k),
    decreases m,
{
    lemma_powers();
    if m == 1 {
        0
    } else {
        let k = lemma_log(m / 2);
        lemma_pow2_unfold(k + 1);
        k + 1
    }
}

/// What a number of units comes to is decided by the integer nearest to it in
/// its last place.
proof fn lemma_last_place(v: nat, k: nat, nearest: nat)
    requires
        k <= 60,
        0x20_0000_0000_0000 * pow2(k) <= v < 0x40_0000_0000_0000 * pow2(k),
        nearest_integer(v, 2 * pow2(k)) == nearest,
        nearest <= 0x20_0000_0000_0000,
    ensures
        rounded(v * pow2(1021), 1) == (k + 1022) * HIDDEN + nearest,
{
    let c = pow2(1021);
    let s = k + 1022;
    let p = pow2(k);
    let x = v * c;
    lemma_powers();
    lemma_scales();
    lemma_pow2_unfold(k + 1);
    lemma_pow2_pos(k);
    lemma_pow2_pos(k + 1);
    lemma_pow2_adds(k, 1021);
    lemma_pow2_adds(k + 1, 1021);
    lemma_pow2_adds(53, k + 1021);
    lemma_pow2_adds(54, k + 1021);
    assert(0x20_0000_0000_0000 * (p * c) <= x < 0x40_0000_0000_0000 * (p * c)) by (nonlinear_arith)
        requires
            0x20_0000_0000_0000 * p <= v < 0x40_0000_0000_0000 * p,
            x == v * c,
            c > 0,
    ;
    assert(1 * pow2((52 + s) as nat) == pow2((52 + s) as nat));
    assert(1 * pow2((53 + s) as nat) == pow2((53 + s) as nat));
    assert(1 * pow2(s) == (2 * p) * c);
    lemma_nearest_magnitude_is(x, 1, s);
    lemma_nearest_integer_scaled(v, 2 * p, c);
    assert(c * v == v * c && c * (2 * p) == (2 * p) * c) by (nonlinear_arith);
}

/// A number so close to a whole one that no other number lies between is
/// rounded to it.
proof fn lemma_rounds_to_whole(v: nat, m: nat)
    requires
        0 < m < 0x800_0000_0000,
        -(m as int) <= 4 * (v - m * 0x20_0000_0000_0000) <= m,
    ensures
        settled((v * pow2(1021)) as int) == m * one(),
{
    let c = pow2(1021);
    let k = lemma_log(m);
    let p = pow2(k);
    let w = m * 0x20_0000_0000_0000;
    let d = v - w;
    lemma_powers();
    lemma_scales();
    lemma_pow2_pos(k);
    if k >= 43 {
        if k > 43 {
            vstd::arithmetic::power2::lemma_pow2_strictly_increases(43, k);
        }
        lemma_pow2_adds(11, 32);
        vstd::arithmetic::power2::lemma2_to64();
        assert(false);
    }
    lemma_pow2_adds(k, (52 - k) as nat);
    lemma_pow2_pos((52 - k) as nat);
    let t = pow2((52 - k) as nat);
    let u = m * t;
    assert(u * (2 * p) == w) by (nonlinear_arith)
        requires
            u == m * t,
            p * t == 0x10_0000_0000_0000,
            w == m * 0x20_0000_0000_0000,
    ;
    assert(0x10_0000_0000_0000 <= u < 0x20_0000_0000_0000) by (nonlinear_arith)
        requires
            u == m * t,
            p * t == 0x10_0000_0000_0000,
            p <= m < 2 * p,
            t > 0,
    ;
    lemma_settled_short(m, 1074);
    assert(w * c == m * one()) by (nonlinear_arith)
        requires
            w == m * 0x20_0000_0000_0000,
            one() == 0x20_0000_0000_0000 * c,
    ;
    assert(distance((w * c) as int) == w * c && distance((v * c) as int) == v * c);
    // The whole number itself.
    assert(0x20_0000_0000_0000 * p <= w < 0x40_0000_0000_0000 * p);
    assert((u + 1) * (2 * p) == u * (2 * p) + 2 * p) by (nonlinear_arith);
    lemma_nearest_integer_is(w, 2 * p, u);
    lemma_last_place(w, k, u);
    if v >= 0x20_0000_0000_0000 * p {
        if d >= 0 {
            lemma_nearest_integer_is(v, 2 * p, u);
        } else {
            assert((u - 1) * (2 * p) == u * (2 * p) - 2 * p) by (nonlinear_arith);
            lemma_nearest_integer_is(v, 2 * p, (u - 1) as nat);
        }
        lemma_last_place(v, k, u);
    } else {
        // Just below a power of two, places are half as wide.
        assert(m == p);
        assert(u == 0x10_0000_0000_0000) by {
            assert(m * t == p * t);
        }
        if k == 0 {
            assert(pow2(0) == 1);
            assert(false);
        }
        let i = (k - 1) as nat;
        lemma_pow2_unfold(k);
        let h = pow2(i);
        assert(2 * h == p);
        let full: nat = 0x20_0000_0000_0000;
        assert((full - 1) * (2 * h) == full * (2 * h) - 2 * h) by (nonlinear_arith);
        lemma_nearest_integer_is(v, 2 * h, (full - 1) as nat);
        lemma_last_place(v, i, full);
    }
}

/// A whole share of a population of ranks counts as it is.
proof fn lemma_share_exact(q: Binary64, digits: nat, a: nat, b: nat, n: nat)
    requires
        has_digits(q, digits),
        stands_for(digits, a, b),
        -(a as int) <= 4 * off_by(digits, a, b) <= a,
        0 < n <= 0x800_0000_0000,
        (a * n) % b == 0,
    ensures
        robust_ceiling(q.times(whole(n))) == (a * n) / b,
{
    let m = (a * n) / b;
    let v = digits * n;
    let d = v - m * 0x20_0000_0000_0000;
    let off = off_by(digits, a, b);
    lemma_scales();
    lemma_share_of(q, digits, n);
    lemma_whole_share(digits, a, b, n);
    assert(-(m as int) <= 4 * d <= m) by (nonlinear_arith)
        requires
            a * d == off * m,
            -(a as int) <= 4 * off <= a,
            a > 0,
            m >= 0,
    ;
    lemma_rounds_to_whole(v, m);
    assert(q.size() * n == v * pow2(1021)) by (nonlinear_arith)
        requires
            q.size() == digits * pow2(1021),
            v == digits * n,
    ;
    lemma_near_whole(q.times(whole(n)), m);
}

/// A whole share that leaves room for rounding errors counts as it is, up to a
/// tail of 1179648 values.
proof fn lemma_tail_share(q: Binary64, digits: nat, b: nat, n: nat)
    requires
        has_digits(q, digits),
        stands_for(digits, 1, b),
        off_by(digits, 1, b) == 8,
        0 < n <= 0x800_0000_0000,
        n % b == 0,
        n / b <= 1_179_648,
    ensures
        robust_ceiling(q.times(whole(n))) == n / b,
{
    let m = n / b;
    let v = digits * n;
    let c = pow2(1021);
    let p = pow2(1044);
    let w = m * 0x20_0000_0000_0000;
    assert(1 * n == n);
    lemma_scales();
    lemma_share_of(q, digits, n);
    lemma_whole_share(digits, 1, b, n);
    assert(v == w + 8 * m);
    assert(q.size() * n == v * c) by (nonlinear_arith)
        requires
            q.size() == digits * c,
            v == digits * n,
    ;
    assert(w * c == m * one()) by (nonlinear_arith)
        requires
            w == m * 0x20_0000_0000_0000,
            one() == 0x20_0000_0000_0000 * c,
    ;
    let top = w + 0x80_0000;
    assert(top * c == m * one() + p) by (nonlinear_arith)
        requires
            top == w + 0x80_0000,
            w * c == m * one(),
            p == 0x80_0000 * c,
    ;
    let hi = m * 0x4000_0000 + 1;
    lemma_settled_short(hi, 1044);
    assert(hi * p == top * c) by (nonlinear_arith)
        requires
            hi == m * 0x4000_0000 + 1,
            top == m * 0x20_0000_0000_0000 + 0x80_0000,
            p == 0x80_0000 * c,
    ;
    lemma_settled_short(m, 1074);
    assert(w * c <= v * c) by (nonlinear_arith)
        requires
            w <= v,
            c > 0,
    ;
    lemma_settled_monotone((w * c) as int, (v * c) as int);
    if m < 0x10_0000 {
        assert(v * c <= top * c) by (nonlinear_arith)
            requires
                v <= top,
                c > 0,
        ;
        lemma_settled_monotone((v * c) as int, (top * c) as int);
    } else {
        // From here on the last place is 2^-32, and `v` is nearest to the
        // fourth place above `m`.
        vstd::arithmetic::power2::lemma2_to64();
        assert(pow2(20) == 0x10_0000);
        let u = m * 0x1_0000_0000 + 4;
        assert(u * 0x20_0000 == top);
        assert((u + 1) * 0x20_0000 == top + 0x20_0000);
        lemma_nearest_integer_is(top, 0x20_0000, u);
        lemma_nearest_integer_is(v, 0x20_0000, u);
        lemma_last_place(top, 20, u);
        lemma_last_place(v, 20, u);
        assert(distance((top * c) as int) == top * c && distance((v * c) as int) == v * c);
    }
    lemma_near_whole(q.times(whole(n)), m);
}

/// Bounds on a product, from those on a multiple of it.
proof fn lemma_bound(b: nat, digits: nat, n: nat, lo: nat, hi: nat, c: nat)
    requires
        b > 0,
        b * lo <= b * digits * n <= b * hi,
    ensures
        lo * c <= (digits * c) * n <= hi * c,
{
    assert(lo <= digits * n <= hi) by (nonlinear_arith)
        requires
            b > 0,
            b * lo <= b * digits * n <= b * hi,
    ;
    assert(lo * c <= (digits * c) * n <= hi * c) by (nonlinear_arith)
        requires
            lo <= digits * n <= hi,
    ;
}

/// Rounded up, a share of something is something, and no more than all.
proof fn lemma_held(a: nat, b: nat, n: nat)
    requires
        0 < a < b,
        0 < n,
    ensures
        1 <= (a * n + b - 1) as nat / b <= n,
{
    let t = (a * n + b - 1) as nat;
    lemma_fundamental_div_mod(t as int, b as int);
    let k = t / b;
    assert(a * n >= 1) by (nonlinear_arith)
        requires
            a > 0,
            n > 0,
    ;
    assert(a * n <= b * n - n) by (nonlinear_arith)
        requires
            a + 1 <= b,
            n > 0,
    ;
    assert(1 <= k <= n) by (nonlinear_arith)
        requires
            b <= t,
            t == b * k + t % b,
            0 <= t % b < b,
            t < b * n + b,
            b > 0,
    ;
}

/// Rounding a fraction up, in two cases.
proof fn lemma_rounded_up(t: nat, b: nat)
    requires
        b > 0,
    ensures
        t % b == 0 ==> (t + b - 1) as nat / b == t / b,
        t % b > 0 ==> (t + b - 1) as nat / b == t / b + 1,
{
    let m = t / b;
    lemma_fundamental_div_mod(t as int, b as int);
    if t % b == 0 {
        assert(m * b == b * m) by (nonlinear_arith);
        lemma_fundamental_div_mod_converse((t + b - 1) as int, b as int, m as int, b - 1);
    } else {
        assert((m + 1) * b == b * m + b) by (nonlinear_arith);
        lemma_fundamental_div_mod_converse(
            (t + b - 1) as int,
            b as int,
            (m + 1) as int,
            t % b - 1,
        );
    }
}

/// The rank of a quantile that stands for `a / b`.
proof fn lemma_rank(q: Binary64, digits: nat, a: nat, b: nat, n: nat)
    requires
        has_digits(q, digits),
        stands_for(digits, a, b),
        -(a as int) <= 4 * off_by(digits, a, b) <= a,
        0 < n <= 0x800_0000_0000,
    ensures
        rank_of(n, q) == (a * n + b - 1) as nat / b,
{
    lemma_rounded_up(a * n, b);
    if (a * n) % b == 0 {
        lemma_share_exact(q, digits, a, b, n);
    } else {
        lemma_share_in_part(q, digits, a, b, n);
    }
    lemma_held(a, b, n);
}

/// The size of a tail of one in `b`.
proof fn lemma_tail(q: Binary64, digits: nat, b: nat, n: nat)
    requires
        has_digits(unity().minus(q), digits),
        stands_for(digits, 1, b),
        off_by(digits, 1, b) == 8,
        0 < n <= 0x800_0000_0000,
        n / b <= 1_179_648,
    ensures
        tail_size(n, q) == (n + b - 1) as nat / b,
{
    assert(1 * n == n);
    lemma_rounded_up(n, b);
    if n % b == 0 {
        lemma_tail_share(unity().minus(q), digits, b, n);
    } else {
        lemma_share_in_part(unity().minus(q), digits, 1, b, n);
    }
    lemma_held(1, b, n);
}

proof fn lemma_rank_50(n: nat)
    requires
        0 < n <= 0x800_0000_0000,
    ensures
        rank_of(n, Binary64 { bits: Q50 }) == (n + 1) / 2,
{
    let q = Binary64 { bits: Q50 };
    assert(has_digits(q, 0x10_0000_0000_0000)) by {
        lemma_fundamental_div_mod_converse(Q50 as int, HIDDEN as int, 0x3FE, 0x0);
    }
    lemma_rank(q, 0x10_0000_0000_0000, 1, 2, n);
}

proof fn lemma_rank_90(n: nat)
    requires
        0 < n <= 0x800_0000_0000,
    ensures
        rank_of(n, Binary64 { bits: Q90 }) == (9 * n + 9) / 10,
{
    let q = Binary64 { bits: Q90 };
    assert(has_digits(q, 0x1C_CCCC_CCCC_CCCD)) by {
        lemma_fundamental_div_mod_converse(Q90 as int, HIDDEN as int, 0x3FE, 0xC_CCCC_CCCC_CCCD);
    }
    lemma_rank(q, 0x1C_CCCC_CCCC_CCCD, 9, 10, n);
}

proof fn lemma_rank_99(n: nat)
    requires
        0 < n <= 0x800_0000_0000,
    ensures
        rank_of(n, Binary64 { bits: Q99 }) == (99 * n + 99) / 100,
{
    let q = Binary64 { bits: Q99 };
    assert(has_digits(q, 0x1F_AE14_7AE1_47AE)) by {
        lemma_fundamental_div_mod_converse(Q99 as int, HIDDEN as int, 0x3FE, 0xF_AE14_7AE1_47AE);
    }
    lemma_rank(q, 0x1F_AE14_7AE1_47AE, 99, 100, n);
}

proof fn lemma_rank_999(n: nat)
    requires
        0 < n <= 0x800_0000_0000,
    ensures
        rank_of(n, Binary64 { bits: Q999 }) == (999 * n + 999) / 1000,
{
    let q = Binary64 { bits: Q999 };
    assert(has_digits(q, 0x1F_F7CE_D916_872B)) by {
        lemma_fundamental_div_mod_converse(Q999 as int, HIDDEN as int, 0x3FE, 0xF_F7CE_D916_872B);
    }
    lemma_rank(q, 0x1F_F7CE_D916_872B, 999, 1000, n);
}

/// The percentiles of a report are read at the nearest rank: among `n` values,
/// the first that at least the given share of them does not exceed.
pub proof fn lemma_nearest_ranks(n: nat)
    requires
        0 < n <= 0x800_0000_0000,
    ensures
        rank_of(n, Binary64 { bits: Q50 }) == (n + 1) / 2,
        rank_of(n, Binary64 { bits: Q90 }) == (9 * n + 9) / 10,
        rank_of(n, Binary64 { bits: Q99 }) == (99 * n + 99) / 100,
        rank_of(n, Binary64 { bits: Q999 }) == (999 * n + 999) / 1000,
{
    lemma_rank_50(n);
    lemma_rank_90(n);
    lemma_rank_99(n);
    lemma_rank_999(n);
}

/// What a quantile leaves out is represented exactly.
pub proof fn lemma_complement(q: Binary64, digits: nat)
    requires
        has_digits(q, digits),
        digits < 0x20_0000_0000_0000,
    ensures
        has_digits(unity().minus(q), (0x20_0000_0000_0000 - digits) as nat),
{
    let c = pow2(1021);
    let k = (0x20_0000_0000_0000 - digits) as nat;
    lemma_scales();
    lemma_signed(true, q.magnitude());
    lemma_unity();
    lemma_plus_units(unity(), q.opposite());
    assert(one() - q.size() == k * c) by (nonlinear_arith)
        requires
            one() == 0x20_0000_0000_0000 * c,
            q.size() == digits * c,
            k == 0x20_0000_0000_0000 - digits,
    ;
    if digits == 0 {
        lemma_settled_short(1, 1074);
        assert(1 * one() == one());
    } else {
        lemma_settled_short(k, 1021);
    }
    assert(k * c > 0) by (nonlinear_arith)
        requires
            k > 0,
            c > 0,
    ;
    lemma_size_increases(ONE as nat, INFINITY as nat);
    lemma_size_ordered(unity().minus(q).magnitude(), INFINITY as nat);
}

/// 1 is 1.
pub proof fn lemma_unity()
    ensures
        unity().units() == one(),
        unity().finite(),
        one() > 0,
{
    lemma_powers();
    lemma_pow2_pos(1074);
    lemma_fundamental_div_mod_converse(ONE as int, HIDDEN as int, 0x3FF, 0);
    lemma_pow2_adds(52, 1022);
}

proof fn lemma_tail_99(n: nat)
    requires
        0 < n < 117_964_900,
    ensures
        tail_size(n, Binary64 { bits: Q99 }) == (n + 99) / 100,
{
    let q = Binary64 { bits: Q99 };
    assert(has_digits(q, 0x1F_AE14_7AE1_47AE)) by {
        lemma_fundamental_div_mod_converse(Q99 as int, HIDDEN as int, 0x3FE, 0xF_AE14_7AE1_47AE);
    }
    lemma_complement(q, 0x1F_AE14_7AE1_47AE);
    lemma_tail(q, 0x51EB_851E_B852, 100, n);
}

proof fn lemma_tail_999(n: nat)
    requires
        0 < n < 117_964_900,
    ensures
        tail_size(n, Binary64 { bits: Q999 }) == (n + 999) / 1000,
{
    let q = Binary64 { bits: Q999 };
    assert(has_digits(q, 0x1F_F7CE_D916_872B)) by {
        lemma_fundamental_div_mod_converse(Q999 as int, HIDDEN as int, 0x3FE, 0xF_F7CE_D916_872B);
    }
    lemma_complement(q, 0x1F_F7CE_D916_872B);
    lemma_tail(q, 0x831_26E9_78D5, 1000, n);
}

/// The tails of a report are the worst hundredth and the worst thousandth of
/// the values, rounded up.
pub proof fn lemma_tail_sizes(n: nat)
    requires
        0 < n < 117_964_900,
    ensures
        tail_size(n, Binary64 { bits: Q99 }) == (n + 99) / 100,
        tail_size(n, Binary64 { bits: Q999 }) == (n + 999) / 1000,
{
    lemma_tail_99(n);
    lemma_tail_999(n);
}

/// A report's percentiles are in order, as soon as there is a value and all
/// can be compared.
pub proof fn lemma_percentiles_in_order(r: Report, input: ReportInput)
    requires
        aggregates(r, input),
        0 < r.n_post_warmup <= 0x800_0000_0000,
        forall|i: int|
            0 <= i < r.n_post_warmup ==> !(#[trigger] after_warmup(
                input.records@,
                warmup_end(input.warmup_s),
            )[i]).scored(input.penalty_ms).nan(),
    ensures
        r.p50.less_or_equal(r.p90),
        r.p90.less_or_equal(r.p99),
        r.p99.less_or_equal(r.p999),
        r.p999.less_or_equal(r.max),
{
    let post = after_warmup(input.records@, warmup_end(input.warmup_s));
    let values = scores(post, input.penalty_ms);
    assert forall|i: int| 0 <= i < values.len() implies !(#[trigger] values[i]).nan() by {
        assert(values[i] == post[i].scored(input.penalty_ms));
    }
    lemma_sorted_values(values);
    lemma_nearest_ranks(post.len());
}

} // verus!
