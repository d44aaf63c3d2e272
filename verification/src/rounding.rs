//! Rounding an exact ratio to the nearest double-precision number.
//!
//! A ratio `x / d` of whole numbers, read as a count of units of 2^-1074, is
//! rounded to the nearest representable number, and to the one with an even
//! last digit when it lies half way between two.

use vstd::arithmetic::div_mod::lemma_div_is_ordered;
use vstd::arithmetic::div_mod::lemma_fundamental_div_mod;
use vstd::arithmetic::div_mod::lemma_fundamental_div_mod_converse;
use vstd::arithmetic::power2::lemma_pow2_adds;
use vstd::arithmetic::power2::lemma_pow2_pos;
use vstd::arithmetic::power2::lemma_pow2_strictly_increases;
use vstd::arithmetic::power2::lemma_pow2_unfold;
use vstd::arithmetic::power2::pow2;
use vstd::arithmetic::power2::lemma2_to64;
use vstd::prelude::*;

use crate::binary64::size_of_magnitude;
use crate::binary64::HIDDEN;
use crate::binary64::INFINITY;

verus! {

/// The integer nearest to `x / d`; of two equally near, the even one.
pub open spec fn nearest_integer(x: nat, d: nat) -> nat {
    let q = x / d;
    let r = x % d;
    if 2 * r < d || (2 * r == d && q % 2 == 0) {
        q
    } else {
        q + 1
    }
}

/// The bits of the number nearest to `x / d` units, were there no largest
/// exponent.
///
/// Below 2^53 units the representable numbers are the integers, and the bits
/// are the count itself. Each doubling beyond moves the exponent field by one.
#[verifier::opaque]
pub open spec fn nearest_magnitude(x: nat, d: nat) -> nat
    decreases x - d,
{
    if d == 0 || x < d * 0x20_0000_0000_0000 {
        nearest_integer(x, d)
    } else {
        HIDDEN as nat + nearest_magnitude(x, 2 * d)
    }
}

/// The bits of the number nearest to `x / d` units. What lies beyond the
/// largest finite number is infinite.
pub open spec fn rounded(x: nat, d: nat) -> nat {
    let m = nearest_magnitude(x, d);
    if m < INFINITY {
        m
    } else {
        INFINITY as nat
    }
}

/// The powers of two that the format is made of.
pub proof fn lemma_powers()
    ensures
        pow2(0) == 1,
        pow2(1) == 2,
        pow2(52) == HIDDEN,
        pow2(53) == 0x20_0000_0000_0000,
        pow2(54) == 0x40_0000_0000_0000,
        pow2(63) == 0x8000_0000_0000_0000,
        pow2(64) == 0x1_0000_0000_0000_0000,
        pow2(127) == 0x8000_0000_0000_0000_0000_0000_0000_0000,
{
    lemma2_to64();
    lemma_pow2_adds(20, 32);
    lemma_pow2_adds(21, 32);
    lemma_pow2_adds(22, 32);
    lemma_pow2_adds(31, 32);
    lemma_pow2_adds(63, 64);
}

/// Where `x` lies between two multiples of `d` decides its nearest integer.
pub proof fn lemma_nearest_integer_is(x: nat, d: nat, q: nat)
    requires
        q * d <= x < (q + 1) * d,
    ensures
        nearest_integer(x, d) == (if 2 * (x - q * d) < d || (2 * (x - q * d) == d && q % 2 == 0) {
            q
        } else {
            q + 1
        }),
{
    assert(d > 0) by (nonlinear_arith)
        requires
            q * d < (q + 1) * d,
    ;
    assert(x - q * d < d) by (nonlinear_arith)
        requires
            x < (q + 1) * d,
    ;
    lemma_fundamental_div_mod_converse(x as int, d as int, q as int, x - q * d);
}

/// The number of doublings is the number of steps of the exponent field.
pub proof fn lemma_nearest_magnitude_is(x: nat, d: nat, s: nat)
    requires
        d > 0,
        s > 0 ==> x >= d * pow2((52 + s) as nat),
        x < d * pow2((53 + s) as nat),
    ensures
        nearest_magnitude(x, d) == s * HIDDEN + nearest_integer(x, d * pow2(s)),
    decreases s,
{
    reveal(nearest_magnitude);
    lemma_powers();
    if s == 0 {
        assert(d * pow2(0) == d);
    } else {
        let e = (s - 1) as nat;
        lemma_pow2_unfold((52 + s) as nat);
        lemma_pow2_unfold((53 + s) as nat);
        lemma_pow2_unfold(s);
        assert(d * pow2((52 + s) as nat) == (2 * d) * pow2((52 + e) as nat)) by (nonlinear_arith)
            requires
                pow2((52 + s) as nat) == 2 * pow2((52 + e) as nat),
        ;
        assert(d * pow2((53 + s) as nat) == (2 * d) * pow2((53 + e) as nat)) by (nonlinear_arith)
            requires
                pow2((53 + s) as nat) == 2 * pow2((53 + e) as nat),
        ;
        assert(d * pow2(s) == (2 * d) * pow2(e)) by (nonlinear_arith)
            requires
                pow2(s) == 2 * pow2(e),
        ;
        lemma_nearest_magnitude_is(x, 2 * d, e);
        assert(pow2((52 + s) as nat) >= pow2(53)) by {
            if s > 1 {
                lemma_pow2_strictly_increases(53, (52 + s) as nat);
            }
        }
        assert(d * pow2((52 + s) as nat) >= d * 0x20_0000_0000_0000) by (nonlinear_arith)
            requires
                pow2((52 + s) as nat) >= 0x20_0000_0000_0000,
        ;
        assert(s * HIDDEN == HIDDEN + e * HIDDEN) by (nonlinear_arith)
            requires
                s == e + 1,
        ;
    }
}

/// How the digits dropped from `m` decide the rounding of `x / d`, where
/// `x * n` lies in `m * u .. (m + 1) * u` and `d * n == t * u`.
proof fn lemma_dropped_digits(
    x: nat,
    d: nat,
    n: nat,
    u: nat,
    m: nat,
    t: nat,
    half: nat,
    sticky: bool,
)
    requires
        n > 0,
        u > 0,
        half > 0,
        t == 2 * half,
        d * n == t * u,
        m * u <= x * n < (m + 1) * u,
        sticky <==> m * u < x * n,
    ensures
        nearest_integer(x, d) == (if m % t < half || (m % t == half && !sticky && (m / t) % 2 == 0) {
            m / t
        } else {
            m / t + 1
        }),
{
    let q = m / t;
    let r = m % t;
    lemma_fundamental_div_mod(m as int, t as int);
    assert(0 <= r < t);
    let z = x - q * d;
    assert(d > 0) by (nonlinear_arith)
        requires
            d * n == t * u,
            t > 0,
            u > 0,
            d >= 0,
    ;
    assert(z * n == x * n - (q * t) * u) by (nonlinear_arith)
        requires
            z == x - q * d,
            d * n == t * u,
    ;
    assert(m * u == (q * t) * u + r * u && (m + 1) * u == (q * t) * u + (r + 1) * u)
        by (nonlinear_arith)
        requires
            m == t * q + r,
    ;
    assert(r * u <= z * n < (r + 1) * u);
    assert(z >= 0) by (nonlinear_arith)
        requires
            r * u <= z * n,
            r >= 0,
            u > 0,
            n > 0,
    ;
    assert(z < d) by (nonlinear_arith)
        requires
            z * n < (r + 1) * u,
            r + 1 <= t,
            d * n == t * u,
            u > 0,
            n > 0,
    ;
    assert(q * d <= x < (q + 1) * d) by (nonlinear_arith)
        requires
            z == x - q * d,
            0 <= z < d,
    ;
    lemma_nearest_integer_is(x, d, q);
    if r < half {
        assert(2 * z < d) by (nonlinear_arith)
            requires
                z * n < (r + 1) * u,
                r + 1 <= half,
                d * n == t * u,
                t == 2 * half,
                u > 0,
                n > 0,
        ;
    } else if r > half {
        assert(2 * z > d) by (nonlinear_arith)
            requires
                z * n >= r * u,
                r >= half + 1,
                d * n == t * u,
                t == 2 * half,
                u > 0,
                n > 0,
        ;
    } else if sticky {
        assert(2 * z > d) by (nonlinear_arith)
            requires
                z * n > r * u,
                r == half,
                d * n == t * u,
                t == 2 * half,
                u > 0,
                n > 0,
        ;
    } else {
        assert(2 * z == d) by (nonlinear_arith)
            requires
                z * n == r * u,
                r == half,
                d * n == t * u,
                t == 2 * half,
                u > 0,
                n > 0,
        ;
    }
}

/// 2^k.
pub(crate) fn power_of_two(k: u64) -> (r: u128)
    requires
        k < 128,
    ensures
        r == pow2(k as nat),
{
    let mut r: u128 = 1;
    let mut i: u64 = 0;
    proof {
        lemma_powers();
    }
    while i < k
        invariant
            i <= k < 128,
            r == pow2(i as nat),
        decreases k - i,
    {
        proof {
            lemma_pow2_unfold((i + 1) as nat);
            lemma_power_below_128((i + 1) as nat);
        }
        r = r * 2;
        i = i + 1;
    }
    r
}

/// 2^k fits in 128 bits.
pub proof fn lemma_power_below_128(k: nat)
    requires
        k < 128,
    ensures
        0 < pow2(k) <= 0x8000_0000_0000_0000_0000_0000_0000_0000,
{
    lemma_powers();
    lemma_pow2_pos(k);
    if k < 127 {
        lemma_pow2_strictly_increases(k, 127);
    }
}

/// The number of binary digits of `m`.
pub(crate) fn digits(m: u128) -> (l: u64)
    requires
        m < 0x8000_0000_0000_0000_0000_0000_0000_0000,
    ensures
        l <= 127,
        m < pow2(l as nat),
        l > 0 ==> m >= pow2((l - 1) as nat),
{
    let mut l: u64 = 0;
    let mut p: u128 = 1;
    proof {
        lemma_powers();
    }
    while p <= m
        invariant
            l <= 127,
            p == pow2(l as nat),
            l > 0 ==> m >= pow2((l - 1) as nat),
            m < 0x8000_0000_0000_0000_0000_0000_0000_0000,
            pow2(127) == 0x8000_0000_0000_0000_0000_0000_0000_0000,
        decreases 127 - l,
    {
        proof {
            if l >= 127 {
                assert(false);
            }
            lemma_pow2_unfold((l + 1) as nat);
            lemma_power_below_128((l + 1) as nat);
        }
        p = p * 2;
        l = l + 1;
    }
    l
}

/// Two to the power `e`, or 1 where `e` is not positive.
pub open spec fn up(e: int) -> nat {
    if e > 0 {
        pow2(e as nat)
    } else {
        1
    }
}

/// `m`, shifted by `e` binary places, is `x / d` with what lies below the last
/// place cut off; `sticky` says whether anything was.
pub open spec fn cut_off(m: nat, e: int, sticky: bool, x: nat, d: nat) -> bool {
    let u = up(e) * d;
    let n = up(-e);
    &&& m * u <= x * n < (m + 1) * u
    &&& sticky <==> m * u < x * n
}

pub proof fn lemma_up_pos(e: int)
    ensures
        up(e) > 0,
{
    if e > 0 {
        lemma_pow2_pos(e as nat);
    }
}

/// The leading digits place `x / d` between two powers of two.
proof fn lemma_cut_off_bounds(m: nat, e: int, sticky: bool, x: nat, d: nat, l: nat, k: nat)
    requires
        d > 0,
        cut_off(m, e, sticky, x, d),
        m < pow2(l),
        k >= l + e,
    ensures
        x < d * pow2(k),
{
    let u = up(e) * d;
    let n = up(-e);
    lemma_up_pos(e);
    lemma_up_pos(-e);
    let pl = pow2(l);
    let pk = pow2(k);
    // (m + 1) * 2^e <= 2^(l + e) <= 2^k
    assert(pl * up(e) <= pk * n) by {
        lemma_powers();
        if e > 0 {
            lemma_pow2_adds(l, e as nat);
            if l + e < k {
                lemma_pow2_strictly_increases((l + e) as nat, k);
            }
        } else {
            lemma_pow2_adds(k, (-e) as nat);
            if l < k - e {
                lemma_pow2_strictly_increases(l, (k - e) as nat);
            }
        }
    }
    assert(x < d * pk) by (nonlinear_arith)
        requires
            x * n < (m + 1) * u,
            m + 1 <= pl,
            u == up(e) * d,
            pl * up(e) <= pk * n,
            n > 0,
            d > 0,
            up(e) > 0,
    {
        assert((m + 1) * u <= pl * u);
        assert(pl * u == (pl * up(e)) * d);
        assert((pl * up(e)) * d <= (pk * n) * d);
        assert((pk * n) * d == (d * pk) * n);
        assert(x * n < (d * pk) * n);
    }
}

proof fn lemma_cut_off_floor(m: nat, e: int, sticky: bool, x: nat, d: nat, l: nat, k: nat)
    requires
        d > 0,
        cut_off(m, e, sticky, x, d),
        m >= pow2(l),
        k == l + e,
    ensures
        x >= d * pow2(k),
{
    let u = up(e) * d;
    let n = up(-e);
    lemma_up_pos(e);
    lemma_up_pos(-e);
    let pl = pow2(l);
    let pk = pow2(k);
    assert(pl * up(e) == pk * n) by {
        lemma_powers();
        if e > 0 {
            lemma_pow2_adds(l, e as nat);
        } else {
            lemma_pow2_adds(k, (-e) as nat);
        }
    }
    assert(x >= d * pk) by (nonlinear_arith)
        requires
            x * n >= m * u,
            m >= pl,
            u == up(e) * d,
            pl * up(e) == pk * n,
            n > 0,
            d > 0,
            up(e) > 0,
    {
        assert(m * u >= pl * u);
        assert(pl * u == (pl * up(e)) * d);
        assert((pk * n) * d == (d * pk) * n);
        assert(x * n >= (d * pk) * n);
    }
}

proof fn lemma_zero(e: int, x: nat, d: nat)
    requires
        d > 0,
        cut_off(0, e, false, x, d),
    ensures
        rounded(x, d) == 0,
{
    reveal(nearest_magnitude);
    lemma_up_pos(-e);
    let n = up(-e);
    assert(x == 0) by (nonlinear_arith)
        requires
            x * n <= 0,
            n > 0,
            x >= 0,
    ;
    assert(0 * d == 0 && (0 + 1) * d == d);
    lemma_nearest_integer_is(0, d, 0);
}

/// Rounds what `m`, `e` and `sticky` stand for.
pub(crate) fn round(m: u128, e: i64, sticky: bool, Ghost(x): Ghost<nat>, Ghost(d): Ghost<nat>) -> (r: u64)
    requires
        d > 0,
        m < 0x8000_0000_0000_0000_0000_0000_0000_0000,
        -5000 <= e <= 5000,
        sticky ==> m >= 0x40_0000_0000_0000,
        cut_off(m as nat, e as int, sticky, x, d),
    ensures
        r == rounded(x, d),
{
    if m == 0 {
        proof {
            lemma_zero(e as int, x, d);
        }
        return 0;
    }
    let l: u64 = digits(m);
    let above: i64 = l as i64 + e - 53;
    let s: i64 = if above > 0 {
        above
    } else {
        0
    };
    proof {
        lemma_powers();
        assert(m < pow2(l as nat));
        if s > 0 {
            lemma_cut_off_floor(m as nat, e as int, sticky, x, d, (l - 1) as nat, (52 + s) as nat);
        }
        lemma_cut_off_bounds(m as nat, e as int, sticky, x, d, l as nat, (53 + s) as nat);
        lemma_nearest_magnitude_is(x, d, s as nat);
    }
    let ghost dd = d * pow2(s as nat);
    let ghost u = up(e as int) * d;
    let ghost n = up(-(e as int));
    proof {
        lemma_up_pos(e as int);
        lemma_up_pos(-(e as int));
        lemma_pow2_pos(s as nat);
        assert(u > 0) by (nonlinear_arith)
            requires
                u == up(e as int) * d,
                up(e as int) > 0,
                d > 0,
        ;
    }
    if s >= 2047 {
        assert(s * HIDDEN >= 2047 * HIDDEN) by (nonlinear_arith)
            requires
                s >= 2047,
        ;
        return INFINITY;
    }
    let t: i64 = s - e;
    let q: u64;
    if t <= 0 {
        // Every digit is kept.
        proof {
            if sticky {
                assert(pow2(54) == 0x40_0000_0000_0000);
                if l < 55 {
                    if l < 54 {
                        lemma_pow2_strictly_increases(l as nat, 54);
                    }
                    assert(false);
                }
                assert(false);
            }
        }
        proof {
            if l as int - t > 53 {
                assert(false);
            }
            lemma_pow2_adds(l as nat, (-t) as nat);
            lemma_pow2_pos((-t) as nat);
            let g = pow2((-t) as nat);
            let pl = pow2(l as nat);
            assert(m * g < pl * g) by (nonlinear_arith)
                requires
                    m < pl,
                    g > 0,
            ;
            assert(pow2((l - t) as nat) <= pow2(53)) by {
                if l - t < 53 {
                    lemma_pow2_strictly_increases((l - t) as nat, 53);
                }
            }
            // x == (m * g) * dd
            assert(g * pow2(s as nat) == up(e as int)) by {
                lemma_pow2_adds((-t) as nat, s as nat);
            }
            assert(n == 1);
            let y = m * g;
            assert(x == (m * g) * dd) by (nonlinear_arith)
                requires
                    x * n == m * u,
                    n == 1,
                    u == up(e as int) * d,
                    dd == d * pow2(s as nat),
                    g * pow2(s as nat) == up(e as int),
            ;
            assert(dd > 0) by (nonlinear_arith)
                requires
                    dd == d * pow2(s as nat),
                    pow2(s as nat) > 0,
                    d > 0,
            ;
            assert(y * dd <= x < (y + 1) * dd) by (nonlinear_arith)
                requires
                    x == y * dd,
                    dd > 0,
            ;
            lemma_nearest_integer_is(x, dd, y as nat);
        }
        let g: u128 = power_of_two((-t) as u64);
        q = (m * g) as u64;
    } else {
        proof {
            // dd * n == 2^t * u
            assert(pow2(s as nat) * n == pow2(t as nat) * up(e as int)) by {
                if e > 0 {
                    lemma_pow2_adds(t as nat, e as nat);
                    assert(t as nat + e as nat == s as nat);
                } else {
                    lemma_pow2_adds(s as nat, (-e) as nat);
                    assert(s as nat + (-e) as nat == t as nat);
                }
            }
            assert(dd * n == pow2(t as nat) * u) by (nonlinear_arith)
                requires
                    dd == d * pow2(s as nat),
                    u == up(e as int) * d,
                    pow2(s as nat) * n == pow2(t as nat) * up(e as int),
            ;
            lemma_pow2_unfold(t as nat);
            lemma_pow2_pos((t - 1) as nat);
            lemma_dropped_digits(
                x,
                dd,
                n,
                u,
                m as nat,
                pow2(t as nat),
                pow2((t - 1) as nat),
                sticky,
            );
        }
        if t >= 128 {
            proof {
                lemma_powers();
                assert(pow2((t - 1) as nat) >= pow2(127)) by {
                    if t - 1 > 127 {
                        lemma_pow2_strictly_increases(127, (t - 1) as nat);
                    }
                }
                lemma_fundamental_div_mod_converse(
                    m as int,
                    pow2(t as nat) as int,
                    0,
                    m as int,
                );
            }
            q = 0;
        } else {
            let half: u128 = power_of_two((t - 1) as u64);
            proof {
                lemma_power_below_128((t - 1) as nat);
            }
            // 2 * half may not fit where t is 127; halve m instead.
            let low: u128 = m % half;
            let upper: u128 = m / half;
            proof {
                lemma_two_step(m as nat, half as nat);
                assert(half * 0 == 0 && half * 1 == half);
                assert(low < half);
                assert(upper % 2 == 0 || upper % 2 == 1);
                lemma_quotient_small(m as nat, l as nat, t as nat);
            }
            let kept: u128 = upper / 2;
            let up_by_one: bool = upper % 2 == 1 && (low > 0 || sticky || kept % 2 == 1);
            q = if up_by_one {
                kept as u64 + 1
            } else {
                kept as u64
            };
        }
    }
    proof {
        assert(s * HIDDEN <= 2046 * HIDDEN) by (nonlinear_arith)
            requires
                s <= 2046,
        ;
    }
    let r: u64 = s as u64 * HIDDEN + q;
    if r < INFINITY {
        r
    } else {
        INFINITY
    }
}

/// Dividing by `2 * half` in two steps.
proof fn lemma_two_step(m: nat, half: nat)
    requires
        half > 0,
    ensures
        m / (2 * half) == (m / half) / 2,
        m % (2 * half) == half * ((m / half) % 2) + m % half,
{
    let a = m / half;
    let low = m % half;
    lemma_fundamental_div_mod(m as int, half as int);
    assert(half * ((m / half) % 2) <= half) by (nonlinear_arith)
        requires
            (m / half) % 2 <= 1,
    ;
    let q = a / 2;
    let r = half * (a % 2) + low;
    assert(r < 2 * half);
    assert(m == q * (2 * half) + r) by (nonlinear_arith)
        requires
            m == half * a + low,
            a == 2 * q + a % 2,
            r == half * (a % 2) + low,
    ;
    lemma_fundamental_div_mod_converse(m as int, 2 * half as int, q as int, r as int);
}

/// What is kept of `m` fits in 53 digits.
proof fn lemma_quotient_small(m: nat, l: nat, t: nat)
    requires
        m < pow2(l),
        l <= t + 53,
    ensures
        m / pow2(t) < 0x20_0000_0000_0000,
{
    lemma_powers();
    lemma_pow2_pos(t);
    lemma_pow2_adds(t, 53);
    if l < t + 53 {
        lemma_pow2_strictly_increases(l, t + 53);
    }
    let p = pow2(t);
    lemma_fundamental_div_mod(m as int, p as int);
    assert(m / p < 0x20_0000_0000_0000) by (nonlinear_arith)
        requires
            m == p * (m / p) + m % p,
            m % p >= 0,
            m < p * 0x20_0000_0000_0000,
            p > 0,
    ;
}

/// Scaling both parts of a ratio changes nothing.
pub proof fn lemma_nearest_integer_scaled(x: nat, d: nat, k: nat)
    requires
        d > 0,
        k > 0,
    ensures
        nearest_integer(k * x, k * d) == nearest_integer(x, d),
{
    let q = x / d;
    let r = x % d;
    lemma_fundamental_div_mod(x as int, d as int);
    assert(k * x == q * (k * d) + k * r) by (nonlinear_arith)
        requires
            x == d * q + r,
    ;
    assert(0 <= k * r < k * d) by (nonlinear_arith)
        requires
            0 <= r < d,
            k > 0,
    ;
    lemma_fundamental_div_mod_converse((k * x) as int, (k * d) as int, q as int, (k * r) as int);
    assert((2 * (k * r) < k * d <==> 2 * r < d) && (2 * (k * r) == k * d <==> 2 * r == d))
        by (nonlinear_arith)
        requires
            k > 0,
    ;
}

/// Scaling both parts of a ratio changes nothing.
pub proof fn lemma_rounded_scaled(x: nat, d: nat, k: nat)
    requires
        d > 0,
        k > 0,
    ensures
        nearest_magnitude(k * x, k * d) == nearest_magnitude(x, d),
        rounded(k * x, k * d) == rounded(x, d),
    decreases x - d,
{
    reveal(nearest_magnitude);
    let b: nat = 0x20_0000_0000_0000;
    assert((k * x < (k * d) * b <==> x < d * b) && k * d > 0) by (nonlinear_arith)
        requires
            k > 0,
            d > 0,
    ;
    if x < d * b {
        lemma_nearest_integer_scaled(x, d, k);
    } else {
        lemma_rounded_scaled(x, 2 * d, k);
        assert(2 * (k * d) == k * (2 * d)) by (nonlinear_arith);
    }
}

/// Rounding to an integer does not cross one.
proof fn lemma_nearest_integer_bounds(x: nat, d: nat, b: nat)
    requires
        d > 0,
    ensures
        x >= d * b ==> nearest_integer(x, d) >= b,
        x <= d * b ==> nearest_integer(x, d) <= b,
{
    let q = x / d;
    let r = x % d;
    lemma_fundamental_div_mod(x as int, d as int);
    if x >= d * b {
        assert(q >= b) by (nonlinear_arith)
            requires
                d * q + r >= d * b,
                r < d,
                d > 0,
        ;
    }
    if x <= d * b {
        assert(q <= b) by (nonlinear_arith)
            requires
                d * q + r <= d * b,
                0 <= r,
                d > 0,
        ;
        if q == b {
            assert(r == 0) by (nonlinear_arith)
                requires
                    d * q + r <= d * b,
                    q == b,
                    r >= 0,
            ;
        }
    }
}

/// Rounding to an integer never reverses an order.
pub proof fn lemma_nearest_integer_monotone(x: nat, y: nat, d: nat)
    requires
        d > 0,
        x <= y,
    ensures
        nearest_integer(x, d) <= nearest_integer(y, d),
{
    lemma_div_is_ordered(x as int, y as int, d as int);
    lemma_fundamental_div_mod(x as int, d as int);
    lemma_fundamental_div_mod(y as int, d as int);
    if x / d == y / d {
        assert(x % d <= y % d);
    }
}

proof fn lemma_nearest_magnitude_monotone(x: nat, y: nat, d: nat)
    requires
        d > 0,
        x <= y,
    ensures
        nearest_magnitude(x, d) <= nearest_magnitude(y, d),
    decreases y - d,
{
    reveal(nearest_magnitude);
    let b: nat = 0x20_0000_0000_0000;
    if y < d * b {
        lemma_nearest_integer_monotone(x, y, d);
    } else if x < d * b {
        lemma_nearest_integer_bounds(x, d, b);
        lemma_nearest_magnitude_floor(y, 2 * d);
    } else {
        lemma_nearest_magnitude_monotone(x, y, 2 * d);
    }
}

/// At 2^52 units and above, the bits are at least 2^52.
pub proof fn lemma_nearest_magnitude_floor(x: nat, d: nat)
    requires
        d > 0,
        x >= d * HIDDEN,
    ensures
        nearest_magnitude(x, d) >= HIDDEN,
{
    reveal(nearest_magnitude);
    if x < d * 0x20_0000_0000_0000 {
        lemma_nearest_integer_bounds(x, d, HIDDEN as nat);
    }
}

/// Rounding never reverses an order.
pub proof fn lemma_rounded_monotone(x: nat, d: nat, y: nat, e: nat)
    requires
        d > 0,
        e > 0,
        x * e <= y * d,
    ensures
        rounded(x, d) <= rounded(y, e),
{
    lemma_rounded_scaled(x, d, e);
    lemma_rounded_scaled(y, e, d);
    assert(e * x == x * e && d * y == y * d && d * e == e * d && e * d > 0) by (nonlinear_arith)
        requires
            d > 0,
            e > 0,
    ;
    lemma_nearest_magnitude_monotone(e * x, d * y, e * d);
}

/// A representable number is its own rounding.
pub proof fn lemma_rounded_exact(m: nat, d: nat)
    requires
        d > 0,
        m <= INFINITY,
    ensures
        rounded(size_of_magnitude(m) * d, d) == m,
{
    reveal(nearest_magnitude);
    let h = HIDDEN as nat;
    let exponent = m / h;
    let fraction = m % h;
    let x = size_of_magnitude(m) * d;
    lemma_powers();
    if exponent == 0 {
        assert(m == fraction);
        assert(x < d * 0x20_0000_0000_0000) by (nonlinear_arith)
            requires
                x == fraction * d,
                fraction < 0x10_0000_0000_0000,
                d > 0,
        ;
        assert(fraction * d <= x < (fraction + 1) * d) by (nonlinear_arith)
            requires
                x == fraction * d,
                d > 0,
        ;
        lemma_nearest_integer_is(x, d, fraction);
    } else {
        let s = (exponent - 1) as nat;
        let p = pow2(s);
        lemma_pow2_pos(s);
        lemma_pow2_adds(52, s);
        lemma_pow2_adds(53, s);
        let a = h + fraction;
        assert(x == a * (d * p)) by (nonlinear_arith)
            requires
                x == (a * p) * d,
        ;
        assert(x >= d * (h * p) && x < d * (0x20_0000_0000_0000 * p)) by (nonlinear_arith)
            requires
                x == (a * p) * d,
                h <= a < 0x20_0000_0000_0000,
                d > 0,
                p > 0,
        ;
        assert(pow2((52 + s) as nat) == h * p);
        assert(pow2((53 + s) as nat) == 0x20_0000_0000_0000 * p);
        lemma_nearest_magnitude_is(x, d, s);
        let dd = d * p;
        assert(dd > 0) by (nonlinear_arith)
            requires
                dd == d * p,
                d > 0,
                p > 0,
        ;
        assert(a * dd <= x < (a + 1) * dd) by (nonlinear_arith)
            requires
                x == a * dd,
                dd > 0,
        ;
        lemma_nearest_integer_is(x, dd, a);
    }
}

} // verus!
