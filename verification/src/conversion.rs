//! Double-precision numbers from integers, to integers, and to times.

use vstd::arithmetic::div_mod::lemma_fundamental_div_mod;
use vstd::arithmetic::div_mod::lemma_fundamental_div_mod_converse;
use vstd::arithmetic::power2::lemma_pow2_adds;
use vstd::arithmetic::power2::lemma_pow2_pos;
use vstd::arithmetic::power2::lemma_pow2_strictly_increases;
use vstd::arithmetic::power2::pow2;
use vstd::prelude::*;

use crate::arithmetic::decode;
use crate::arithmetic::lemma_cut_off_whole;
use crate::arithmetic::one;
use crate::arithmetic::signed;
use crate::arithmetic::with_sign;
use crate::binary64::size_of_magnitude;
use crate::binary64::Binary64;
use crate::binary64::HIDDEN;
use crate::binary64::INFINITY;
use crate::binary64::SIGN;
use crate::rounding::lemma_nearest_integer_is;
use crate::rounding::lemma_nearest_integer_scaled;
use crate::rounding::lemma_powers;
use crate::rounding::lemma_rounded_exact;
use crate::rounding::nearest_integer;
use crate::rounding::power_of_two;
use crate::rounding::round;
use crate::rounding::rounded;

verus! {

/// The number nearest to `n`.
pub open spec fn whole(n: nat) -> Binary64 {
    signed(false, rounded(n * one(), 1))
}

/// The integer nearest to the absolute value; half way goes up.
pub open spec fn half_up(size: nat) -> nat {
    (2 * size + one()) / (2 * one())
}

/// The first integer that is not below the absolute value.
pub open spec fn next_whole(size: nat) -> nat {
    ((size + one() - 1) as nat) / one()
}

impl Binary64 {
    /// The nearest integer; half way goes away from zero.
    pub open spec fn nearest_whole(self) -> Self {
        if self.finite() {
            signed(self.negative(), rounded(half_up(self.size()) * one(), 1))
        } else {
            self
        }
    }

    /// The first integer that is not below `self`.
    pub open spec fn ceiling(self) -> Self {
        if !self.finite() {
            self
        } else if self.negative() {
            signed(true, rounded((self.size() / one()) * one(), 1))
        } else {
            signed(false, rounded(next_whole(self.size()) * one(), 1))
        }
    }

    /// The integer part, held within `u64`: what is not a number, and what is
    /// negative, counts as zero.
    pub open spec fn saturated(self) -> nat {
        if self.nan() || self.negative() {
            0
        } else if self.infinite() || self.size() / one() > u64::MAX {
            u64::MAX as nat
        } else {
            self.size() / one()
        }
    }

    /// The greater of the two; where one is not a number, the other.
    pub open spec fn greater(self, other: Self) -> Self {
        if other.nan() || other.less(self) {
            self
        } else {
            other
        }
    }
}

/// A size divided by 1, in terms of its digits.
proof fn lemma_integer_part(m: nat, e: nat)
    requires
        e < 1074,
    ensures
        (m * pow2(e)) / one() == m / pow2((1074 - e) as nat),
        (m * pow2(e)) % one() == (m % pow2((1074 - e) as nat)) * pow2(e),
        one() == pow2((1074 - e) as nat) * pow2(e),
{
    let k = (1074 - e) as nat;
    let p = pow2(k);
    let b = pow2(e);
    lemma_pow2_adds(k, e);
    lemma_pow2_pos(k);
    lemma_pow2_pos(e);
    lemma_fundamental_div_mod(m as int, p as int);
    let q = m / p;
    let r = m % p;
    assert(m * b == q * (p * b) + r * b) by (nonlinear_arith)
        requires
            m == p * q + r,
    ;
    assert(0 <= r * b < p * b) by (nonlinear_arith)
        requires
            0 <= r < p,
            b > 0,
    ;
    lemma_fundamental_div_mod_converse(
        (m * b) as int,
        (p * b) as int,
        q as int,
        (r * b) as int,
    );
}

/// A size with an exponent this large is a whole number.
proof fn lemma_integer(m: nat, e: nat)
    requires
        e >= 1074,
    ensures
        (m * pow2(e)) / one() == m * pow2((e - 1074) as nat),
        (m * pow2(e)) % one() == 0,
{
    let k = (e - 1074) as nat;
    lemma_pow2_adds(k, 1074);
    lemma_pow2_pos(1074);
    let q = m * pow2(k);
    assert(m * pow2(e) == q * one()) by (nonlinear_arith)
        requires
            q == m * pow2(k),
            pow2(e) == pow2(k) * one(),
    ;
    lemma_fundamental_div_mod_converse((m * pow2(e)) as int, one() as int, q as int, 0);
}

/// The integer part of a number below 2^53; whether the rest is at least a
/// half; whether there is any rest.
fn parts(magnitude: u64) -> (r: (u64, bool, bool))
    requires
        magnitude < 1075 * HIDDEN,
    ensures
        r.0 < 0x20_0000_0000_0000,
        r.0 == size_of_magnitude(magnitude as nat) / one(),
        r.1 <==> 2 * (size_of_magnitude(magnitude as nat) % one()) >= one(),
        r.2 <==> size_of_magnitude(magnitude as nat) % one() > 0,
{
    let (m, e): (u64, i64) = decode(magnitude);
    proof {
        lemma_integer_part(m as nat, e as nat);
        lemma_pow2_pos(e as nat);
    }
    let k: u64 = (1074 - e) as u64;
    let ghost p = pow2(k as nat);
    let ghost b = pow2(e as nat);
    proof {
        lemma_powers();
        lemma_pow2_pos(k as nat);
        let r = m as nat % p;
        assert((2 * (r * b) >= p * b <==> 2 * r >= p) && (r * b > 0 <==> r > 0))
            by (nonlinear_arith)
            requires
                b > 0,
        ;
    }
    if k >= 54 {
        proof {
            if k > 54 {
                lemma_pow2_strictly_increases(54, k as nat);
            }
            lemma_fundamental_div_mod_converse(m as int, p as int, 0, m as int);
        }
        (0, false, m > 0)
    } else {
        proof {
            if k < 54 {
                lemma_pow2_strictly_increases(k as nat, 54);
            }
            lemma_fundamental_div_mod(m as int, p as int);
            assert(m as nat / p <= m) by (nonlinear_arith)
                requires
                    m == p * (m as nat / p) + m as nat % p,
                    p >= 1,
                    m as nat % p >= 0,
                    m as nat / p >= 0,
            ;
        }
        let p: u64 = power_of_two(k) as u64;
        let low: u64 = m % p;
        (m / p, 2 * low >= p, low > 0)
    }
}

/// The number nearest to `n`.
pub fn from_u64(n: u64) -> (r: Binary64)
    ensures
        r == whole(n as nat),
{
    proof {
        lemma_cut_off_whole(n as nat, 1074);
    }
    with_sign(false, round(n as u128, 1074, false, Ghost(n as nat * one()), Ghost(1)))
}

proof fn lemma_half_up(size: nat)
    ensures
        half_up(size) == size / one() + (if 2 * (size % one()) >= one() {
            1nat
        } else {
            0
        }),
{
    lemma_pow2_pos(1074);
    lemma_fundamental_div_mod(size as int, one() as int);
    let q = size / one();
    let r = size % one();
    if 2 * r >= one() {
        assert(2 * size + one() == (q + 1) * (2 * one()) + (2 * r - one())) by (nonlinear_arith)
            requires
                size == one() * q + r,
        ;
        lemma_fundamental_div_mod_converse(
            (2 * size + one()) as int,
            (2 * one()) as int,
            (q + 1) as int,
            2 * r - one(),
        );
    } else {
        assert(2 * size + one() == q * (2 * one()) + (2 * r + one())) by (nonlinear_arith)
            requires
                size == one() * q + r,
        ;
        lemma_fundamental_div_mod_converse(
            (2 * size + one()) as int,
            (2 * one()) as int,
            q as int,
            (2 * r + one()) as int,
        );
    }
}

proof fn lemma_next_whole(size: nat)
    ensures
        next_whole(size) == size / one() + (if size % one() > 0 {
            1nat
        } else {
            0
        }),
{
    lemma_pow2_pos(1074);
    lemma_fundamental_div_mod(size as int, one() as int);
    let q = size / one();
    let r = size % one();
    if r > 0 {
        assert(size + one() - 1 == (q + 1) * one() + (r - 1)) by (nonlinear_arith)
            requires
                size == one() * q + r,
        ;
        lemma_fundamental_div_mod_converse(
            size + one() - 1,
            one() as int,
            (q + 1) as int,
            r - 1,
        );
    } else {
        assert(size + one() - 1 == q * one() + (one() - 1)) by (nonlinear_arith)
            requires
                size == one() * q + r,
                r == 0,
        ;
        lemma_fundamental_div_mod_converse(
            size + one() - 1,
            one() as int,
            q as int,
            one() - 1,
        );
    }
}

/// Beyond 2^52 every number is whole.
proof fn lemma_already_whole(magnitude: u64)
    requires
        1075 * HIDDEN <= magnitude < INFINITY,
    ensures
        half_up(size_of_magnitude(magnitude as nat)) * one() == size_of_magnitude(magnitude as nat),
        (size_of_magnitude(magnitude as nat) / one()) * one() == size_of_magnitude(
            magnitude as nat,
        ),
        next_whole(size_of_magnitude(magnitude as nat)) * one() == size_of_magnitude(
            magnitude as nat,
        ),
        rounded(size_of_magnitude(magnitude as nat), 1) == magnitude,
{
    let size = size_of_magnitude(magnitude as nat);
    let exponent = magnitude as nat / HIDDEN as nat;
    let fraction = magnitude as nat % HIDDEN as nat;
    lemma_integer((HIDDEN + fraction) as nat, (exponent - 1) as nat);
    lemma_pow2_pos(1074);
    lemma_fundamental_div_mod(size as int, one() as int);
    lemma_half_up(size);
    lemma_next_whole(size);
    assert(size == (size / one()) * one()) by (nonlinear_arith)
        requires
            size == one() * (size / one()),
    ;
    lemma_rounded_exact(magnitude as nat, 1);
    assert(size * 1 == size);
}

/// The nanoseconds in `seconds`, to the nearest; half way goes to the even one.
pub open spec fn nanoseconds(seconds: Binary64) -> nat {
    nearest_integer(seconds.size() * 1_000_000_000, one())
}

/// Times are not negative, and their whole seconds fit in 64 bits.
pub open spec fn is_time(seconds: Binary64) -> bool {
    seconds.finite() && seconds.units() >= 0 && seconds.size() < 0x1_0000_0000_0000_0000 * one()
}

/// Every number of seconds before a horizon is a time.
pub open spec fn is_horizon(seconds: Binary64) -> bool {
    seconds.finite() && seconds.units() >= 0 && seconds.size() <= 0x1_0000_0000_0000_0000 * one()
}

/// A multiple of a number, rounded to an integer, in terms of its digits.
pub proof fn lemma_nearest_multiple(m: nat, e: nat, factor: nat)
    ensures
        e <= 1074 ==> nearest_integer((m * pow2(e)) * factor, one()) == nearest_integer(
            m * factor,
            pow2((1074 - e) as nat),
        ),
        e >= 1074 ==> nearest_integer((m * pow2(e)) * factor, one()) == (m * factor) * pow2(
            (e - 1074) as nat,
        ),
{
    lemma_pow2_pos(1074);
    let x = (m * pow2(e)) * factor;
    let a = m * factor;
    assert(x == a * pow2(e) && x == pow2(e) * a) by (nonlinear_arith)
        requires
            x == (m * pow2(e)) * factor,
            a == m * factor,
    ;
    if e <= 1074 {
        let k = (1074 - e) as nat;
        lemma_pow2_adds(e, k);
        lemma_pow2_pos(k);
        lemma_pow2_pos(e);
        lemma_nearest_integer_scaled(a, pow2(k), pow2(e));
    }
    if e >= 1074 {
        let k = (e - 1074) as nat;
        lemma_pow2_adds(k, 1074);
        let y = a * pow2(k);
        assert(y * one() <= x < (y + 1) * one()) by (nonlinear_arith)
            requires
                x == a * pow2(e),
                pow2(e) == pow2(k) * one(),
                y == a * pow2(k),
                one() > 0,
        ;
        assert(y * one() == x) by (nonlinear_arith)
            requires
                x == a * pow2(e),
                pow2(e) == pow2(k) * one(),
                y == a * pow2(k),
        ;
        lemma_nearest_integer_is(x, one(), y);
    }
}

/// A number below 2^64 has an exponent below 64.
proof fn lemma_exponent_of_time(m: nat, e: nat)
    requires
        m >= HIDDEN,
        m * pow2(e) < 0x1_0000_0000_0000_0000 * one(),
    ensures
        e < 1074 + 12,
{
    if e >= 1074 + 12 {
        lemma_powers();
        lemma_pow2_adds(52, 1086);
        lemma_pow2_adds(64, 1074);
        if e > 1086 {
            lemma_pow2_strictly_increases(1086, e);
        }
        assert(m * pow2(e) >= HIDDEN * pow2(1086)) by (nonlinear_arith)
            requires
                m >= HIDDEN,
                pow2(e) >= pow2(1086),
        ;
        assert(false);
    }
}

impl Binary64 {
    /// The nearest integer; half way goes away from zero.
    pub fn round(self) -> (r: Self)
        ensures
            r == self.nearest_whole(),
    {
        let a: u64 = self.bits % SIGN;
        if a >= INFINITY {
            self
        } else if a >= 1075 * HIDDEN {
            proof {
                lemma_already_whole(a);
            }
            self
        } else {
            let (floor, half, _any): (u64, bool, bool) = parts(a);
            proof {
                lemma_half_up(self.size());
            }
            let n: u64 = if half {
                floor + 1
            } else {
                floor
            };
            let w: Binary64 = from_u64(n);
            if self.bits >= SIGN {
                w.neg()
            } else {
                w
            }
        }
    }

    /// The first integer that is not below `self`.
    pub fn ceil(self) -> (r: Self)
        ensures
            r == self.ceiling(),
    {
        let a: u64 = self.bits % SIGN;
        if a >= INFINITY {
            self
        } else if a >= 1075 * HIDDEN {
            proof {
                lemma_already_whole(a);
            }
            self
        } else {
            let (floor, _half, any): (u64, bool, bool) = parts(a);
            proof {
                lemma_next_whole(self.size());
            }
            if self.bits >= SIGN {
                from_u64(floor).neg()
            } else if any {
                from_u64(floor + 1)
            } else {
                from_u64(floor)
            }
        }
    }

    /// The integer part, held within `u64`.
    pub fn to_u64(self) -> (r: u64)
        ensures
            r == self.saturated(),
    {
        let a: u64 = self.bits % SIGN;
        if a > INFINITY || self.bits >= SIGN {
            return 0;
        }
        if a == INFINITY {
            return u64::MAX;
        }
        if a < 1075 * HIDDEN {
            return parts(a).0;
        }
        let (m, e): (u64, i64) = decode(a);
        proof {
            lemma_integer(m as nat, e as nat);
            lemma_powers();
            vstd::arithmetic::power2::lemma2_to64();
        }
        let k: u64 = (e - 1074) as u64;
        if k >= 12 {
            proof {
                if k > 12 {
                    lemma_pow2_strictly_increases(12, k as nat);
                }
                assert(m * pow2(k as nat) >= HIDDEN * 4096) by (nonlinear_arith)
                    requires
                        m >= HIDDEN,
                        pow2(k as nat) >= 4096,
                ;
            }
            return u64::MAX;
        }
        proof {
            lemma_pow2_strictly_increases(k as nat, 12);
            assert(m * pow2(k as nat) <= 0x1F_FFFF_FFFF_FFFF * 2048) by (nonlinear_arith)
                requires
                    m <= 0x1F_FFFF_FFFF_FFFF,
                    pow2(k as nat) <= 2048,
            ;
        }
        m * power_of_two(k) as u64
    }

    /// The greater of the two; where one is not a number, the other.
    pub fn max(self, other: Self) -> (r: Self)
        ensures
            r == self.greater(other),
    {
        if other.is_nan() || other.lt(self) {
            self
        } else {
            other
        }
    }
}

/// The integer nearest to `m * factor / 2^k`; half way goes to the even one.
pub(crate) fn nearest_scaled(m: u64, factor: u64, k: u64) -> (r: u128)
    requires
        m < 0x20_0000_0000_0000,
        factor <= 1_000_000_000,
        k > 0,
    ensures
        r == nearest_integer(m as nat * factor as nat, pow2(k as nat)),
        2 * r <= m as nat * factor as nat + 2,
{
    proof {
        lemma_powers();
        vstd::arithmetic::power2::lemma2_to64();
        lemma_pow2_adds(20, 64);
        lemma_pow2_pos(k as nat);
        assert(m * factor <= 0x1F_FFFF_FFFF_FFFF * 1_000_000_000) by (nonlinear_arith)
            requires
                m <= 0x1F_FFFF_FFFF_FFFF,
                factor <= 1_000_000_000,
        ;
    }
    let top: u128 = m as u128 * factor as u128;
    let ghost p = pow2(k as nat);
    proof {
        vstd::arithmetic::power2::lemma_pow2_unfold(k as nat);
        lemma_pow2_pos((k - 1) as nat);
        lemma_fundamental_div_mod(top as int, p as int);
        assert(2 * (top as nat / p) <= top) by (nonlinear_arith)
            requires
                top == p * (top as nat / p) + top as nat % p,
                p >= 2,
                top as nat % p >= 0,
                top as nat / p >= 0,
        ;
    }
    if k > 84 {
        proof {
            lemma_pow2_strictly_increases(84, k as nat);
            vstd::arithmetic::power2::lemma_pow2_unfold(85);
            if k > 85 {
                lemma_pow2_strictly_increases(85, k as nat);
            }
            lemma_fundamental_div_mod_converse(top as int, p as int, 0, top as int);
        }
        0
    } else {
        proof {
            if k < 84 {
                lemma_pow2_strictly_increases(k as nat, 84);
            }
        }
        let p: u128 = power_of_two(k);
        let q: u128 = top / p;
        let r: u128 = top % p;
        if 2 * r < p || (2 * r == p && q % 2 == 0) {
            q
        } else {
            q + 1
        }
    }
}

/// The nanoseconds in a number of seconds.
pub fn duration_from_secs(seconds: Binary64) -> (r: u128)
    requires
        is_time(seconds),
    ensures
        r == nanoseconds(seconds),
        r < 0x1_0000_0000_0000_0000 * 1_000_000_000,
{
    let a: u64 = seconds.bits % SIGN;
    let (m, e): (u64, i64) = decode(a);
    proof {
        lemma_nearest_multiple(m as nat, e as nat, 1_000_000_000);
        lemma_powers();
        vstd::arithmetic::power2::lemma2_to64();
    }
    if e >= 1074 {
        let top: u128 = m as u128 * 1_000_000_000;
        let k: u64 = (e - 1074) as u64;
        proof {
            lemma_exponent_of_time(m as nat, e as nat);
            lemma_pow2_strictly_increases(k as nat, 12);
            assert(top * pow2(k as nat) <= (0x1F_FFFF_FFFF_FFFF * 1_000_000_000) * 2048)
                by (nonlinear_arith)
                requires
                    top <= 0x1F_FFFF_FFFF_FFFF * 1_000_000_000,
                    pow2(k as nat) <= 2048,
            ;
        }
        top * power_of_two(k)
    } else {
        nearest_scaled(m, 1_000_000_000, (1074 - e) as u64)
    }
}

} // verus!
