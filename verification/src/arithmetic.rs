//! Arithmetic on double-precision numbers.
//!
//! Each operation gives the exact result, rounded once to the nearest number.

use vstd::arithmetic::div_mod::lemma_fundamental_div_mod;
use vstd::arithmetic::power2::lemma_pow2_adds;
use vstd::arithmetic::power2::lemma_pow2_pos;
use vstd::arithmetic::power2::lemma_pow2_strictly_increases;
use vstd::arithmetic::power2::pow2;
use vstd::prelude::*;

use crate::binary64::lemma_size_ordered;
use crate::binary64::size_of_magnitude;
use crate::binary64::Binary64;
use crate::binary64::HIDDEN;
use crate::binary64::INFINITY;
use crate::binary64::MINUS_ZERO;
use crate::binary64::NOT_A_NUMBER;
use crate::binary64::SIGN;
use crate::binary64::UNIT_EXPONENT;
use crate::rounding::cut_off;
use crate::rounding::digits;
use crate::rounding::lemma_powers;
use crate::rounding::lemma_power_below_128;
use crate::rounding::lemma_up_pos;
use crate::rounding::power_of_two;
use crate::rounding::round;
use crate::rounding::nearest_magnitude;
use crate::rounding::rounded;
use crate::rounding::up;

verus! {

/// The number of units of 2^-1074 in 1.
pub open spec fn one() -> nat {
    pow2(UNIT_EXPONENT as nat)
}

/// The number with this sign and these bits below it.
pub open spec fn signed(negative: bool, magnitude: nat) -> Binary64 {
    Binary64 {
        bits: (if negative {
            magnitude + SIGN
        } else {
            magnitude as int
        }) as u64,
    }
}

pub open spec fn not_a_number() -> Binary64 {
    Binary64 { bits: NOT_A_NUMBER }
}

/// The absolute value of an integer.
pub open spec fn distance(x: int) -> nat {
    if x < 0 {
        (-x) as nat
    } else {
        x as nat
    }
}

impl Binary64 {
    /// `-self`.
    pub open spec fn opposite(self) -> Self {
        signed(!self.negative(), self.magnitude())
    }

    /// The absolute value.
    pub open spec fn absolute(self) -> Self {
        signed(false, self.magnitude())
    }

    /// `self + other`. A sum of zero is negative only when both terms are.
    pub open spec fn plus(self, other: Self) -> Self {
        if self.nan() || other.nan() {
            not_a_number()
        } else if self.infinite() && other.infinite() {
            if self.negative() == other.negative() {
                self
            } else {
                not_a_number()
            }
        } else if self.infinite() {
            self
        } else if other.infinite() {
            other
        } else {
            let sum = self.units() + other.units();
            if sum == 0 {
                signed(self.negative() && other.negative(), 0)
            } else {
                signed(sum < 0, rounded(distance(sum), 1))
            }
        }
    }

    /// `self - other`.
    pub open spec fn minus(self, other: Self) -> Self {
        self.plus(other.opposite())
    }

    /// `self * other`.
    pub open spec fn times(self, other: Self) -> Self {
        let negative = self.negative() != other.negative();
        if self.nan() || other.nan() {
            not_a_number()
        } else if self.infinite() || other.infinite() {
            if self.size() == 0 || other.size() == 0 {
                not_a_number()
            } else {
                signed(negative, INFINITY as nat)
            }
        } else {
            signed(negative, rounded(self.size() * other.size(), one()))
        }
    }

    /// `self / other`.
    pub open spec fn over(self, other: Self) -> Self {
        let negative = self.negative() != other.negative();
        if self.nan() || other.nan() {
            not_a_number()
        } else if self.infinite() {
            if other.infinite() {
                not_a_number()
            } else {
                signed(negative, INFINITY as nat)
            }
        } else if other.infinite() {
            signed(negative, 0)
        } else if other.size() == 0 {
            if self.size() == 0 {
                not_a_number()
            } else {
                signed(negative, INFINITY as nat)
            }
        } else {
            signed(negative, rounded(self.size() * one(), other.size()))
        }
    }
}

/// The digits and the exponent of a number below infinity.
pub(crate) fn decode(magnitude: u64) -> (r: (u64, i64))
    requires
        magnitude < INFINITY,
    ensures
        size_of_magnitude(magnitude as nat) == r.0 as nat * pow2(r.1 as nat),
        r.0 < 0x20_0000_0000_0000,
        0 <= r.1 <= 2045,
        r.1 > 0 ==> r.0 >= HIDDEN,
        r.1 == magnitude as int / HIDDEN as int - 1 || (r.1 == 0 && magnitude < HIDDEN),
        r.0 == 0 <==> magnitude == 0,
{
    let exponent: u64 = magnitude / HIDDEN;
    let fraction: u64 = magnitude % HIDDEN;
    proof {
        lemma_powers();
    }
    if exponent == 0 {
        assert(fraction * pow2(0) == fraction) by (nonlinear_arith)
            requires
                pow2(0) == 1,
        ;
        (fraction, 0)
    } else {
        assert(magnitude as nat / HIDDEN as nat == exponent);
        assert(magnitude as nat % HIDDEN as nat == fraction);
        (HIDDEN + fraction, exponent as i64 - 1)
    }
}

/// `2^a`, split by whether it exceeds `2^b`.
proof fn lemma_up_split(a: nat, b: nat)
    ensures
        up(a - b) * pow2(b) == pow2(a) * up(b - a),
{
    lemma_powers();
    if a > b {
        lemma_pow2_adds((a - b) as nat, b);
    } else {
        lemma_pow2_adds(a, (b - a) as nat);
    }
}

/// A whole number of units, all digits kept.
pub proof fn lemma_cut_off_whole(m: nat, e: nat)
    ensures
        cut_off(m, e as int, false, m * pow2(e), 1),
{
    lemma_powers();
    lemma_up_pos(e as int);
    let u = up(e as int);
    assert(u == pow2(e));
    assert(m * u < (m + 1) * u) by (nonlinear_arith)
        requires
            u > 0,
    ;
}

/// The two sizes added and rounded.
fn add_sizes(a: u64, b: u64) -> (r: u64)
    requires
        b <= a < INFINITY,
    ensures
        r == rounded(size_of_magnitude(a as nat) + size_of_magnitude(b as nat), 1),
{
    let (ma, ea): (u64, i64) = decode(a);
    let (mb, eb): (u64, i64) = decode(b);
    let gap: i64 = ea - eb;
    let ghost x = size_of_magnitude(a as nat) + size_of_magnitude(b as nat);
    if gap <= 72 {
        let g: u128 = power_of_two(gap as u64);
        proof {
            lemma_aligned(ma as nat, gap as nat, eb as nat);
            assert((ma * g + mb) * pow2(eb as nat) == (ma * g) * pow2(eb as nat) + mb * pow2(
                eb as nat,
            )) by (nonlinear_arith);
            lemma_cut_off_whole((ma * g + mb) as nat, eb as nat);
        }
        round(ma as u128 * g + mb as u128, eb, false, Ghost(x), Ghost(1))
    } else {
        let m: u128 = ma as u128 * 2048;
        proof {
            lemma_far_apart(ma as nat, ea as nat, mb as nat, eb as nat);
            lemma_powers();
        }
        round(m, ea - 11, mb > 0, Ghost(x), Ghost(1))
    }
}

/// The smaller size taken from the larger, and rounded.
fn subtract_sizes(a: u64, b: u64) -> (r: u64)
    requires
        b <= a < INFINITY,
    ensures
        r == rounded((size_of_magnitude(a as nat) - size_of_magnitude(b as nat)) as nat, 1),
{
    proof {
        lemma_size_ordered(b as nat, a as nat);
    }
    let (ma, ea): (u64, i64) = decode(a);
    let (mb, eb): (u64, i64) = decode(b);
    let gap: i64 = ea - eb;
    let ghost x = (size_of_magnitude(a as nat) - size_of_magnitude(b as nat)) as nat;
    if gap <= 72 {
        let g: u128 = power_of_two(gap as u64);
        proof {
            lemma_aligned(ma as nat, gap as nat, eb as nat);
            lemma_pow2_pos(eb as nat);
            assert((ma * g - mb) * pow2(eb as nat) == (ma * g) * pow2(eb as nat) - mb * pow2(
                eb as nat,
            )) by (nonlinear_arith);
            assert(ma * g >= mb) by (nonlinear_arith)
                requires
                    (ma * g) * pow2(eb as nat) >= mb * pow2(eb as nat),
                    pow2(eb as nat) > 0,
            ;
            lemma_cut_off_whole((ma * g - mb) as nat, eb as nat);
        }
        round(ma as u128 * g - mb as u128, eb, false, Ghost(x), Ghost(1))
    } else {
        let m: u128 = ma as u128 * 2048;
        proof {
            lemma_far_apart(ma as nat, ea as nat, mb as nat, eb as nat);
            lemma_powers();
        }
        if mb > 0 {
            round(m - 1, ea - 11, true, Ghost(x), Ghost(1))
        } else {
            round(m, ea - 11, false, Ghost(x), Ghost(1))
        }
    }
}

/// The larger number in the smaller one's exponent.
proof fn lemma_aligned(ma: nat, gap: nat, eb: nat)
    requires
        ma < 0x20_0000_0000_0000,
        gap <= 72,
    ensures
        ma * pow2((gap + eb) as nat) == (ma * pow2(gap)) * pow2(eb),
        ma * pow2(gap) < 0x2000_0000_0000_0000_0000_0000_0000_0000,
        pow2(gap) <= 0x100_0000_0000_0000_0000,
{
    lemma_pow2_adds(gap, eb);
    lemma_powers();
    vstd::arithmetic::power2::lemma2_to64();
    lemma_pow2_adds(8, 64);
    if gap < 72 {
        lemma_pow2_strictly_increases(gap, 72);
    }
    lemma_pow2_pos(gap);
    let g = pow2(gap);
    let p = pow2(eb);
    assert(ma * (g * p) == (ma * g) * p) by (nonlinear_arith);
    assert(ma * g < 0x20_0000_0000_0000 * 0x100_0000_0000_0000_0000) by (nonlinear_arith)
        requires
            ma < 0x20_0000_0000_0000,
            g <= 0x100_0000_0000_0000_0000,
            g > 0,
    ;
}

/// A term too small to reach the digits of the other only tips the rounding.
proof fn lemma_far_apart(ma: nat, ea: nat, mb: nat, eb: nat)
    requires
        HIDDEN <= ma < 0x20_0000_0000_0000,
        mb < 0x20_0000_0000_0000,
        ea - eb > 72,
    ensures
        cut_off(ma * 2048, ea - 11, mb > 0, ma * pow2(ea) + mb * pow2(eb), 1),
        mb > 0 ==> cut_off(
            (ma * 2048 - 1) as nat,
            ea - 11,
            true,
            (ma * pow2(ea) - mb * pow2(eb)) as nat,
            1,
        ),
        mb == 0 ==> cut_off(ma * 2048, ea - 11, false, ma * pow2(ea), 1),
        ma * pow2(ea) >= mb * pow2(eb),
{
    let e = (ea - 11) as nat;
    let u = pow2(e);
    let small = mb * pow2(eb);
    lemma_powers();
    vstd::arithmetic::power2::lemma2_to64();
    lemma_pow2_adds(11, e);
    assert(pow2(ea) == 2048 * u);
    assert(ma * pow2(ea) == (ma * 2048) * u) by (nonlinear_arith)
        requires
            pow2(ea) == 2048 * u,
    ;
    lemma_pow2_pos(eb);
    lemma_pow2_adds(53, eb);
    lemma_pow2_strictly_increases(53 + eb, e);
    assert(small < u) by (nonlinear_arith)
        requires
            small == mb * pow2(eb),
            mb < 0x20_0000_0000_0000,
            0x20_0000_0000_0000 * pow2(eb) < u,
            pow2(eb) > 0,
    ;
    let m = ma * 2048;
    assert((m + 1) * u == m * u + u && (m - 1) * u == m * u - u) by (nonlinear_arith);
    assert(m * u >= u) by (nonlinear_arith)
        requires
            m >= 1,
    ;
    if mb > 0 {
        assert(small > 0) by (nonlinear_arith)
            requires
                small == mb * pow2(eb),
                mb > 0,
                pow2(eb) > 0,
        ;
    }
    assert(up(ea - 11) == u);
    assert(up(-(ea - 11)) == 1);
}

/// The product of two sizes, rounded.
fn multiply_sizes(a: u64, b: u64) -> (r: u64)
    requires
        a < INFINITY,
        b < INFINITY,
    ensures
        r == rounded(size_of_magnitude(a as nat) * size_of_magnitude(b as nat), one()),
{
    let (ma, ea): (u64, i64) = decode(a);
    let (mb, eb): (u64, i64) = decode(b);
    let ghost x = size_of_magnitude(a as nat) * size_of_magnitude(b as nat);
    proof {
        assert(ma * mb < 0x20_0000_0000_0000 * 0x20_0000_0000_0000) by (nonlinear_arith)
            requires
                ma < 0x20_0000_0000_0000,
                mb < 0x20_0000_0000_0000,
        ;
        let pa = pow2(ea as nat);
        let pb = pow2(eb as nat);
        let s = (ea + eb) as nat;
        let m = ma as nat * mb as nat;
        lemma_pow2_adds(ea as nat, eb as nat);
        assert((ma * pa) * (mb * pb) == m * (pa * pb)) by (nonlinear_arith)
            requires
                m == ma * mb,
        ;
        let e = s - 1074;
        lemma_up_split(s, 1074);
        lemma_pow2_pos(1074);
        lemma_up_pos(e);
        let u = up(e) * one();
        let n = up(-e);
        assert(m * u == x * n) by (nonlinear_arith)
            requires
                u == pow2(s) * n,
                x == m * pow2(s),
        ;
        assert(u > 0) by (nonlinear_arith)
            requires
                u == up(e) * one(),
                up(e) > 0,
                one() > 0,
        ;
        assert(m * u < (m + 1) * u) by (nonlinear_arith)
            requires
                u > 0,
        ;
    }
    round(ma as u128 * mb as u128, ea + eb - 1074, false, Ghost(x), Ghost(one()))
}

/// The quotient of two sizes, rounded.
fn divide_sizes(a: u64, b: u64) -> (r: u64)
    requires
        0 < a < INFINITY,
        0 < b < INFINITY,
    ensures
        r == rounded(size_of_magnitude(a as nat) * one(), size_of_magnitude(b as nat)),
{
    let (ma, ea): (u64, i64) = decode(a);
    let (mb, eb): (u64, i64) = decode(b);
    let l: u64 = digits(ma as u128);
    proof {
        lemma_powers();
        if l > 54 {
            lemma_pow2_strictly_increases(54, l as nat);
            lemma_pow2_strictly_increases(53, (l - 1) as nat);
        }
        if l == 0 {
            assert(false);
        }
    }
    let k: u64 = 126 - l;
    let g: u128 = power_of_two(k);
    proof {
        lemma_pow2_adds(l as nat, k as nat);
        lemma_pow2_adds((l - 1) as nat, k as nat);
        lemma_power_below_128(126);
        lemma_pow2_pos(k as nat);
        let pl = pow2(l as nat);
        let ph = pow2((l - 1) as nat);
        assert(ma * g < pl * g && ma * g >= ph * g) by (nonlinear_arith)
            requires
                ph <= ma < pl,
                g > 0,
        ;
        vstd::arithmetic::power2::lemma_pow2_unfold(127);
        vstd::arithmetic::power2::lemma_pow2_unfold(126);
    }
    let top: u128 = ma as u128 * g;
    let q: u128 = top / (mb as u128);
    let sticky: bool = top % (mb as u128) != 0;
    let ghost x = size_of_magnitude(a as nat) * one();
    let ghost d = size_of_magnitude(b as nat);
    proof {
        lemma_fundamental_div_mod(top as int, mb as int);
        assert(q * mb <= top < (q + 1) * mb) by (nonlinear_arith)
            requires
                top == mb * q + top % (mb as u128),
                0 <= top % (mb as u128) < mb,
        ;
        assert(sticky <==> q * mb < top) by (nonlinear_arith)
            requires
                top == mb * q + top % (mb as u128),
                sticky <==> top % (mb as u128) != 0,
                0 <= top % (mb as u128),
        ;
        assert(q >= 0x40_0000_0000_0000) by (nonlinear_arith)
            requires
                top < (q + 1) * mb,
                top >= 0x2000_0000_0000_0000_0000_0000_0000_0000,
                0 < mb < 0x20_0000_0000_0000,
                q >= 0,
        ;
        assert(q < 0x8000_0000_0000_0000_0000_0000_0000_0000) by (nonlinear_arith)
            requires
                q * mb <= top,
                mb >= 1,
                top < 0x8000_0000_0000_0000_0000_0000_0000_0000,
                q >= 0,
        ;
        lemma_quotient_cut_off(
            ma as nat,
            ea as nat,
            mb as nat,
            eb as nat,
            k as nat,
            q as nat,
            sticky,
        );
        lemma_pow2_pos(eb as nat);
        assert(d > 0) by (nonlinear_arith)
            requires
                d == mb * pow2(eb as nat),
                mb > 0,
                pow2(eb as nat) > 0,
        ;
    }
    round(q, ea - eb + 1074 - k as i64, sticky, Ghost(x), Ghost(d))
}

proof fn lemma_quotient_cut_off(
    ma: nat,
    ea: nat,
    mb: nat,
    eb: nat,
    k: nat,
    q: nat,
    sticky: bool,
)
    requires
        mb > 0,
        q * mb <= ma * pow2(k) < (q + 1) * mb,
        sticky <==> q * mb < ma * pow2(k),
    ensures
        cut_off(q, ea - eb + 1074 - k, sticky, (ma * pow2(ea)) * one(), mb * pow2(eb)),
{
    let top = ma * pow2(k);
    let x = (ma * pow2(ea)) * one();
    let d = mb * pow2(eb);
    let a = (ea + 1074) as nat;
    let b = eb + k;
    let e = a - b;
    let u = up(e) * d;
    let n = up(-e);
    lemma_up_split(a, b);
    lemma_pow2_adds(ea, 1074);
    lemma_pow2_adds(eb, k);
    lemma_pow2_pos(k);
    lemma_pow2_pos(b);
    lemma_up_pos(e);
    let pk = pow2(k);
    let w = up(e) * pow2(b);
    assert(w > 0) by (nonlinear_arith)
        requires
            w == up(e) * pow2(b),
            up(e) > 0,
            pow2(b) > 0,
    ;
    assert((x * n) * pk == top * w) by (nonlinear_arith)
        requires
            x == (ma * pow2(ea)) * one(),
            pow2(a) == pow2(ea) * one(),
            w == pow2(a) * n,
            top == ma * pk,
    ;
    assert(u * pk == mb * w) by (nonlinear_arith)
        requires
            u == up(e) * (mb * pow2(eb)),
            pow2(b) == pow2(eb) * pk,
            w == up(e) * pow2(b),
    ;
    assert((q * u) * pk == (q * mb) * w && ((q + 1) * u) * pk == ((q + 1) * mb) * w)
        by (nonlinear_arith)
        requires
            u * pk == mb * w,
    ;
    assert((q * mb) * w <= top * w && top * w < ((q + 1) * mb) * w) by (nonlinear_arith)
        requires
            q * mb <= top < (q + 1) * mb,
            w > 0,
    ;
    assert((q * mb) * w < top * w <==> q * mb < top) by (nonlinear_arith)
        requires
            w > 0,
    ;
    let y = x * n;
    let lo = q * u;
    let hi = (q + 1) * u;
    assert(lo <= y && y < hi && (lo < y <==> lo * pk < y * pk)) by (nonlinear_arith)
        requires
            lo * pk <= y * pk,
            y * pk < hi * pk,
            pk > 0,
    ;
}

pub(crate) fn with_sign(negative: bool, magnitude: u64) -> (r: Binary64)
    requires
        magnitude < SIGN,
    ensures
        r == signed(negative, magnitude as nat),
{
    if negative {
        Binary64 { bits: magnitude + SIGN }
    } else {
        Binary64 { bits: magnitude }
    }
}

/// What `signed` puts together comes apart again.
pub proof fn lemma_signed(negative: bool, magnitude: nat)
    requires
        magnitude < SIGN,
    ensures
        signed(negative, magnitude).negative() == negative,
        signed(negative, magnitude).magnitude() == magnitude,
{
}

impl Binary64 {
    /// `-self`.
    pub fn neg(self) -> (r: Self)
        ensures
            r == self.opposite(),
    {
        with_sign(!(self.bits >= SIGN), self.bits % SIGN)
    }

    /// The absolute value.
    pub fn abs(self) -> (r: Self)
        ensures
            r == self.absolute(),
    {
        Binary64 { bits: self.bits % SIGN }
    }

    /// `self + other`.
    pub fn add(self, other: Self) -> (r: Self)
        ensures
            r == self.plus(other),
    {
        let a: u64 = self.bits % SIGN;
        let b: u64 = other.bits % SIGN;
        let na: bool = self.bits >= SIGN;
        let nb: bool = other.bits >= SIGN;
        proof {
            lemma_size_ordered(a as nat, b as nat);
            lemma_size_ordered(0, a as nat);
            lemma_size_ordered(0, b as nat);
            assert(size_of_magnitude(0) == 0);
        }
        if a > INFINITY || b > INFINITY {
            Binary64 { bits: NOT_A_NUMBER }
        } else if a == INFINITY && b == INFINITY {
            if na == nb {
                self
            } else {
                Binary64 { bits: NOT_A_NUMBER }
            }
        } else if a == INFINITY {
            self
        } else if b == INFINITY {
            other
        } else if na == nb {
            if a == 0 && b == 0 {
                with_sign(na, 0)
            } else if a >= b {
                with_sign(na, add_sizes(a, b))
            } else {
                with_sign(na, add_sizes(b, a))
            }
        } else if a == b {
            with_sign(false, 0)
        } else if a > b {
            with_sign(na, subtract_sizes(a, b))
        } else {
            with_sign(nb, subtract_sizes(b, a))
        }
    }

    /// `self - other`.
    pub fn sub(self, other: Self) -> (r: Self)
        ensures
            r == self.minus(other),
    {
        self.add(other.neg())
    }

    /// `self * other`.
    pub fn mul(self, other: Self) -> (r: Self)
        ensures
            r == self.times(other),
    {
        let a: u64 = self.bits % SIGN;
        let b: u64 = other.bits % SIGN;
        let negative: bool = (self.bits >= SIGN) != (other.bits >= SIGN);
        proof {
            lemma_size_ordered(0, a as nat);
            lemma_size_ordered(0, b as nat);
            assert(size_of_magnitude(0) == 0);
        }
        if a > INFINITY || b > INFINITY {
            Binary64 { bits: NOT_A_NUMBER }
        } else if a == INFINITY || b == INFINITY {
            if a == 0 || b == 0 {
                Binary64 { bits: NOT_A_NUMBER }
            } else {
                with_sign(negative, INFINITY)
            }
        } else {
            with_sign(negative, multiply_sizes(a, b))
        }
    }

    /// `self / other`.
    pub fn div(self, other: Self) -> (r: Self)
        ensures
            r == self.over(other),
    {
        let a: u64 = self.bits % SIGN;
        let b: u64 = other.bits % SIGN;
        let negative: bool = (self.bits >= SIGN) != (other.bits >= SIGN);
        proof {
            lemma_size_ordered(0, a as nat);
            lemma_size_ordered(0, b as nat);
            assert(size_of_magnitude(0) == 0);
        }
        if a > INFINITY || b > INFINITY {
            Binary64 { bits: NOT_A_NUMBER }
        } else if a == INFINITY {
            if b == INFINITY {
                Binary64 { bits: NOT_A_NUMBER }
            } else {
                with_sign(negative, INFINITY)
            }
        } else if b == INFINITY {
            with_sign(negative, 0)
        } else if b == 0 {
            if a == 0 {
                Binary64 { bits: NOT_A_NUMBER }
            } else {
                with_sign(negative, INFINITY)
            }
        } else if a == 0 {
            proof {
                lemma_zero_over(size_of_magnitude(b as nat));
            }
            with_sign(negative, 0)
        } else {
            with_sign(negative, divide_sizes(a, b))
        }
    }
}

proof fn lemma_zero_over(d: nat)
    requires
        d > 0,
    ensures
        rounded(0 * one(), d) == 0,
{
    reveal(nearest_magnitude);
    assert(0 * one() == 0);
    assert(0 * d == 0 && (0 + 1) * d == d) by (nonlinear_arith);
    crate::rounding::lemma_nearest_integer_is(0, d, 0);
}

/// The sum of `items`, added up from the front.
pub open spec fn sum_of(items: Seq<Binary64>) -> Binary64
    decreases items.len(),
{
    if items.len() == 0 {
        Binary64 { bits: MINUS_ZERO }
    } else {
        sum_of(items.drop_last()).plus(items.last())
    }
}

/// The sum of `items`, added up from the front.
pub fn sum(items: &Vec<Binary64>) -> (r: Binary64)
    ensures
        r == sum_of(items@),
{
    let mut total: Binary64 = Binary64::from_bits(MINUS_ZERO);
    let mut i: usize = 0;
    while i < items.len()
        invariant
            i <= items.len(),
            total == sum_of(items@.take(i as int)),
        decreases items.len() - i,
    {
        proof {
            let next = items@.take(i + 1);
            assert(next.drop_last() =~= items@.take(i as int));
        }
        total = total.add(items[i]);
        i = i + 1;
    }
    assert(items@.take(i as int) =~= items@);
    total
}

} // verus!
