//! Double-precision numbers as bit patterns.
//!
//! Scenario files and latency statistics are written in IEEE 754 binary64. A
//! [`Binary64`] holds such a number as its 64 bits. What it is worth is stated
//! exactly: every finite number is a whole multiple of the smallest positive
//! one, so its value is an integer count of these units.

use vstd::arithmetic::power2::lemma_pow2_adds;
use vstd::arithmetic::power2::lemma_pow2_pos;
use vstd::arithmetic::power2::lemma_pow2_unfold;
use vstd::arithmetic::power2::pow2;
use vstd::prelude::*;

verus! {

/// 2^52: one step of the exponent field.
pub const HIDDEN: u64 = 0x10_0000_0000_0000;

/// 2^63: the sign bit.
pub const SIGN: u64 = 0x8000_0000_0000_0000;

/// The bits of positive infinity; anything above (sign aside) is not a number.
pub const INFINITY: u64 = 0x7FF0_0000_0000_0000;

/// The bits of the value that stands for "not a number".
pub const NOT_A_NUMBER: u64 = 0x7FF8_0000_0000_0000;

/// Units in 1: the smallest positive number is 2^-1074.
pub const UNIT_EXPONENT: u64 = 1074;

/// 1.
pub const ONE: u64 = 0x3FF0_0000_0000_0000;

/// 2.
pub const TWO: u64 = 0x4000_0000_0000_0000;

/// -1.
pub const MINUS_ONE: u64 = 0xBFF0_0000_0000_0000;

/// 0.5.
pub const HALF: u64 = 0x3FE0_0000_0000_0000;

/// -0: the empty sum.
pub const MINUS_ZERO: u64 = 0x8000_0000_0000_0000;

/// A double-precision number, by its bits.
#[derive(Clone, Copy, Debug, PartialEq, Eq, Structural)]
pub struct Binary64 {
    pub bits: u64,
}

/// The number 1.
pub open spec fn unity() -> Binary64 {
    Binary64 { bits: ONE }
}

/// The number 0.
pub open spec fn zero() -> Binary64 {
    Binary64 { bits: 0 }
}

/// What the bits below the sign bit are worth, in units of 2^-1074.
pub open spec fn size_of_magnitude(magnitude: nat) -> nat {
    let exponent = magnitude / (HIDDEN as nat);
    let fraction = magnitude % (HIDDEN as nat);
    if exponent == 0 {
        fraction
    } else {
        (HIDDEN as nat + fraction) * pow2((exponent - 1) as nat)
    }
}

impl Binary64 {
    /// The number without its sign, as bits.
    pub open spec fn magnitude(self) -> nat {
        (self.bits % SIGN) as nat
    }

    pub open spec fn negative(self) -> bool {
        self.bits >= SIGN
    }

    pub open spec fn nan(self) -> bool {
        self.magnitude() > INFINITY
    }

    pub open spec fn infinite(self) -> bool {
        self.magnitude() == INFINITY
    }

    pub open spec fn finite(self) -> bool {
        self.magnitude() < INFINITY
    }

    /// The absolute value in units of 2^-1074. Infinity counts as the next
    /// power of two above the largest finite number.
    pub open spec fn size(self) -> nat {
        size_of_magnitude(self.magnitude())
    }

    /// The value in units of 2^-1074.
    pub open spec fn units(self) -> int {
        if self.negative() {
            -(self.size() as int)
        } else {
            self.size() as int
        }
    }

    /// A finite number above zero.
    pub open spec fn positive(self) -> bool {
        self.finite() && self.units() > 0
    }

    /// A finite number that is not below zero.
    pub open spec fn not_negative(self) -> bool {
        self.finite() && self.units() >= 0
    }

    /// `self < other`, as numbers: never true of what is not a number.
    pub open spec fn less(self, other: Self) -> bool {
        !self.nan() && !other.nan() && self.units() < other.units()
    }

    /// `self <= other`, as numbers.
    pub open spec fn less_or_equal(self, other: Self) -> bool {
        !self.nan() && !other.nan() && self.units() <= other.units()
    }
}

/// The worth of a bit pattern grows with the pattern.
pub proof fn lemma_size_increases(a: nat, b: nat)
    requires
        a < b,
    ensures
        size_of_magnitude(a) < size_of_magnitude(b),
{
    let h = HIDDEN as int;
    let ea = a / (HIDDEN as nat);
    let fa = a % (HIDDEN as nat);
    let eb = b / (HIDDEN as nat);
    let fb = b % (HIDDEN as nat);
    assert(a == h * ea + fa && b == h * eb + fb);
    if ea == eb {
        assert(fa < fb);
        if ea > 0 {
            let p = pow2((ea - 1) as nat);
            lemma_pow2_pos((ea - 1) as nat);
            assert((h + fa) * p < (h + fb) * p) by (nonlinear_arith)
                requires
                    fa < fb,
                    p > 0,
            ;
        }
    } else {
        assert(ea < eb);
        let q = pow2((eb - 1) as nat);
        lemma_pow2_pos((eb - 1) as nat);
        assert((h + fb) * q >= h * q) by (nonlinear_arith)
            requires
                fb >= 0,
                q > 0,
        ;
        if ea == 0 {
            assert(h * q >= h) by (nonlinear_arith)
                requires
                    q >= 1,
                    h >= 0,
            ;
        } else {
            let p = pow2((ea - 1) as nat);
            lemma_pow2_pos((ea - 1) as nat);
            lemma_pow2_adds(ea, (eb - 1 - ea) as nat);
            lemma_pow2_pos((eb - 1 - ea) as nat);
            lemma_pow2_unfold(ea);
            let r = pow2((eb - 1 - ea) as nat);
            assert(q == (2 * p) * r);
            assert((2 * p) * r >= 2 * p) by (nonlinear_arith)
                requires
                    r >= 1,
                    p > 0,
            ;
            assert((h + fa) * p < h * (2 * p)) by (nonlinear_arith)
                requires
                    fa < h,
                    p > 0,
            ;
            assert(h * q >= h * (2 * p)) by (nonlinear_arith)
                requires
                    q >= 2 * p,
                    h >= 0,
            ;
        }
    }
}

/// Two patterns compare as what they are worth.
pub proof fn lemma_size_ordered(a: nat, b: nat)
    ensures
        a < b <==> size_of_magnitude(a) < size_of_magnitude(b),
        a == b <==> size_of_magnitude(a) == size_of_magnitude(b),
{
    if a < b {
        lemma_size_increases(a, b);
    }
    if b < a {
        lemma_size_increases(b, a);
    }
}

impl Binary64 {
    pub fn from_bits(bits: u64) -> (r: Self)
        ensures
            r.bits == bits,
    {
        Binary64 { bits }
    }

    pub fn to_bits(self) -> (r: u64)
        ensures
            r == self.bits,
    {
        self.bits
    }

    pub fn is_nan(self) -> (r: bool)
        ensures
            r == self.nan(),
    {
        self.bits % SIGN > INFINITY
    }

    pub fn is_finite(self) -> (r: bool)
        ensures
            r == self.finite(),
    {
        self.bits % SIGN < INFINITY
    }

    pub fn is_infinite(self) -> (r: bool)
        ensures
            r == self.infinite(),
    {
        self.bits % SIGN == INFINITY
    }

    /// `self < other`.
    pub fn lt(self, other: Self) -> (r: bool)
        ensures
            r == self.less(other),
    {
        let a: u64 = self.bits % SIGN;
        let b: u64 = other.bits % SIGN;
        proof {
            lemma_size_ordered(a as nat, b as nat);
            lemma_size_ordered(0, a as nat);
            lemma_size_ordered(0, b as nat);
            assert(size_of_magnitude(0) == 0);
        }
        if a > INFINITY || b > INFINITY {
            false
        } else if self.bits >= SIGN {
            if other.bits >= SIGN {
                b < a
            } else {
                a > 0 || b > 0
            }
        } else {
            other.bits < SIGN && a < b
        }
    }

    /// Finite and above zero.
    pub fn is_positive(self) -> (r: bool)
        ensures
            r == self.positive(),
    {
        proof {
            lemma_size_ordered(0, self.magnitude());
            assert(size_of_magnitude(0) == 0);
        }
        self.is_finite() && self.bits < SIGN && self.bits > 0
    }

    /// Finite and not below zero.
    pub fn is_not_negative(self) -> (r: bool)
        ensures
            r == self.not_negative(),
    {
        proof {
            lemma_size_ordered(0, self.magnitude());
            assert(size_of_magnitude(0) == 0);
        }
        self.is_finite() && self.bits <= SIGN
    }

    /// `self <= other`.
    pub fn le(self, other: Self) -> (r: bool)
        ensures
            r == self.less_or_equal(other),
    {
        !self.is_nan() && !other.is_nan() && !other.lt(self)
    }
}

} // verus!
