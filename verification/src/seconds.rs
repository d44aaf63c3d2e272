//! Times in seconds: how far they reach, and that they keep their order.

use vstd::arithmetic::power2::lemma2_to64;
use vstd::arithmetic::power2::lemma_pow2_adds;
use vstd::arithmetic::power2::lemma_pow2_pos;
use vstd::arithmetic::power2::lemma_pow2_strictly_increases;
use vstd::arithmetic::power2::lemma_pow2_unfold;
use vstd::arithmetic::power2::pow2;
use vstd::prelude::*;

use crate::arithmetic::lemma_signed;
use crate::arithmetic::one;
use crate::binary64::lemma_size_ordered;
use crate::binary64::size_of_magnitude;
use crate::binary64::Binary64;
use crate::binary64::HIDDEN;
use crate::binary64::ONE;
use crate::clock::ns_to_ms;
use crate::clock::ns_to_secs;
use crate::clock::BILLION;
use crate::clock::MILLION;
use crate::conversion::is_horizon;
use crate::conversion::whole;
use crate::order::lemma_over_monotone;
use crate::order::lemma_plus_units;
use crate::order::lemma_settled_monotone;
use crate::order::lemma_whole_monotone;
use crate::order::lemma_whole_units;
use crate::order::settled;
use crate::rounding::lemma_nearest_integer_is;
use crate::rounding::lemma_nearest_magnitude_is;
use crate::rounding::lemma_powers;
use crate::rounding::lemma_rounded_exact;
use crate::rounding::lemma_rounded_monotone;
use crate::rounding::lemma_rounded_scaled;
use crate::rounding::rounded;

verus! {

/// 2^64, as bits: the exponent field is 1087.
pub const TWO_TO_64: u64 = 0x43F0_0000_0000_0000;

/// 2^96, as bits: the exponent field is 1119.
pub const TWO_TO_96: u64 = 0x45F0_0000_0000_0000;

/// As many nanoseconds as a time has at most: 2^64 seconds.
pub const LONGEST: u128 = 0x1_0000_0000_0000_0000 * 1_000_000_000;

proof fn lemma_known_sizes()
    ensures
        size_of_magnitude(ONE as nat) == one(),
        size_of_magnitude(BILLION as nat) == 1_000_000_000 * one(),
        size_of_magnitude(TWO_TO_64 as nat) == 0x1_0000_0000_0000_0000 * one(),
        one() > 0,
{
    lemma_powers();
    lemma2_to64();
    lemma_pow2_pos(1074);
    assert(ONE as nat / HIDDEN as nat == 1023 && ONE as nat % HIDDEN as nat == 0);
    lemma_pow2_adds(52, 1022);
    assert(BILLION as nat / HIDDEN as nat == 1052 && BILLION as nat % HIDDEN as nat
        == 0xD_CD65_0000_0000);
    lemma_pow2_adds(23, 1051);
    let p = pow2(1051);
    assert(HIDDEN + 0xD_CD65_0000_0000 == 1_000_000_000 * 0x80_0000);
    assert((1_000_000_000 * 0x80_0000) * p == 1_000_000_000 * (0x80_0000 * p)) by (nonlinear_arith);
    assert(TWO_TO_64 as nat / HIDDEN as nat == 1087 && TWO_TO_64 as nat % HIDDEN as nat == 0);
    lemma_pow2_adds(52, 1086);
    lemma_pow2_adds(64, 1074);
}

/// A whole number of seconds below 2^64 converts to at most 2^64.
proof fn lemma_whole_below(n: nat)
    requires
        n <= 0x1_0000_0000_0000_0000,
    ensures
        whole(n).finite(),
        !whole(n).negative(),
        0 <= whole(n).units() <= 0x1_0000_0000_0000_0000 * one(),
{
    lemma_known_sizes();
    lemma_whole_units(n);
    assert(n * one() <= 0x1_0000_0000_0000_0000 * one()) by (nonlinear_arith)
        requires
            n <= 0x1_0000_0000_0000_0000,
    ;
    let t = 0x1_0000_0000_0000_0000 * one();
    lemma_rounded_monotone(n * one(), 1, t as nat, 1);
    lemma_rounded_exact(TWO_TO_64 as nat, 1);
    assert(t * 1 == t);
    lemma_size_ordered(rounded(n * one(), 1), TWO_TO_64 as nat);
}

/// A count of nanoseconds converts to a finite number.
pub proof fn lemma_whole_finite(n: nat)
    requires
        n <= LONGEST,
    ensures
        whole(n).finite(),
        !whole(n).negative(),
{
    lemma_powers();
    lemma2_to64();
    lemma_whole_units(n);
    lemma_pow2_adds(32, 64);
    lemma_pow2_adds(52, 1118);
    lemma_pow2_adds(96, 1074);
    let t = pow2(96) * one();
    assert(TWO_TO_96 as nat / HIDDEN as nat == 1119 && TWO_TO_96 as nat % HIDDEN as nat == 0);
    assert(size_of_magnitude(TWO_TO_96 as nat) == t);
    assert(n * one() <= t) by (nonlinear_arith)
        requires
            n <= pow2(96),
            t == pow2(96) * one(),
    ;
    lemma_rounded_monotone(n * one(), 1, t, 1);
    lemma_rounded_exact(TWO_TO_96 as nat, 1);
    assert(t * 1 == t);
}

/// The part of a second lies between 0 and 1.
proof fn lemma_part_of_second(n: nat)
    requires
        n < 1_000_000_000,
    ensures
        whole(n).over(Binary64 { bits: BILLION }).finite(),
        !whole(n).over(Binary64 { bits: BILLION }).negative(),
        0 <= whole(n).over(Binary64 { bits: BILLION }).units() <= one(),
{
    let b = Binary64 { bits: BILLION };
    lemma_known_sizes();
    lemma_whole_below(n);
    lemma_whole_below(1_000_000_000);
    lemma_whole_monotone(n, 1_000_000_000);
    lemma_rounded_exact(BILLION as nat, 1);
    assert((1_000_000_000 * one()) * 1 == 1_000_000_000 * one());
    lemma_whole_units(1_000_000_000);
    assert(whole(1_000_000_000) == b);
    assert(b.units() > 0) by {
        assert(1_000_000_000 * one() > 0);
    }
    lemma_over_monotone(whole(n), b, b);
    // b / b == 1
    let k = b.size();
    lemma_rounded_scaled(one(), 1, k);
    assert(k * one() == b.size() * one() && k * 1 == k);
    lemma_rounded_exact(ONE as nat, 1);
    assert(one() * 1 == one());
    lemma_signed(false, rounded(b.size() * one(), b.size()));
    assert(b.over(b).magnitude() == ONE);
    lemma_size_ordered(whole(n).over(b).magnitude(), ONE as nat);
}

/// Just beyond 2^64 rounds back to it.
proof fn lemma_rounds_back()
    ensures
        settled(0x1_0000_0000_0000_0001 * one() as int) == 0x1_0000_0000_0000_0000 * one(),
{
    lemma_known_sizes();
    lemma_powers();
    lemma2_to64();
    let x = (0x1_0000_0000_0000_0001 * one() as int) as nat;
    lemma_pow2_adds(64, 1074);
    lemma_pow2_adds(1, 1138);
    lemma_pow2_adds(12, 1074);
    lemma_pow2_adds(52, 1086);
    assert(1 * pow2(1138) == pow2(1138) && 1 * pow2(1139) == pow2(1139));
    lemma_nearest_magnitude_is(x, 1, 1086);
    let d = 1 * pow2(1086);
    let q = HIDDEN as nat;
    assert(q * d == 0x1_0000_0000_0000_0000 * one());
    assert(q * d <= x < (q + 1) * d) by {
        assert((q + 1) * d == q * d + d) by (nonlinear_arith);
    }
    lemma_nearest_integer_is(x, d, q);
    assert(1086 * HIDDEN + HIDDEN == TWO_TO_64);
}

/// A duration in seconds is a number that a schedule can end at.
pub proof fn lemma_seconds_horizon(ns: nat)
    requires
        ns < 0x1_0000_0000_0000_0000 * 1_000_000_000,
    ensures
        is_horizon(ns_to_secs(ns)),
{
    let s = ns / 1_000_000_000;
    let part = whole(ns % 1_000_000_000).over(Binary64 { bits: BILLION });
    lemma_known_sizes();
    lemma_whole_below(s);
    lemma_part_of_second(ns % 1_000_000_000);
    lemma_plus_units(whole(s), part);
    let sum = whole(s).units() + part.units();
    lemma_settled_monotone(sum, 0x1_0000_0000_0000_0001 * one() as int);
    lemma_settled_monotone(0, sum);
    lemma_rounds_back();
    let r = ns_to_secs(ns);
    crate::order::lemma_rounded_zero(1);
    assert(size_of_magnitude(0) == 0);
    lemma_size_ordered(r.magnitude(), TWO_TO_64 as nat);
    lemma_size_ordered(0, r.magnitude());
}

/// The power of two below `x`.
proof fn lemma_level(x: nat, s: nat) -> (r: nat)
    requires
        x >= pow2((52 + s) as nat),
    ensures
        r >= s,
        pow2((52 + r) as nat) <= x < pow2((53 + r) as nat),
    decreases x - s,
{
    if x < pow2((53 + s) as nat) {
        s
    } else {
        lemma_pow2_exceeds((53 + s) as nat);
        lemma_level(x, s + 1)
    }
}

proof fn lemma_pow2_exceeds(k: nat)
    ensures
        pow2(k) > k,
    decreases k,
{
    lemma_powers();
    if k > 0 {
        lemma_pow2_exceeds((k - 1) as nat);
        lemma_pow2_unfold(k);
    }
}

/// Integers up to 2^53 convert exactly.
pub proof fn lemma_whole_exact(n: nat)
    requires
        n <= 0x20_0000_0000_0000,
    ensures
        whole(n).units() == n * one(),
{
    lemma_powers();
    lemma_whole_units(n);
    lemma_pow2_pos(1074);
    if n == 0 {
        crate::order::lemma_rounded_zero(1);
        assert(size_of_magnitude(0) == 0);
    } else if n == 0x20_0000_0000_0000 {
        let m = (1076 * HIDDEN) as nat;
        assert(m / HIDDEN as nat == 1076 && m % HIDDEN as nat == 0);
        lemma_pow2_adds(52, 1075);
        lemma_pow2_adds(53, 1074);
        lemma_rounded_exact(m, 1);
        assert(size_of_magnitude(m) == n * one());
        assert((n * one()) * 1 == n * one());
    } else {
        let x = n * one();
        lemma_pow2_strictly_increases(52, 1074);
        assert(x >= one()) by (nonlinear_arith)
            requires
                x == n * one(),
                n >= 1,
        ;
        assert(pow2(52 + 0) <= x);
        let s = lemma_level(x, 0);
        lemma_pow2_adds(53, 1074);
        if s > 1074 {
            // x is below 2^53 * 2^1074
            assert(x < 0x20_0000_0000_0000 * one()) by (nonlinear_arith)
                requires
                    x == n * one(),
                    n < 0x20_0000_0000_0000,
                    one() > 0,
            ;
            if 52 + s > 1127 {
                lemma_pow2_strictly_increases(1127, (52 + s) as nat);
            }
            assert(false);
        }
        let p = pow2(s);
        let g = pow2((1074 - s) as nat);
        lemma_pow2_pos(s);
        lemma_pow2_adds(s, (1074 - s) as nat);
        lemma_pow2_adds(52, s);
        lemma_pow2_adds(53, s);
        let q = n * g;
        assert(x == q * p) by (nonlinear_arith)
            requires
                x == n * one(),
                one() == p * g,
                q == n * g,
        ;
        assert(HIDDEN <= q < 0x20_0000_0000_0000) by (nonlinear_arith)
            requires
                HIDDEN * p <= q * p < 0x20_0000_0000_0000 * p,
                p > 0,
        ;
        let m = (s * HIDDEN + q) as nat;
        assert(m / HIDDEN as nat == s + 1 && m % HIDDEN as nat == q - HIDDEN) by {
            vstd::arithmetic::div_mod::lemma_fundamental_div_mod_converse(
                m as int,
                HIDDEN as int,
                (s + 1) as int,
                q - HIDDEN,
            );
        }
        assert(size_of_magnitude(m) == x);
        assert(s * HIDDEN <= 1074 * HIDDEN) by (nonlinear_arith)
            requires
                s <= 1074,
        ;
        lemma_rounded_exact(m, 1);
        assert(x * 1 == x);
    }
}

/// Of two times below 2^53 seconds, the later is not the smaller in seconds
/// either.
pub proof fn lemma_seconds_monotone(a: nat, b: nat)
    requires
        a <= b < 0x20_0000_0000_0000 * 1_000_000_000,
    ensures
        ns_to_secs(a).less_or_equal(ns_to_secs(b)),
        ns_to_secs(a).finite(),
        ns_to_secs(b).finite(),
{
    let bn = Binary64 { bits: BILLION };
    lemma_known_sizes();
    lemma_seconds_horizon(a);
    lemma_seconds_horizon(b);
    let sa = a / 1_000_000_000;
    let sb = b / 1_000_000_000;
    let fa = whole(a % 1_000_000_000).over(bn);
    let fb = whole(b % 1_000_000_000).over(bn);
    lemma_whole_below(sa);
    lemma_whole_below(sb);
    lemma_whole_exact(sa);
    lemma_whole_exact(sb);
    lemma_part_of_second(a % 1_000_000_000);
    lemma_part_of_second(b % 1_000_000_000);
    lemma_plus_units(whole(sa), fa);
    lemma_plus_units(whole(sb), fb);
    if sa == sb {
        lemma_whole_monotone(a % 1_000_000_000, b % 1_000_000_000);
        lemma_whole_below(a % 1_000_000_000);
        lemma_whole_below(b % 1_000_000_000);
        assert(bn.units() > 0);
        lemma_over_monotone(whole(a % 1_000_000_000), whole(b % 1_000_000_000), bn);
    } else {
        assert(sa + 1 <= sb);
        assert(sa * one() + one() <= sb * one()) by (nonlinear_arith)
            requires
                sa + 1 <= sb,
        ;
    }
    lemma_settled_monotone(
        whole(sa).units() + fa.units(),
        whole(sb).units() + fb.units(),
    );
}

/// More nanoseconds are no fewer milliseconds.
pub proof fn lemma_ns_to_ms_monotone(a: nat, b: nat)
    requires
        a <= b <= LONGEST,
    ensures
        ns_to_ms(a).less_or_equal(ns_to_ms(b)),
        ns_to_ms(a).finite(),
        !ns_to_ms(a).negative(),
{
    let m = Binary64 { bits: MILLION };
    lemma_known_sizes();
    lemma_whole_finite(a);
    lemma_whole_finite(b);
    lemma_whole_monotone(a, b);
    assert(m.units() > 0) by {
        lemma_size_ordered(0, m.magnitude());
        assert(size_of_magnitude(0) == 0);
    }
    lemma_over_monotone(whole(a), whole(b), m);
    // Dividing by more than 1 stays below the dividend.
    let x = whole(a).size() * one();
    lemma_size_ordered(ONE as nat, m.magnitude());
    assert(x * 1 <= whole(a).size() * m.size()) by (nonlinear_arith)
        requires
            x == whole(a).size() * one(),
            one() <= m.size(),
    ;
    lemma_rounded_monotone(x, m.size(), whole(a).size(), 1);
    lemma_rounded_exact(whole(a).magnitude(), 1);
    assert(whole(a).size() * 1 == whole(a).size());
    lemma_signed(false, rounded(x, m.size()));
}

/// A count above zero converts to a number above zero.
pub proof fn lemma_whole_positive(n: nat)
    requires
        0 < n <= u64::MAX,
    ensures
        whole(n).positive(),
        !whole(n).negative(),
{
    lemma_known_sizes();
    lemma_whole_below(n);
    lemma_whole_monotone(1, n);
    lemma_whole_exact(1);
    assert(1 * one() == one());
}

} // verus!
