//! Sums, means and shares, against exact arithmetic.
//!
//! A sum of rounded numbers is rounded again at every step. It stays within
//! what the steps round away, and so do the means and shares that are made of
//! it.

use vstd::prelude::*;
use vstd::seq_lib::group_to_multiset_ensures;

use crate::arithmetic::distance;
use crate::arithmetic::lemma_signed;
use crate::arithmetic::one;
use crate::arithmetic::sum_of;
use crate::binary64::lemma_size_ordered;
use crate::binary64::size_of_magnitude;
use crate::binary64::Binary64;
use crate::binary64::INFINITY;
use crate::conversion::whole;
use crate::order::lemma_plus_units;
use crate::order::lemma_rounded_zero;
use crate::order::lemma_settled_monotone;
use crate::order::lemma_whole_units;
use crate::order::settled;
use crate::precision::lemma_rounded_not_far_down;
use crate::precision::lemma_rounded_not_far_up;
use crate::ranks::lemma_unity;
use crate::rounding::rounded;
use crate::seconds::lemma_whole_exact;
use crate::seconds::lemma_whole_positive;

verus! {

/// The items are finite and not below zero.
pub open spec fn measurable(items: Seq<Binary64>) -> bool {
    forall|i: int| 0 <= i < items.len() ==> (#[trigger] items[i]).not_negative()
}

/// What the items come to, without rounding.
pub open spec fn exact_sum(items: Seq<Binary64>) -> int
    decreases items.len(),
{
    if items.len() == 0 {
        0
    } else {
        exact_sum(items.drop_last()) + items.last().units()
    }
}

/// `x` is the sum of the items, up to one part in 2^52 for each of them.
pub open spec fn near_sum(x: Binary64, items: Seq<Binary64>) -> bool {
    &&& x.finite()
    &&& 0x10_0000_0000_0000 * distance(x.units() - exact_sum(items)) <= items.len() * (exact_sum(
        items,
    ) + 0x10_0000_0000_0000)
}

/// `x` is the mean of the items, up to one part in 2^50 for each of them.
pub open spec fn near_mean(x: Binary64, items: Seq<Binary64>) -> bool {
    &&& x.finite()
    &&& 0x4_0000_0000_0000 * distance(items.len() * x.units() - exact_sum(items)) <= (items.len()
        + 1) * (exact_sum(items) + 0x10_0000_0000_0000)
}

/// `x` is `a / b`, up to one part in 2^53.
pub open spec fn near_ratio(x: Binary64, a: nat, b: nat) -> bool {
    &&& x.finite()
    &&& 0x20_0000_0000_0000 * distance(b * x.units() - a * one()) <= a * one() + b
        * 0x10_0000_0000_0000
}

/// How far a number is moved by rounding.
pub proof fn lemma_settled_near(x: int)
    requires
        0 <= x,
        rounded(x as nat, 1) < INFINITY,
    ensures
        settled(x) >= 0,
        0x20_0000_0000_0000 * distance(settled(x) - x) <= x + 0x10_0000_0000_0000,
{
    lemma_rounded_not_far_up(x as nat, 1);
    lemma_rounded_not_far_down(x as nat, 1);
}

/// A sum of finite items that comes out finite was finite all along.
proof fn lemma_partial_sum(items: Seq<Binary64>)
    requires
        measurable(items),
    ensures
        !sum_of(items).nan(),
        sum_of(items).units() >= 0,
        sum_of(items).finite() || sum_of(items) == (Binary64 { bits: INFINITY }),
        exact_sum(items) >= 0,
        items.len() > 0 && sum_of(items).finite() ==> sum_of(items.drop_last()).finite(),
    decreases items.len(),
{
    assert(size_of_magnitude(0) == 0);
    lemma_size_ordered(0, INFINITY as nat);
    if items.len() > 0 {
        let rest = items.drop_last();
        let before = sum_of(rest);
        let x = items.last();
        assert(x.not_negative());
        assert(measurable(rest)) by {
            assert forall|i: int| 0 <= i < rest.len() implies (
            #[trigger] rest[i]).not_negative() by {
                assert(rest[i] == items[i]);
            }
        }
        lemma_partial_sum(rest);
        if before.finite() {
            lemma_plus_units(before, x);
            let s = before.units() + x.units();
            lemma_settled_monotone(0, s);
            lemma_rounded_zero(1);
            lemma_signed(false, rounded(distance(s), 1));
        }
    }
}

/// A sum is near the exact one.
pub proof fn lemma_sum_near(items: Seq<Binary64>)
    requires
        measurable(items),
        items.len() <= 0x100_0000_0000,
        sum_of(items).finite(),
    ensures
        near_sum(sum_of(items), items),
        sum_of(items).units() >= 0,
        exact_sum(items) >= 0,
    decreases items.len(),
{
    assert(size_of_magnitude(0) == 0);
    lemma_partial_sum(items);
    let n = items.len();
    if n > 0 {
        let rest = items.drop_last();
        let x = items.last();
        assert(x.not_negative());
        assert(measurable(rest)) by {
            assert forall|i: int| 0 <= i < rest.len() implies (
            #[trigger] rest[i]).not_negative() by {
                assert(rest[i] == items[i]);
            }
        }
        lemma_sum_near(rest);
        let before = sum_of(rest);
        lemma_plus_units(before, x);
        let s = before.units() + x.units();
        let e = exact_sum(rest);
        if s == 0 {
            lemma_rounded_zero(1);
        } else {
            lemma_signed(false, rounded(distance(s), 1));
        }
        lemma_settled_near(s);
        lemma_step(n, e, x.units(), before.units(), sum_of(items).units());
    }
}

/// One more step rounds away no more than its share.
pub proof fn lemma_step(n: nat, e: int, x: int, before: int, after: int)
    requires
        0 < n <= 0x100_0000_0000,
        e >= 0,
        x >= 0,
        0x10_0000_0000_0000 * distance(before - e) <= (n - 1) * (e + 0x10_0000_0000_0000),
        0x20_0000_0000_0000 * distance(after - (before + x)) <= before + x + 0x10_0000_0000_0000,
    ensures
        0x10_0000_0000_0000 * distance(after - (e + x)) <= n * (e + x + 0x10_0000_0000_0000),
{
    let k = n - 1;
    let h: int = 0x10_0000_0000_0000;
    let p = k * (e + h);
    assert(p <= 0x100_0000_0000 * (e + h)) by (nonlinear_arith)
        requires
            p == k * (e + h),
            0 <= k <= 0x100_0000_0000,
            e + h >= 0,
    ;
    assert(n * (e + x + h) >= p + e + x + h) by (nonlinear_arith)
        requires
            p == k * (e + h),
            n == k + 1,
            k >= 0,
            x >= 0,
    ;
}

/// A quotient of a finite number by a count.
pub proof fn lemma_quotient(s: Binary64, n: nat)
    requires
        s.not_negative(),
        0 < n <= 0x20_0000_0000_0000,
        n <= u64::MAX,
    ensures
        s.over(whole(n)).finite(),
        s.over(whole(n)).units() >= 0,
        0x20_0000_0000_0000 * distance(n * s.over(whole(n)).units() - s.units()) <= s.units() + n
            * 0x10_0000_0000_0000,
{
    let o = one();
    let m = rounded(s.size() * o, n * o);
    assert(size_of_magnitude(0) == 0);
    lemma_unity();
    lemma_whole_exact(n);
    lemma_whole_units(n);
    lemma_whole_positive(n);
    assert(n * o > 0) by (nonlinear_arith)
        requires
            n > 0,
            o > 0,
    ;
    // No more than the dividend.
    assert((s.size() * o) * 1 <= s.size() * (n * o)) by (nonlinear_arith)
        requires
            n >= 1,
    ;
    crate::rounding::lemma_rounded_monotone(s.size() * o, n * o, s.size(), 1);
    crate::rounding::lemma_rounded_exact(s.magnitude(), 1);
    assert(s.size() * 1 == s.size());
    lemma_rounded_not_far_up(s.size() * o, n * o);
    lemma_rounded_not_far_down(s.size() * o, n * o);
    lemma_signed(s.negative(), m);
    let y = size_of_magnitude(m);
    let k = s.size();
    assert((n * y) * 0x20_0000_0000_0000 <= k * 0x20_0000_0000_0001 + n * 0x10_0000_0000_0000 && (n
        * y) * 0x20_0000_0000_0000 + n * 0x10_0000_0000_0000 >= k * 0x1F_FFFF_FFFF_FFFF)
        by (nonlinear_arith)
        requires
            ((n * o) * y) * 0x20_0000_0000_0000 <= (k * o) * 0x20_0000_0000_0001 + (n * o)
                * 0x10_0000_0000_0000,
            ((n * o) * y) * 0x20_0000_0000_0000 + (n * o) * 0x10_0000_0000_0000 >= (k * o)
                * 0x1F_FFFF_FFFF_FFFF,
            o > 0,
    ;
    if s.negative() {
        lemma_size_ordered(0, s.magnitude());
        lemma_rounded_zero(n * o);
        assert(0 * o == 0) by (nonlinear_arith);
    }
}

/// A sum over its count is near the mean.
pub proof fn lemma_mean_near(items: Seq<Binary64>)
    requires
        measurable(items),
        0 < items.len() <= 0x100_0000_0000,
        sum_of(items).finite(),
    ensures
        near_mean(sum_of(items).over(whole(items.len())), items),
{
    let n = items.len();
    let s = sum_of(items);
    lemma_sum_near(items);
    lemma_quotient(s, n);
    let y = s.over(whole(n)).units();
    lemma_combine(n, n * y, s.units(), exact_sum(items));
}

pub proof fn lemma_combine(n: nat, ny: int, s: int, e: int)
    requires
        0 < n <= 0x100_0000_0000,
        e >= 0,
        s >= 0,
        0x20_0000_0000_0000 * distance(ny - s) <= s + n * 0x10_0000_0000_0000,
        0x10_0000_0000_0000 * distance(s - e) <= n * (e + 0x10_0000_0000_0000),
    ensures
        0x4_0000_0000_0000 * distance(ny - e) <= (n + 1) * (e + 0x10_0000_0000_0000),
{
    let h: int = 0x10_0000_0000_0000;
    let p = n * (e + h);
    assert(p >= n * h && p <= 0x100_0000_0000 * (e + h)) by (nonlinear_arith)
        requires
            p == n * (e + h),
            0 <= n <= 0x100_0000_0000,
            e >= 0,
            h >= 0,
    ;
    assert((n + 1) * (e + h) == p + e + h) by (nonlinear_arith)
        requires
            p == n * (e + h),
    ;
}

/// A count over another is near their ratio.
pub proof fn lemma_ratio_near(a: nat, b: nat)
    requires
        a <= 0x20_0000_0000_0000,
        0 < b <= 0x20_0000_0000_0000,
    ensures
        near_ratio(whole(a).over(whole(b)), a, b),
        whole(a).over(whole(b)).units() >= 0,
{
    lemma_whole_exact(a);
    lemma_whole_units(a);
    assert(size_of_magnitude(0) == 0);
    if a > 0 {
        lemma_whole_positive(a);
    } else {
        lemma_rounded_zero(1);
        assert(0 * one() == 0) by (nonlinear_arith);
    }
    lemma_quotient(whole(a), b);
}

proof fn lemma_taken_out(items: Seq<Binary64>, j: int)
    requires
        0 <= j < items.len(),
    ensures
        exact_sum(items) == exact_sum(items.remove(j)) + items[j].units(),
    decreases items.len(),
{
    if j == items.len() - 1 {
        assert(items.remove(j) =~= items.drop_last());
    } else {
        lemma_taken_out(items.drop_last(), j);
        assert(items.remove(j).drop_last() =~= items.drop_last().remove(j));
        assert(items.remove(j).last() == items.last());
    }
}

/// What items come to does not depend on their order.
pub proof fn lemma_order_free(a: Seq<Binary64>, b: Seq<Binary64>)
    requires
        a.to_multiset() == b.to_multiset(),
    ensures
        exact_sum(a) == exact_sum(b),
        a.len() == b.len(),
    decreases a.len(),
{
    broadcast use group_to_multiset_ensures;

    assert(a.to_multiset().len() == a.len());
    assert(b.to_multiset().len() == b.len());
    if a.len() > 0 {
        let x = a.last();
        let n = a.len() - 1;
        assert(a.contains(x));
        assert(a.to_multiset().count(x) > 0);
        assert(b.contains(x));
        let j = choose|j: int| 0 <= j < b.len() && b[j] == x;
        assert(a.remove(n) =~= a.drop_last());
        assert(a.remove(n).to_multiset() =~= a.to_multiset().remove(x));
        assert(b.remove(j).to_multiset() =~= b.to_multiset().remove(x));
        lemma_order_free(a.drop_last(), b.remove(j));
        lemma_taken_out(b, j);
    }
}

/// Items that are measurable in one order are so in any.
pub proof fn lemma_measurable_any_order(a: Seq<Binary64>, b: Seq<Binary64>)
    requires
        a.to_multiset() == b.to_multiset(),
        measurable(a),
    ensures
        measurable(b),
{
    broadcast use group_to_multiset_ensures;

    assert forall|i: int| 0 <= i < b.len() implies (#[trigger] b[i]).not_negative() by {
        assert(b.contains(b[i]));
        assert(b.to_multiset().count(b[i]) > 0);
        assert(a.contains(b[i]));
        let j = choose|j: int| 0 <= j < a.len() && a[j] == b[i];
        assert(a[j].not_negative());
    }
}

/// A quotient of what is not below zero is finite only if the dividend is.
pub proof fn lemma_mean_finite(items: Seq<Binary64>)
    requires
        measurable(items),
        0 < items.len() <= 0x100_0000_0000,
        sum_of(items).over(whole(items.len())).finite(),
    ensures
        sum_of(items).finite(),
{
    lemma_partial_sum(items);
    lemma_whole_positive(items.len());
    lemma_signed(false, INFINITY as nat);
}

/// `x` is `a / b`, up to one part in 2^53.
pub open spec fn near_quotient(x: Binary64, a: Binary64, b: Binary64) -> bool {
    0x20_0000_0000_0000 * distance(b.units() * x.units() - a.units() * one()) <= a.units() * one()
        + b.units() * 0x10_0000_0000_0000
}

/// A finite quotient of numbers that are not below zero.
pub proof fn lemma_quotient_near(a: Binary64, b: Binary64)
    requires
        a.not_negative(),
        b.positive(),
        a.over(b).finite(),
    ensures
        a.over(b).units() >= 0,
        near_quotient(a.over(b), a, b),
{
    let o = one();
    let n = a.size() * o;
    let d = b.size();
    let m = rounded(n, d);
    assert(size_of_magnitude(0) == 0);
    lemma_unity();
    lemma_signed(true, m);
    lemma_signed(false, m);
    lemma_rounded_not_far_up(n, d);
    lemma_rounded_not_far_down(n, d);
    if a.negative() {
        lemma_size_ordered(0, a.magnitude());
        lemma_rounded_zero(d);
        assert(0 * o == 0) by (nonlinear_arith);
        assert(d * 0 == 0) by (nonlinear_arith);
    }
}

/// A finite product of numbers that are not below zero is near the exact one.
pub proof fn lemma_product_near(a: Binary64, b: Binary64)
    requires
        a.not_negative(),
        b.not_negative(),
        a.times(b).finite(),
    ensures
        a.times(b).units() >= 0,
        0x20_0000_0000_0000 * distance(a.times(b).units() * one() - a.units() * b.units())
            <= a.units() * b.units() + one() * 0x10_0000_0000_0000,
{
    let o = one();
    let n = a.size() * b.size();
    let m = rounded(n, o);
    assert(size_of_magnitude(0) == 0);
    lemma_unity();
    lemma_signed(true, m);
    lemma_signed(false, m);
    lemma_rounded_not_far_up(n, o);
    lemma_rounded_not_far_down(n, o);
    if a.negative() {
        lemma_size_ordered(0, a.magnitude());
    }
    if b.negative() {
        lemma_size_ordered(0, b.magnitude());
    }
    let y = size_of_magnitude(m);
    assert(o * y == y * o) by (nonlinear_arith);
    if a.negative() || b.negative() {
        assert(n == 0) by (nonlinear_arith)
            requires
                n == a.size() * b.size(),
                a.size() == 0 || b.size() == 0,
        ;
        lemma_rounded_zero(o);
        assert(0 * o == 0) by (nonlinear_arith);
    }
    assert(a.units() * b.units() == n) by (nonlinear_arith)
        requires
            n == a.size() * b.size(),
            a.units() == a.size(),
            b.units() == b.size(),
    ;
}

/// A difference of numbers in order is near the exact one.
pub proof fn lemma_difference_near(a: Binary64, b: Binary64)
    requires
        a.finite(),
        b.finite(),
        0 <= b.units() <= a.units(),
    ensures
        a.minus(b).not_negative(),
        0x20_0000_0000_0000 * distance(a.minus(b).units() - (a.units() - b.units())) <= a.units()
            - b.units() + 0x10_0000_0000_0000,
{
    let d = a.units() - b.units();
    let r = a.minus(b);
    assert(size_of_magnitude(0) == 0);
    lemma_signed(!b.negative(), b.magnitude());
    lemma_plus_units(a, b.opposite());
    lemma_settled_monotone(0, d);
    lemma_settled_monotone(d, a.units());
    crate::order::lemma_settled_exact(a);
    lemma_rounded_zero(1);
    lemma_size_ordered(r.magnitude(), a.magnitude());
    lemma_size_ordered(a.magnitude(), INFINITY as nat);
    lemma_size_ordered(rounded(d as nat, 1), INFINITY as nat);
    lemma_settled_near(d);
}

} // verus!
