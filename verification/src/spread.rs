//! The spread of replays, against exact arithmetic.

use vstd::prelude::*;

use crate::arithmetic::distance;
use crate::arithmetic::lemma_signed;
use crate::arithmetic::one;
use crate::arithmetic::sum_of;
use crate::binary64::lemma_size_ordered;
use crate::binary64::size_of_magnitude;
use crate::binary64::Binary64;
use crate::conversion::whole;
use crate::loadgen::mean_of;
use crate::loadgen::squares;
use crate::loadgen::variance_of;
use crate::means::exact_sum;
use crate::means::lemma_combine;
use crate::means::lemma_difference_near;
use crate::means::lemma_mean_near;
use crate::means::lemma_product_near;
use crate::means::lemma_quotient;
use crate::means::lemma_sum_near;
use crate::means::measurable;
use crate::means::near_mean;
use crate::order::lemma_plus_units;
use crate::ranks::lemma_unity;
use crate::rounding::rounded;

verus! {

/// `y` is the squared distance of `x` from `m`, up to one part in 2^50 and a
/// little.
pub open spec fn near_square(y: Binary64, x: Binary64, m: Binary64) -> bool {
    let d = distance(x.units() - m.units());
    0x4_0000_0000_0000 * distance(y.units() * one() - d * d) <= d * d + (d + one())
        * 0x10_0000_0000_0000
}

/// The mean of what was measured is near the exact one.
pub proof fn lemma_mean_of_replays(xs: Seq<Binary64>)
    requires
        measurable(xs),
        0 < xs.len() <= 0x100_0000_0000,
        sum_of(xs).finite(),
    ensures
        near_mean(mean_of(xs), xs),
{
    lemma_mean_near(xs);
}

/// The variance of a sample is what its squared distances from the mean come
/// to, divided by one less than their number.
pub proof fn lemma_variance(xs: Seq<Binary64>)
    requires
        measurable(xs),
        2 <= xs.len() <= 0x100_0000_0000,
        sum_of(xs).finite(),
        forall|i: int|
            0 <= i < xs.len() ==> (#[trigger] squares(xs, mean_of(xs))[i]).finite(),
        sum_of(squares(xs, mean_of(xs))).finite(),
    ensures
        near_mean(mean_of(xs), xs),
        squares(xs, mean_of(xs)).len() == xs.len(),
        forall|i: int|
            0 <= i < xs.len() ==> near_square(
                #[trigger] squares(xs, mean_of(xs))[i],
                xs[i],
                mean_of(xs),
            ),
        variance_of(xs).finite(),
        0x4_0000_0000_0000 * distance(
            (xs.len() - 1) * variance_of(xs).units() - exact_sum(squares(xs, mean_of(xs))),
        ) <= (xs.len() + 1) * (exact_sum(squares(xs, mean_of(xs))) + 0x10_0000_0000_0000),
{
    lemma_mean_near(xs);
    lemma_mean_not_negative(xs);
    lemma_squares_near(xs, mean_of(xs));
    lemma_divided(squares(xs, mean_of(xs)));
}

proof fn lemma_squares_near(xs: Seq<Binary64>, m: Binary64)
    requires
        measurable(xs),
        m.finite(),
        m.units() >= 0,
        forall|i: int| 0 <= i < xs.len() ==> (#[trigger] squares(xs, m)[i]).finite(),
    ensures
        forall|i: int|
            0 <= i < xs.len() ==> near_square(#[trigger] squares(xs, m)[i], xs[i], m),
        measurable(squares(xs, m)),
{
    let items = squares(xs, m);
    assert forall|i: int| 0 <= i < xs.len() implies near_square(#[trigger] items[i], xs[i], m) by {
        assert(xs[i].not_negative());
        assert(squares(xs, m)[i].finite());
        lemma_square_near(xs[i], m);
    }
    assert forall|i: int| 0 <= i < items.len() implies (#[trigger] items[i]).not_negative() by {
        assert(xs[i].not_negative());
        assert(squares(xs, m)[i].finite());
        lemma_square_near(xs[i], m);
    }
}

proof fn lemma_mean_not_negative(xs: Seq<Binary64>)
    requires
        measurable(xs),
        0 < xs.len() <= 0x100_0000_0000,
        sum_of(xs).finite(),
    ensures
        mean_of(xs).units() >= 0,
{
    lemma_sum_near(xs);
    lemma_quotient(sum_of(xs), xs.len());
}

/// What items come to, divided by one less than their number.
proof fn lemma_divided(items: Seq<Binary64>)
    requires
        measurable(items),
        2 <= items.len() <= 0x100_0000_0000,
        sum_of(items).finite(),
    ensures
        sum_of(items).over(whole((items.len() - 1) as nat)).finite(),
        0x4_0000_0000_0000 * distance(
            (items.len() - 1) * sum_of(items).over(whole((items.len() - 1) as nat)).units()
                - exact_sum(items),
        ) <= (items.len() + 1) * (exact_sum(items) + 0x10_0000_0000_0000),
{
    let n = items.len();
    let k = (n - 1) as nat;
    let s = sum_of(items);
    lemma_sum_near(items);
    lemma_quotient(s, k);
    lemma_combine(n, k * s.over(whole(k)).units(), s.units(), exact_sum(items));
}

/// Fewer than two values do not spread.
pub proof fn lemma_no_spread(xs: Seq<Binary64>)
    requires
        xs.len() < 2,
    ensures
        variance_of(xs).units() == 0,
{
    assert(size_of_magnitude(0) == 0);
}

proof fn lemma_square_near(x: Binary64, m: Binary64)
    requires
        x.not_negative(),
        m.finite(),
        m.units() >= 0,
        x.minus(m).times(x.minus(m)).finite(),
    ensures
        near_square(x.minus(m).times(x.minus(m)), x, m),
        x.minus(m).times(x.minus(m)).not_negative(),
{
    let o = one();
    let h: int = 0x10_0000_0000_0000;
    let g = x.minus(m);
    let d = distance(x.units() - m.units()) as int;
    assert(size_of_magnitude(0) == 0);
    lemma_unity();
    lemma_size_ordered(0, x.magnitude());
    lemma_signed(!m.negative(), m.magnitude());
    lemma_signed(!x.negative(), x.magnitude());
    lemma_plus_units(x, m.opposite());
    lemma_plus_units(m, x.opposite());
    if x.units() >= m.units() {
        lemma_difference_near(x, m);
    } else {
        lemma_difference_near(m, x);
        assert(g.units() == -m.minus(x).units());
    }
    let a = g.size() as int;
    assert(0x20_0000_0000_0000 * distance(a - d) <= d + h);
    let size = Binary64 { bits: g.magnitude() as u64 };
    assert(size.size() == g.size());
    lemma_signed(false, rounded(g.size() * g.size(), o));
    lemma_product_near(size, size);
    let y = g.times(g);
    lemma_squared(o as int, h, d, a, y.units());
}

proof fn lemma_squared(o: int, h: int, d: int, a: int, y: int)
    requires
        h == 0x10_0000_0000_0000,
        h <= o,
        d >= 0,
        a >= 0,
        0x20_0000_0000_0000 * distance(a - d) <= d + h,
        0x20_0000_0000_0000 * distance(y * o - a * a) <= a * a + o * h,
    ensures
        0x4_0000_0000_0000 * distance(y * o - d * d) <= d * d + (d + o) * h,
{
    let dd = d * d;
    let aa = a * a;
    let dh = d * h;
    assert(a <= 2 * d + h);
    assert(0x20_0000_0000_0000 * distance(aa - dd) <= (d + h) * (3 * d + h)) by (nonlinear_arith)
        requires
            aa == a * a,
            dd == d * d,
            0 <= a <= 2 * d + h,
            d >= 0,
            h >= 0,
            0x20_0000_0000_0000 * distance(a - d) <= d + h,
    ;
    assert((d + h) * (3 * d + h) == 3 * dd + 4 * dh + h * h && h * h <= o * h && (d + o) * h == dh
        + o * h && dd >= 0 && dh >= 0) by (nonlinear_arith)
        requires
            dd == d * d,
            dh == d * h,
            d >= 0,
            0 <= h <= o,
    ;
}

} // verus!
