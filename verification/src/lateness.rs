//! Late dispatches, in whole numbers.
//!
//! A run fails for coordinated omission by the share of its requests that were
//! dispatched late. The share is a rounded quotient, and the limit a rounded
//! decimal; the verdict is that of the exact fractions all the same.

use vstd::arithmetic::div_mod::lemma_fundamental_div_mod_converse;
use vstd::arithmetic::power2::lemma2_to64;
use vstd::arithmetic::power2::lemma2_to64_rest;
use vstd::arithmetic::power2::lemma_pow2_adds;
use vstd::arithmetic::power2::lemma_pow2_pos;
use vstd::arithmetic::power2::pow2;
use vstd::prelude::*;

use crate::arithmetic::lemma_signed;
use crate::arithmetic::one;
use crate::binary64::lemma_size_ordered;
use crate::binary64::size_of_magnitude;
use crate::binary64::Binary64;
use crate::binary64::HIDDEN;
use crate::conversion::whole;
use crate::load_generator::Tally;
use crate::load_generator::MAX_LATE_DISPATCH_FRAC;
use crate::order::lemma_rounded_zero;
use crate::order::lemma_size_monotone;
use crate::order::lemma_whole_units;
use crate::precision::lemma_rounded_not_far_down;
use crate::rounding::lemma_nearest_integer_is;
use crate::rounding::lemma_nearest_magnitude_is;
use crate::rounding::lemma_powers;
use crate::rounding::lemma_rounded_monotone;
use crate::rounding::rounded;
use crate::seconds::lemma_whole_exact;
use crate::seconds::lemma_whole_positive;

verus! {


/// A thousandth, rounded, is the limit.
proof fn lemma_limit()
    ensures
        rounded(one(), 1000) == MAX_LATE_DISPATCH_FRAC,
        (Binary64 { bits: MAX_LATE_DISPATCH_FRAC }).units() == 0x10_624D_D2F1_A9FC * pow2(1012),
        one() == 0x4000_0000_0000_0000 * pow2(1012),
        pow2(1012) > 0,
{
    lemma_powers();
    lemma2_to64();
    lemma2_to64_rest();
    lemma_pow2_pos(1012);
    lemma_pow2_adds(62, 1012);
    lemma_pow2_adds(52, 1012);
    lemma_pow2_adds(53, 1012);
    let c = pow2(1012);
    let d = 1000 * c;
    let k: nat = 0x10_624D_D2F1_A9FC;
    assert(k * d == (1000 * k) * c) by (nonlinear_arith)
        requires
            d == 1000 * c,
    ;
    assert((k - 1) * d == k * d - d) by (nonlinear_arith);
    lemma_nearest_magnitude_is(one(), 1000, 1012);
    lemma_nearest_integer_is(one(), d, (k - 1) as nat);
    assert(1012 * HIDDEN + k == MAX_LATE_DISPATCH_FRAC);
    lemma_fundamental_div_mod_converse(
        MAX_LATE_DISPATCH_FRAC as int,
        HIDDEN as int,
        1013,
        0x624D_D2F1_A9FC,
    );
}

/// The share of `late` in `all`, once rounded.
proof fn lemma_share(late: nat, all: nat)
    requires
        late <= all,
        0 < all <= 0x100_0000_0000,
    ensures
        ({
            let share = whole(late).over(whole(all));
            &&& !share.negative()
            &&& share.magnitude() == rounded((late * one()) * one(), all * one())
        }),
{
    lemma_whole_exact(late);
    lemma_whole_exact(all);
    lemma_whole_units(late);
    lemma_whole_units(all);
    lemma_whole_positive(all);
    if late > 0 {
        lemma_whole_positive(late);
    } else {
        lemma_rounded_zero(1);
        assert(0 * one() == 0) by (nonlinear_arith);
    }
    lemma_signed(false, rounded((late * one()) * one(), all * one()));
}

/// Up to 2^40 requests after the warmup, a run fails for late dispatches if and
/// only if more than one in a thousand of these was late.
pub proof fn lemma_omission_by_share(tally: Tally)
    requires
        tally.well_formed(),
        0 < tally.post_warmup <= 0x100_0000_0000,
    ensures
        tally.omits() <==> 1000 * tally.late_post_warmup > tally.post_warmup,
{
    let o = one();
    let c = pow2(1012);
    let late = tally.late_post_warmup as nat;
    let all = tally.post_warmup as nat;
    let n = (late * o) * o;
    let d = all * o;
    let m = rounded(n, d);
    lemma_limit();
    lemma_share(late, all);
    assert(d > 0) by (nonlinear_arith)
        requires
            d == all * o,
            all > 0,
            o > 0,
    ;
    let f = MAX_LATE_DISPATCH_FRAC as nat;
    if 1000 * late <= all {
        assert(n * 1000 <= o * d) by (nonlinear_arith)
            requires
                n == (late * o) * o,
                d == all * o,
                1000 * late <= all,
        ;
        lemma_rounded_monotone(n, d, o, 1000);
        lemma_size_monotone(m, f);
    } else {
        let s = size_of_magnitude(m);
        if m <= f {
            lemma_size_monotone(m, f);
            lemma_rounded_not_far_down(n, d);
            lemma_too_close(late, all, s, c, o);
        }
        lemma_size_ordered(f, m);
    }
}

/// One request more than a thousandth is too far from it to be rounded away.
proof fn lemma_too_close(late: nat, all: nat, s: nat, c: nat, o: nat)
    requires
        1000 * late > all,
        0 < all <= 0x100_0000_0000,
        c > 0,
        o == 0x4000_0000_0000_0000 * c,
        ((all * o) * s) * 0x20_0000_0000_0000 + (all * o) * 0x10_0000_0000_0000 >= ((late * o) * o)
            * 0x1F_FFFF_FFFF_FFFF,
    ensures
        s > 0x10_624D_D2F1_A9FC * c,
{
    let lc = late * c;
    let ac = all * c;
    let t = all * s;
    assert(t * 0x20_0000_0000_0000 + all * 0x10_0000_0000_0000 >= (late * o) * 0x1F_FFFF_FFFF_FFFF)
        by (nonlinear_arith)
        requires
            ((all * o) * s) * 0x20_0000_0000_0000 + (all * o) * 0x10_0000_0000_0000 >= ((late * o)
                * o) * 0x1F_FFFF_FFFF_FFFF,
            t == all * s,
            o > 0,
    ;
    if s <= 0x10_624D_D2F1_A9FC * c {
        assert(t <= 0x10_624D_D2F1_A9FC * ac) by (nonlinear_arith)
            requires
                t == all * s,
                ac == all * c,
                s <= 0x10_624D_D2F1_A9FC * c,
        ;
    }
    assert(late * o == 0x4000_0000_0000_0000 * lc) by (nonlinear_arith)
        requires
            lc == late * c,
            o == 0x4000_0000_0000_0000 * c,
    ;
    assert(1000 * lc >= ac + c) by (nonlinear_arith)
        requires
            lc == late * c,
            ac == all * c,
            1000 * late >= all + 1,
    ;
    assert(ac <= 0x100_0000_0000 * c && all <= ac) by (nonlinear_arith)
        requires
            ac == all * c,
            all <= 0x100_0000_0000,
            c >= 1,
    ;
}

/// More requests on time never turn a run that passes into one that fails.
pub proof fn lemma_punctual_requests_never_hurt(a: Tally, b: Tally)
    requires
        a.well_formed(),
        b.well_formed(),
        0 < a.post_warmup <= b.post_warmup <= 0x100_0000_0000,
        b.late_post_warmup <= a.late_post_warmup,
        b.omits(),
    ensures
        a.omits(),
{
    lemma_omission_by_share(a);
    lemma_omission_by_share(b);
}

/// A turn of the dispatch loop: when a request was due, and when it was
/// reached.
pub open spec fn tallied(start: Tally, turns: Seq<(u128, u128)>) -> Tally
    decreases turns.len(),
{
    if turns.len() == 0 {
        start
    } else {
        tallied(start, turns.drop_last()).after(turns.last().0, turns.last().1)
    }
}

/// How many of the turns are such.
pub open spec fn how_many(turns: Seq<(u128, u128)>, such: spec_fn(u128, u128) -> bool) -> nat {
    turns.filter(|turn: (u128, u128)| such(turn.0, turn.1)).len()
}

/// What a run has counted: a request counts as late if it was reached more than
/// a millisecond after it was due, and counts against the run if it was due at
/// the end of the warmup or later.
pub proof fn lemma_turns_counted(start: Tally, turns: Seq<(u128, u128)>)
    requires
        start.dispatched == 0,
        start.late_dispatches == 0,
        start.post_warmup == 0,
        start.late_post_warmup == 0,
        turns.len() <= usize::MAX,
    ensures
        ({
            let end = tallied(start, turns);
            &&& end.well_formed()
            &&& end.warmup == start.warmup
            &&& end.dispatched == turns.len()
            &&& end.late_dispatches == how_many(
                turns,
                |due: u128, reached: u128| reached - due > 1_000_000,
            )
            &&& end.post_warmup == how_many(
                turns,
                |due: u128, reached: u128| due >= start.warmup,
            )
            &&& end.late_post_warmup == how_many(
                turns,
                |due: u128, reached: u128| due >= start.warmup && reached - due > 1_000_000,
            )
        }),
    decreases turns.len(),
{
    reveal(Seq::filter);
    if turns.len() > 0 {
        lemma_turns_counted(start, turns.drop_last());
    }
}

} // verus!
