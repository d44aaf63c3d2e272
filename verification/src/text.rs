//! Numbers as text.

use vstd::arithmetic::div_mod::lemma_fundamental_div_mod;
use vstd::arithmetic::div_mod::lemma_fundamental_div_mod_converse;
use vstd::arithmetic::power2::lemma_pow2_unfold;
use vstd::arithmetic::power2::pow2;
use vstd::prelude::*;
use vstd::string::StrSliceExecFns;
use vstd::string::StringExecFns;

use crate::arithmetic::decode;
use crate::arithmetic::one;
use crate::binary64::Binary64;
use crate::binary64::INFINITY;
use crate::binary64::SIGN;
use crate::conversion::lemma_nearest_multiple;
use crate::conversion::nearest_scaled;
use crate::rounding::lemma_powers;
use crate::rounding::nearest_integer;

verus! {

/// The character of a decimal digit.
pub open spec fn digit(d: nat) -> char {
    (48 + d) as char
}

/// The decimal digits of `n`, without leading zeros.
pub open spec fn decimal(n: nat) -> Seq<char>
    decreases n,
{
    if n < 10 {
        seq![digit(n)]
    } else {
        decimal(n / 10).push(digit(n % 10))
    }
}

/// The last `width` decimal digits of `n`, leading zeros included.
pub open spec fn last_digits(n: nat, width: nat) -> Seq<char>
    decreases width,
{
    if width == 0 {
        Seq::empty()
    } else {
        last_digits(n / 10, (width - 1) as nat).push(digit(n % 10))
    }
}

/// 10^k.
pub open spec fn power_of_ten(k: nat) -> nat
    decreases k,
{
    if k == 0 {
        1
    } else {
        10 * power_of_ten((k - 1) as nat)
    }
}

/// `n` in decimal, filled up with zeros to at least `width` digits.
pub open spec fn padded(n: nat, width: nat) -> Seq<char> {
    if n < power_of_ten(width) {
        last_digits(n, width)
    } else {
        decimal(n)
    }
}

/// `x` in decimal with `places` digits behind the point, rounded to the
/// nearest; half way goes to the even digit.
pub open spec fn fixed(x: Binary64, places: nat) -> Seq<char> {
    if x.nan() {
        "NaN"@
    } else {
        let sign = if x.negative() {
            "-"@
        } else {
            Seq::empty()
        };
        if x.infinite() {
            sign + "inf"@
        } else {
            let n = nearest_integer(x.size() * power_of_ten(places), one());
            sign + decimal(n / power_of_ten(places)) + "."@ + last_digits(
                n % power_of_ten(places),
                places,
            )
        }
    }
}

/// `fixed`, with a plus sign before a number that has no minus sign.
pub open spec fn signed_fixed(x: Binary64, places: nat) -> Seq<char> {
    if x.nan() || x.negative() {
        fixed(x, places)
    } else {
        "+"@ + fixed(x, places)
    }
}

/// `n` spaces.
pub open spec fn spaces(n: nat) -> Seq<char> {
    Seq::new(n, |i: int| ' ')
}

/// `text` at the left of a column of this width. A longer text is kept whole.
pub open spec fn left(text: Seq<char>, width: nat) -> Seq<char> {
    if text.len() < width {
        text + spaces((width - text.len()) as nat)
    } else {
        text
    }
}

/// `text` at the right of a column of this width. A longer text is kept whole.
pub open spec fn right(text: Seq<char>, width: nat) -> Seq<char> {
    if text.len() < width {
        spaces((width - text.len()) as nat) + text
    } else {
        text
    }
}

/// Appends one digit.
pub fn push_digit(s: &mut String, d: u64)
    requires
        d < 10,
    ensures
        final(s)@ == old(s)@.push(digit(d as nat)),
{
    let ghost before = s@;
    proof {
        reveal_strlit("0");
        reveal_strlit("1");
        reveal_strlit("2");
        reveal_strlit("3");
        reveal_strlit("4");
        reveal_strlit("5");
        reveal_strlit("6");
        reveal_strlit("7");
        reveal_strlit("8");
        reveal_strlit("9");
    }
    if d == 0 {
        s.append("0");
    } else if d == 1 {
        s.append("1");
    } else if d == 2 {
        s.append("2");
    } else if d == 3 {
        s.append("3");
    } else if d == 4 {
        s.append("4");
    } else if d == 5 {
        s.append("5");
    } else if d == 6 {
        s.append("6");
    } else if d == 7 {
        s.append("7");
    } else if d == 8 {
        s.append("8");
    } else {
        s.append("9");
    }
    assert(s@ =~= before.push(digit(d as nat)));
}

/// Appends `n` in decimal.
pub fn push_decimal(s: &mut String, n: u64)
    ensures
        final(s)@ == old(s)@ + decimal(n as nat),
    decreases n,
{
    let ghost before = s@;
    if n >= 10 {
        push_decimal(s, n / 10);
    }
    push_digit(s, n % 10);
    assert(s@ =~= before + decimal(n as nat));
}

/// Appends the last `width` digits of `n`.
pub fn push_last_digits(s: &mut String, n: u64, width: u64)
    ensures
        final(s)@ == old(s)@ + last_digits(n as nat, width as nat),
    decreases width,
{
    let ghost before = s@;
    if width > 0 {
        push_last_digits(s, n / 10, width - 1);
        push_digit(s, n % 10);
    }
    assert(s@ =~= before + last_digits(n as nat, width as nat));
}

/// Appends `n`, filled up with zeros to at least four digits.
pub fn push_padded_4(s: &mut String, n: u64)
    ensures
        final(s)@ == old(s)@ + padded(n as nat, 4),
{
    proof {
        reveal_with_fuel(power_of_ten, 5);
    }
    if n < 10_000 {
        push_last_digits(s, n, 4);
    } else {
        push_decimal(s, n);
    }
}

/// Appends `n`, filled up with zeros to at least two digits.
pub fn push_padded_2(s: &mut String, n: u64)
    ensures
        final(s)@ == old(s)@ + padded(n as nat, 2),
{
    proof {
        reveal_with_fuel(power_of_ten, 3);
    }
    if n < 100 {
        push_last_digits(s, n, 2);
    } else {
        push_decimal(s, n);
    }
}

/// What decimal digits are worth, the least significant first.
spec fn worth(digits: Seq<u8>) -> nat
    decreases digits.len(),
{
    if digits.len() == 0 {
        0
    } else {
        digits[0] as nat + 10 * worth(digits.drop_first())
    }
}

/// Every entry is a digit.
spec fn all_digits(digits: Seq<u8>) -> bool {
    forall|i: int| 0 <= i < digits.len() ==> (#[trigger] digits[i]) < 10
}

/// No leading zero.
spec fn trimmed(digits: Seq<u8>) -> bool {
    digits.len() > 0 && (digits.len() > 1 ==> digits.last() > 0)
}

proof fn lemma_worth_push(digits: Seq<u8>, d: u8)
    ensures
        worth(digits.push(d)) == worth(digits) + d as nat * power_of_ten(digits.len()),
    decreases digits.len(),
{
    let all = digits.push(d);
    if digits.len() == 0 {
        assert(all.drop_first() =~= Seq::<u8>::empty());
        assert(worth(all.drop_first()) == 0);
        assert(d as nat * power_of_ten(0) == d) by (nonlinear_arith)
            requires
                power_of_ten(0) == 1,
        ;
    } else {
        assert(all.drop_first() =~= digits.drop_first().push(d));
        lemma_worth_push(digits.drop_first(), d);
        let p = power_of_ten((digits.len() - 1) as nat);
        assert(10 * (d as nat * p) == d as nat * (10 * p)) by (nonlinear_arith);
    }
}

proof fn lemma_worth_positive(digits: Seq<u8>)
    requires
        digits.len() > 0,
        digits.last() > 0,
    ensures
        worth(digits) > 0,
    decreases digits.len(),
{
    if digits.len() > 1 {
        assert(digits.drop_first().last() == digits.last());
        lemma_worth_positive(digits.drop_first());
    }
}

/// One step of doubling, at the position worth `p`.
proof fn lemma_double_step(p: nat, carry: nat, d: nat, rest: nat, t: nat)
    requires
        t == 2 * d + carry,
    ensures
        p * (carry + 2 * (d + 10 * rest)) == (t % 10) * p + (10 * p) * (t / 10 + 2 * rest),
{
    assert(t == 10 * (t / 10) + t % 10);
    let a = t / 10;
    let b = t % 10;
    assert(p * (carry + 2 * (d + 10 * rest)) == b * p + (10 * p) * (a + 2 * rest))
        by (nonlinear_arith)
        requires
            2 * d + carry == 10 * a + b,
    ;
}

/// Twice a decimal number.
fn double(digits: &Vec<u8>) -> (r: Vec<u8>)
    requires
        all_digits(digits@),
        trimmed(digits@),
    ensures
        all_digits(r@),
        trimmed(r@),
        worth(r@) == 2 * worth(digits@),
{
    let mut out: Vec<u8> = Vec::new();
    let mut carry: u8 = 0;
    let mut i: usize = 0;
    assert(digits@.skip(0) =~= digits@);
    assert(power_of_ten(0) * (0 + 2 * worth(digits@)) == 2 * worth(digits@)) by (nonlinear_arith)
        requires
            power_of_ten(0) == 1,
    ;
    assert(worth(out@) == 0);
    while i < digits.len()
        invariant
            i <= digits.len(),
            out.len() == i,
            carry <= 1,
            all_digits(digits@),
            trimmed(digits@),
            all_digits(out@),
            i == digits.len() && carry == 0 && i > 1 ==> out@.last() > 0,
            2 * worth(digits@) == worth(out@) + power_of_ten(i as nat) * (carry + 2 * worth(
                digits@.skip(i as int),
            )),
        decreases digits.len() - i,
    {
        let d: u8 = digits[i];
        let t: u8 = 2 * d + carry;
        proof {
            let rest = digits@.skip(i as int);
            assert(rest.drop_first() =~= digits@.skip(i + 1));
            assert(rest[0] == d);
            lemma_worth_push(out@, (t % 10) as u8);
            lemma_double_step(
                power_of_ten(i as nat),
                carry as nat,
                d as nat,
                worth(digits@.skip(i + 1)),
                t as nat,
            );
            if i + 1 == digits.len() && digits.len() > 1 {
                assert(d == digits@.last());
            }
        }
        out.push(t % 10);
        carry = t / 10;
        i = i + 1;
    }
    proof {
        assert(digits@.skip(i as int) =~= Seq::<u8>::empty());
        assert(worth(Seq::<u8>::empty()) == 0);
        lemma_worth_push(out@, carry);
        let p = power_of_ten(i as nat);
        assert(p * (carry + 2 * 0) == carry as nat * p) by (nonlinear_arith);
    }
    if carry > 0 {
        out.push(carry);
    }
    out
}

/// The digits of `n`, the least significant first.
fn digits_of(n: u64) -> (r: Vec<u8>)
    ensures
        all_digits(r@),
        trimmed(r@),
        worth(r@) == n,
{
    let mut out: Vec<u8> = Vec::new();
    let mut left: u64 = n;
    proof {
        lemma_worth_push(out@, (n % 10) as u8);
        assert(worth(out@) == 0);
        assert(power_of_ten(0) == 1);
    }
    out.push((left % 10) as u8);
    left = left / 10;
    proof {
        reveal_with_fuel(power_of_ten, 2);
        assert((n % 10) as nat * power_of_ten(0) == n % 10) by (nonlinear_arith)
            requires
                power_of_ten(0) == 1,
        ;
        assert(left as nat * power_of_ten(1) == 10 * left) by (nonlinear_arith)
            requires
                power_of_ten(1) == 10,
        ;
    }
    while left > 0
        invariant
            out.len() > 0,
            all_digits(out@),
            left == 0 ==> trimmed(out@),
            n == worth(out@) + left as nat * power_of_ten(out@.len()),
        decreases left,
    {
        proof {
            lemma_worth_push(out@, (left % 10) as u8);
            let p = power_of_ten(out@.len());
            let q = left / 10;
            assert(left as nat * p == (left % 10) as nat * p + q as nat * (10 * p))
                by (nonlinear_arith)
                requires
                    left == 10 * q + left % 10,
            ;
        }
        out.push((left % 10) as u8);
        left = left / 10;
    }
    assert(0 * power_of_ten(out@.len()) == 0) by (nonlinear_arith);
    out
}

/// The digits, the most significant first, as characters.
spec fn spelled(digits: Seq<u8>) -> Seq<char>
    decreases digits.len(),
{
    if digits.len() == 0 {
        Seq::empty()
    } else {
        spelled(digits.drop_first()).push(digit(digits[0] as nat))
    }
}

proof fn lemma_spelled(digits: Seq<u8>)
    requires
        all_digits(digits),
        trimmed(digits),
    ensures
        spelled(digits) == decimal(worth(digits)),
    decreases digits.len(),
{
    let rest = digits.drop_first();
    if digits.len() == 1 {
        assert(worth(rest) == 0);
        assert(spelled(rest) =~= Seq::<char>::empty());
        assert(spelled(digits) =~= seq![digit(digits[0] as nat)]);
    } else {
        assert(rest.last() == digits.last());
        lemma_worth_positive(rest);
        lemma_spelled(rest);
        assert((digits[0] as nat + 10 * worth(rest)) / 10 == worth(rest));
        assert((digits[0] as nat + 10 * worth(rest)) % 10 == digits[0]);
    }
}

/// Appends `m * 2^k` in decimal.
fn push_scaled(s: &mut String, m: u64, k: u64)
    ensures
        final(s)@ == old(s)@ + decimal(m as nat * pow2(k as nat)),
{
    let ghost before = s@;
    let mut digits: Vec<u8> = digits_of(m);
    let mut i: u64 = 0;
    proof {
        lemma_powers();
        assert(m as nat * pow2(0) == m);
    }
    while i < k
        invariant
            i <= k,
            all_digits(digits@),
            trimmed(digits@),
            worth(digits@) == m as nat * pow2(i as nat),
        decreases k - i,
    {
        proof {
            lemma_pow2_unfold((i + 1) as nat);
            let p = pow2(i as nat);
            assert(2 * (m as nat * p) == m as nat * (2 * p)) by (nonlinear_arith);
        }
        digits = double(&digits);
        i = i + 1;
    }
    let mut j: usize = digits.len();
    assert(digits@.skip(j as int) =~= Seq::<u8>::empty());
    assert(spelled(digits@.skip(j as int)) =~= Seq::<char>::empty());
    assert(s@ =~= before + spelled(digits@.skip(j as int)));
    while j > 0
        invariant
            j <= digits.len(),
            all_digits(digits@),
            s@ == before + spelled(digits@.skip(j as int)),
        decreases j,
    {
        let ghost had = spelled(digits@.skip(j as int));
        j = j - 1;
        push_digit(s, digits[j] as u64);
        proof {
            let rest = digits@.skip(j as int);
            assert(rest.drop_first() =~= digits@.skip(j + 1));
            assert(s@ =~= before + spelled(rest));
        }
    }
    proof {
        assert(digits@.skip(0) =~= digits@);
        lemma_spelled(digits@);
    }
}

/// Appends `x` with `places` digits behind the point; `scale` is 10^places.
fn push_fixed(s: &mut String, x: Binary64, places: u64, scale: u64)
    requires
        0 < scale <= 1_000_000_000,
        scale == power_of_ten(places as nat),
    ensures
        final(s)@ == old(s)@ + fixed(x, places as nat),
{
    let ghost before = s@;
    let a: u64 = x.bits % SIGN;
    if a > INFINITY {
        s.append("NaN");
        return;
    }
    let ghost sign = if x.negative() {
        "-"@
    } else {
        Seq::empty()
    };
    if x.bits >= SIGN {
        s.append("-");
    }
    assert(s@ =~= before + sign);
    if a == INFINITY {
        s.append("inf");
        assert(s@ =~= before + (sign + "inf"@));
        return;
    }
    let (m, e): (u64, i64) = decode(a);
    let ghost n = nearest_integer(x.size() * power_of_ten(places as nat), one());
    proof {
        lemma_nearest_multiple(m as nat, e as nat, scale as nat);
    }
    if e >= 1074 {
        let k: u64 = (e - 1074) as u64;
        proof {
            let q = m as nat * pow2(k as nat);
            assert((m as nat * scale as nat) * pow2(k as nat) == q * scale as nat)
                by (nonlinear_arith)
                requires
                    q == m as nat * pow2(k as nat),
            ;
            lemma_fundamental_div_mod_converse(n as int, scale as int, q as int, 0);
        }
        push_scaled(s, m, k);
        s.append(".");
        push_last_digits(s, 0, places);
    } else {
        let whole: u128 = nearest_scaled(m, scale, (1074 - e) as u64);
        proof {
            lemma_fundamental_div_mod(whole as int, scale as int);
            let q = whole as nat / scale as nat;
            assert(m * scale <= 0x20_0000_0000_0000 * scale) by (nonlinear_arith)
                requires
                    m < 0x20_0000_0000_0000,
                    scale > 0,
            ;
            assert(q <= 0x20_0000_0000_0000) by (nonlinear_arith)
                requires
                    scale * q <= whole,
                    2 * whole <= 0x20_0000_0000_0000 * scale + 2,
                    scale >= 1,
                    q >= 0,
            ;
        }
        push_decimal(s, (whole / scale as u128) as u64);
        s.append(".");
        push_last_digits(s, (whole % scale as u128) as u64, places);
    }
    proof {
        let p = power_of_ten(places as nat);
        assert(s@ =~= before + (sign + decimal(n / p) + "."@ + last_digits(n % p, places as nat)));
    }
}

/// Appends `x` with one digit behind the point.
pub fn push_fixed_1(s: &mut String, x: Binary64)
    ensures
        final(s)@ == old(s)@ + fixed(x, 1),
{
    proof {
        reveal_with_fuel(power_of_ten, 2);
    }
    push_fixed(s, x, 1, 10);
}

/// Appends `x` with two digits behind the point.
pub fn push_fixed_2(s: &mut String, x: Binary64)
    ensures
        final(s)@ == old(s)@ + fixed(x, 2),
{
    proof {
        reveal_with_fuel(power_of_ten, 3);
    }
    push_fixed(s, x, 2, 100);
}

/// Appends `x` with three digits behind the point.
pub fn push_fixed_3(s: &mut String, x: Binary64)
    ensures
        final(s)@ == old(s)@ + fixed(x, 3),
{
    proof {
        reveal_with_fuel(power_of_ten, 4);
    }
    push_fixed(s, x, 3, 1000);
}

/// Appends spaces.
fn push_spaces(s: &mut String, n: usize)
    ensures
        final(s)@ == old(s)@ + spaces(n as nat),
{
    let ghost before = s@;
    let mut i: usize = 0;
    proof {
        reveal_strlit(" ");
    }
    assert(s@ =~= before + spaces(0));
    while i < n
        invariant
            i <= n,
            s@ == before + spaces(i as nat),
            " "@ == seq![' '],
        decreases n - i,
    {
        s.append(" ");
        i = i + 1;
        assert(s@ =~= before + spaces(i as nat));
    }
}

/// Appends `text` at the left of a column of this width.
pub fn push_left(s: &mut String, text: &str, width: usize)
    ensures
        final(s)@ == old(s)@ + left(text@, width as nat),
{
    let ghost before = s@;
    let len: usize = text.unicode_len();
    s.append(text);
    if len < width {
        push_spaces(s, width - len);
    }
    assert(s@ =~= before + left(text@, width as nat));
}

/// Appends `text` at the right of a column of this width.
pub fn push_right(s: &mut String, text: &str, width: usize)
    ensures
        final(s)@ == old(s)@ + right(text@, width as nat),
{
    let ghost before = s@;
    let len: usize = text.unicode_len();
    if len < width {
        push_spaces(s, width - len);
    }
    s.append(text);
    assert(s@ =~= before + right(text@, width as nat));
}

/// Appends `x` with its sign and three digits behind the point.
pub fn push_signed_3(s: &mut String, x: Binary64)
    ensures
        final(s)@ == old(s)@ + signed_fixed(x, 3),
{
    let ghost before = s@;
    if !x.is_nan() && x.to_bits() < SIGN {
        s.append("+");
    }
    push_fixed_3(s, x);
    assert(s@ =~= before + signed_fixed(x, 3));
}

} // verus!
