//! Texts, as they are read back.

use vstd::arithmetic::div_mod::lemma_fundamental_div_mod;
use vstd::prelude::*;

use crate::arithmetic::distance;
use crate::arithmetic::one;
use crate::binary64::Binary64;
use crate::loadgen::alphanumeric;
use crate::loadgen::blank_text;
use crate::loadgen::directory_name;
use crate::loadgen::directory_step;
use crate::loadgen::hexadecimal;
use crate::loadgen::lower;
use crate::loadgen::replay_suffix;
use crate::loadgen::slug_of;
use crate::loadgen::space;
use crate::loadgen::trimmed_end;
use crate::loadgen::trimmed_start;
use crate::loadgen::word;
use crate::loadgen::DirectoryStep;
use crate::precision::lemma_nearest_integer_close;
use crate::ranks::lemma_unity;
use crate::rounding::nearest_integer;
use crate::text::decimal;
use crate::text::fixed;
use crate::text::last_digits;
use crate::text::left;
use crate::text::padded;
use crate::text::power_of_ten;
use crate::text::right;

verus! {

/// Nothing but decimal digits.
pub open spec fn digits_only(text: Seq<char>) -> bool {
    forall|i: int| 0 <= i < text.len() ==> '0' <= #[trigger] text[i] && text[i] <= '9'
}

/// The number that decimal digits spell.
pub open spec fn number(text: Seq<char>) -> int
    decreases text.len(),
{
    if text.len() == 0 {
        0
    } else {
        10 * number(text.drop_last()) + (text.last() as int - '0' as int)
    }
}

/// A number in decimal reads as itself, and has no leading zero.
pub proof fn lemma_decimal_reads(n: nat)
    ensures
        decimal(n).len() > 0,
        digits_only(decimal(n)),
        number(decimal(n)) == n,
        n > 0 ==> decimal(n)[0] != '0',
    decreases n,
{
    let text = decimal(n);
    if n < 10 {
        assert(text.drop_last() =~= Seq::<char>::empty());
        assert(number(text.drop_last()) == 0);
    } else {
        lemma_decimal_reads(n / 10);
        assert(text.drop_last() =~= decimal(n / 10));
        lemma_fundamental_div_mod(n as int, 10);
    }
}

/// The last digits of a number read as what is left of it.
pub proof fn lemma_last_digits_read(n: nat, width: nat)
    ensures
        last_digits(n, width).len() == width,
        digits_only(last_digits(n, width)),
        power_of_ten(width) > 0,
        number(last_digits(n, width)) == n % power_of_ten(width),
    decreases width,
{
    let text = last_digits(n, width);
    if width > 0 {
        let w = (width - 1) as nat;
        let p = power_of_ten(w);
        lemma_last_digits_read(n / 10, w);
        assert(text.drop_last() =~= last_digits(n / 10, w));
        vstd::arithmetic::div_mod::lemma_mod_breakdown(n as int, 10, p as int);
    }
}

/// A number filled up with zeros reads as itself.
pub proof fn lemma_padded_reads(n: nat, width: nat)
    ensures
        number(padded(n, width)) == n,
        n < power_of_ten(width) ==> padded(n, width).len() == width,
        digits_only(padded(n, width)),
{
    lemma_last_digits_read(n, width);
    lemma_decimal_reads(n);
    if n < power_of_ten(width) {
        vstd::arithmetic::div_mod::lemma_small_mod(n, power_of_ten(width));
    }
}

/// A number with some digits behind the point reads as the number, to the
/// nearest.
pub proof fn lemma_fixed_reads(x: Binary64, places: nat)
    requires
        x.finite(),
    ensures
        ({
            let text = fixed(x, places);
            let start = if x.negative() {
                1int
            } else {
                0
            };
            let point = text.len() - places - 1;
            let n = number(text.subrange(start, point)) * power_of_ten(places) + number(
                text.skip(point + 1),
            );
            &&& start < point
            &&& x.negative() ==> text[0] == '-'
            &&& text[point] == '.'
            &&& digits_only(text.subrange(start, point))
            &&& digits_only(text.skip(point + 1))
            &&& 2 * distance(n * one() - x.size() * power_of_ten(places)) <= one()
        }),
{
    let p = power_of_ten(places);
    let o = one();
    let n = nearest_integer(x.size() * p, o);
    let sign = if x.negative() {
        "-"@
    } else {
        Seq::<char>::empty()
    };
    let a = decimal(n / p);
    let b = last_digits(n % p, places);
    let text = fixed(x, places);
    reveal_strlit("-");
    reveal_strlit(".");
    lemma_unity();
    lemma_last_digits_read(n % p, places);
    lemma_decimal_reads(n / p);
    lemma_fundamental_div_mod(n as int, p as int);
    vstd::arithmetic::div_mod::lemma_mod_bound(n as int, p as int);
    vstd::arithmetic::div_mod::lemma_small_mod(n % p, p);
    lemma_nearest_integer_close(x.size() * p, o);
    assert(text =~= sign + a + "."@ + b);
    let start = sign.len() as int;
    let point = text.len() - places - 1;
    assert(text.subrange(start, point) =~= a);
    assert(text.skip(point + 1) =~= b);
    assert((n / p) * p == p * (n / p)) by (nonlinear_arith);
    assert(n * o == o * n) by (nonlinear_arith);
}

/// A slug holds letters, digits and hyphens only: those that were there, in
/// their places, with hyphens for the rest.
pub proof fn lemma_slug(id: Seq<char>, i: int)
    requires
        0 <= i < id.len(),
    ensures
        slug_of(id).len() == id.len(),
        alphanumeric(slug_of(id)[i]) || slug_of(id)[i] == '-',
        alphanumeric(id[i]) ==> slug_of(id)[i] == id[i],
        id[i] == '-' ==> slug_of(id)[i] == '-',
        slug_of(slug_of(id)) == slug_of(id),
        slug_of(id)[i] != '/' && slug_of(id)[i] != '.',
{
    assert(slug_of(slug_of(id)) =~= slug_of(id));
}

/// The name of a run's directory starts with its stamp, then its slug; the
/// first try adds nothing, the others their number.
pub proof fn lemma_directory_name(stamp: Seq<char>, slug: Seq<char>, attempt: nat)
    ensures
        ({
            let name = directory_name(stamp, slug, attempt);
            let at = stamp.len() as int;
            let base = at + 1 + slug.len();
            &&& name.len() >= base
            &&& name.take(at) == stamp
            &&& name[at] == '-'
            &&& name.subrange(at + 1, base) == slug
            &&& attempt == 0 ==> name.len() == base
            &&& attempt > 0 ==> name.len() > base + 1 && name[base] == '-' && number(
                name.skip(base + 1),
            ) == attempt
        }),
{
    let name = directory_name(stamp, slug, attempt);
    let at = stamp.len() as int;
    let base = at + 1 + slug.len();
    reveal_strlit("-");
    lemma_decimal_reads(attempt);
    assert(name.take(at) =~= stamp);
    assert(name.subrange(at + 1, base) =~= slug);
    if attempt > 0 {
        assert(name.skip(base + 1) =~= decimal(attempt));
    }
}

/// A hundred names are tried, and no more.
pub proof fn lemma_hundred_tries(attempt: u32)
    ensures
        directory_step(attempt, false) == DirectoryStep::Next <==> attempt < 99,
        directory_step(attempt, false) == DirectoryStep::GiveUp <==> attempt >= 99,
{
}

/// Replays have files of their own: where there is more than one, each has its
/// number in the name.
pub proof fn lemma_replay_files(repeat: nat, i: nat)
    ensures
        repeat <= 1 ==> replay_suffix(repeat, i).len() == 0,
        repeat > 1 ==> replay_suffix(repeat, i).len() > 1 && replay_suffix(repeat, i)[0] == '.'
            && number(replay_suffix(repeat, i).skip(1)) == i,
{
    reveal_strlit(".");
    lemma_decimal_reads(i);
    if repeat > 1 {
        assert(replay_suffix(repeat, i).skip(1) =~= decimal(i));
    }
}

/// Where the text starts, spaces aside.
proof fn lemma_trimmed_start(text: Seq<char>) -> (i: int)
    ensures
        0 <= i <= text.len(),
        trimmed_start(text) == text.skip(i),
        forall|k: int| 0 <= k < i ==> space(#[trigger] text[k]),
        i < text.len() ==> !space(text[i]),
    decreases text.len(),
{
    if text.len() > 0 && space(text[0]) {
        let rest = text.drop_first();
        let j = lemma_trimmed_start(rest);
        assert(rest.skip(j) =~= text.skip(j + 1));
        assert forall|k: int| 0 <= k < j + 1 implies space(#[trigger] text[k]) by {
            if k > 0 {
                assert(space(rest[k - 1]));
            }
        }
        j + 1
    } else {
        assert(text.skip(0) =~= text);
        0
    }
}

/// Where the text ends, spaces aside.
proof fn lemma_trimmed_end(text: Seq<char>) -> (j: int)
    ensures
        0 <= j <= text.len(),
        trimmed_end(text) == text.take(j),
        forall|k: int| j <= k < text.len() ==> space(#[trigger] text[k]),
        j > 0 ==> !space(text[j - 1]),
    decreases text.len(),
{
    if text.len() > 0 && space(text.last()) {
        let rest = text.drop_last();
        let j = lemma_trimmed_end(rest);
        assert(rest.take(j) =~= text.take(j));
        assert forall|k: int| j <= k < text.len() implies space(#[trigger] text[k]) by {
            if k < rest.len() {
                assert(space(rest[k]));
            }
        }
        j
    } else {
        assert(text.take(text.len() as int) =~= text);
        text.len() as int
    }
}

/// A trimmed text is the part of it between the spaces around it: it starts
/// and ends with something else, and only spaces are lost.
pub proof fn lemma_trimmed(text: Seq<char>) -> (r: (int, int))
    ensures
        0 <= r.0 <= r.1 <= text.len(),
        trimmed_end(trimmed_start(text)) == text.subrange(r.0, r.1),
        forall|k: int| 0 <= k < r.0 || r.1 <= k < text.len() ==> space(#[trigger] text[k]),
        r.0 < r.1 ==> !space(text[r.0]) && !space(text[r.1 - 1]),
{
    let i = lemma_trimmed_start(text);
    let rest = text.skip(i);
    let j = lemma_trimmed_end(rest);
    assert(rest.take(j) =~= text.subrange(i, i + j));
    assert forall|k: int| 0 <= k < i || i + j <= k < text.len() implies space(
        #[trigger] text[k],
    ) by {
        if k >= i {
            assert(space(rest[k - i]));
        }
    }
    if j > 0 {
        assert(rest[0] == text[i]);
        assert(rest[j - 1] == text[i + j - 1]);
    }
    (i, i + j)
}

/// A text is blank where it holds spaces only.
pub proof fn lemma_blank(text: Seq<char>)
    ensures
        blank_text(text) <==> forall|k: int| 0 <= k < text.len() ==> space(#[trigger] text[k]),
{
    let i = lemma_trimmed_start(text);
    if i < text.len() {
        assert(!space(text[i]));
    }
}

/// A word goes up to the first space.
pub proof fn lemma_word(text: Seq<char>)
    ensures
        word(text).len() <= text.len(),
        word(text) == text.take(word(text).len() as int),
        forall|k: int| 0 <= k < word(text).len() ==> !space(#[trigger] text[k]),
        word(text).len() < text.len() ==> space(text[word(text).len() as int]),
    decreases text.len(),
{
    if text.len() > 0 && !space(text[0]) {
        let rest = text.drop_first();
        lemma_word(rest);
        let n = word(rest).len() as int;
        assert(word(text) =~= text.take(n + 1)) by {
            assert forall|k: int| 0 <= k < n + 1 implies word(text)[k] == text[k] by {
                if k > 0 {
                    assert(word(rest)[k - 1] == rest.take(n)[k - 1]);
                }
            }
        }
        assert forall|k: int| 0 <= k < n + 1 implies !space(#[trigger] text[k]) by {
            if k > 0 {
                assert(!space(rest[k - 1]));
            }
        }
    } else {
        assert(text.take(0) =~= Seq::<char>::empty());
    }
}

/// A hexadecimal digit in lower case stands for the same digit.
pub proof fn lemma_lower(c: char)
    requires
        hexadecimal(c),
    ensures
        'A' <= c && c <= 'F' ==> lower(c) as int - 'a' as int == c as int - 'A' as int,
        !('A' <= c && c <= 'F') ==> lower(c) == c,
{
}

/// A column holds the text whole, filled up with spaces to its width.
pub proof fn lemma_columns(text: Seq<char>, width: nat)
    ensures
        left(text, width).len() == right(text, width).len(),
        left(text, width).len() >= width,
        left(text, width).len() >= text.len(),
        left(text, width).len() == width || left(text, width).len() == text.len(),
        left(text, width).take(text.len() as int) == text,
        right(text, width).skip(right(text, width).len() - text.len()) == text,
        forall|k: int|
            text.len() <= k < left(text, width).len() ==> #[trigger] left(text, width)[k] == ' ',
        forall|k: int|
            0 <= k < right(text, width).len() - text.len() ==> #[trigger] right(text, width)[k]
                == ' ',
{
    assert(left(text, width).take(text.len() as int) =~= text);
    assert(right(text, width).skip(right(text, width).len() - text.len()) =~= text);
}

} // verus!
