//! Dates in the Gregorian calendar.

use vstd::arithmetic::div_mod::lemma_fundamental_div_mod;
use vstd::arithmetic::div_mod::lemma_fundamental_div_mod_converse;
use vstd::prelude::*;
use vstd::string::StringExecFns;

use crate::text::decimal;
use crate::text::digit;
use crate::text::last_digits;
use crate::text::padded;
use crate::text::power_of_ten;
use crate::text::push_padded_2;
use crate::text::push_padded_4;

verus! {

/// `year` has a 29th of February.
pub open spec fn leap(year: int) -> bool {
    year % 4 == 0 && (year % 100 != 0 || year % 400 == 0)
}

/// How many days a month has.
pub open spec fn month_length(year: int, month: int) -> int {
    if month == 2 {
        if leap(year) {
            29
        } else {
            28
        }
    } else if month == 4 || month == 6 || month == 9 || month == 11 {
        30
    } else {
        31
    }
}

/// How many days of its year lie before a month.
pub open spec fn days_before_month(year: int, month: int) -> int
    decreases month,
{
    if month <= 1 {
        0
    } else {
        days_before_month(year, month - 1) + month_length(year, month - 1)
    }
}

/// How many leap years there are from year 1 up to `year`.
pub open spec fn leap_years(year: int) -> int {
    year / 4 - year / 100 + year / 400
}

/// How many days lie between the 1st of January of year 1 and that of `year`.
pub open spec fn days_before_year(year: int) -> int {
    365 * (year - 1) + leap_years(year - 1)
}

/// The date lies `days` days after the 1st of January 1970.
pub open spec fn is_date(days: int, year: int, month: int, day: int) -> bool {
    &&& 1 <= month <= 12
    &&& 1 <= day <= month_length(year, month)
    &&& days_before_year(year) + days_before_month(year, month) + day - 1 == days
        + days_before_year(1970)
}

/// Leap years are counted one by one.
proof fn lemma_leap_years(year: int)
    requires
        year >= 1,
    ensures
        leap_years(year) == leap_years(year - 1) + if leap(year) {
            1int
        } else {
            0
        },
{
    lemma_one_more(year, 4);
    lemma_one_more(year, 100);
    lemma_one_more(year, 400);
    assert(year % 400 == 0 ==> year % 100 == 0);
    assert(year % 100 == 0 ==> year % 4 == 0);
}

/// A quotient grows at the multiples of the divisor.
proof fn lemma_one_more(year: int, d: int)
    requires
        year >= 1,
        d > 0,
    ensures
        year / d == (year - 1) / d + if year % d == 0 {
            1int
        } else {
            0
        },
{
    let q = year / d;
    let r = year % d;
    lemma_fundamental_div_mod(year, d);
    if r == 0 {
        assert((q - 1) * d == d * q - d) by (nonlinear_arith);
        lemma_fundamental_div_mod_converse(year - 1, d, q - 1, d - 1);
    } else {
        assert(q * d == d * q) by (nonlinear_arith);
        lemma_fundamental_div_mod_converse(year - 1, d, q, r - 1);
    }
}

/// The year of a 400-year era that a day falls into, years starting in March.
#[verifier::rlimit(60)]
proof fn lemma_year_of_era(doe: int)
    requires
        0 <= doe < 146_097,
    ensures
        ({
            let yoe = (doe - doe / 1460 + doe / 36_524 - doe / 146_096) / 365;
            let first = 365 * yoe + yoe / 4 - yoe / 100;
            &&& 0 <= yoe < 400
            &&& 0 <= doe - first <= 365
            &&& doe - first == 365 ==> leap(yoe + 1)
        }),
{
}

/// A year, a month and a day.
#[derive(Clone, Copy, Debug, PartialEq, Eq, Structural)]
pub struct Date {
    pub year: u64,
    pub month: u64,
    pub day: u64,
}

/// A date has one place in the calendar.
pub proof fn lemma_date_unique(days: int, y1: int, m1: int, d1: int, y2: int, m2: int, d2: int)
    requires
        y1 >= 1,
        y2 >= 1,
        is_date(days, y1, m1, d1),
        is_date(days, y2, m2, d2),
    ensures
        y1 == y2,
        m1 == m2,
        d1 == d2,
{
    lemma_day_of_year(y1, m1, d1);
    lemma_day_of_year(y2, m2, d2);
    if y1 < y2 {
        lemma_years_apart(y1, y2);
    } else if y2 < y1 {
        lemma_years_apart(y2, y1);
    } else {
        reveal_with_fuel(days_before_month, 13);
    }
}

/// A later year starts after the earlier one has ended.
proof fn lemma_years_apart(a: int, b: int)
    requires
        1 <= a < b,
    ensures
        days_before_year(b) >= days_before_year(a) + 365 + if leap(a) {
            1int
        } else {
            0
        },
    decreases b - a,
{
    lemma_leap_years(a);
    if a + 1 < b {
        lemma_years_apart(a, b - 1);
        lemma_leap_years(b - 1);
    }
}

/// A day lies within its year.
proof fn lemma_day_of_year(year: int, month: int, day: int)
    requires
        1 <= month <= 12,
        1 <= day <= month_length(year, month),
    ensures
        0 <= days_before_month(year, month) + day - 1 < 365 + if leap(year) {
            1int
        } else {
            0
        },
{
    reveal_with_fuel(days_before_month, 13);
}

/// Whole eras are as long as any 400 years.
proof fn lemma_era(z: int, era: int, doe: int, yoe: int)
    requires
        0 <= era,
        z == 146_097 * era + doe,
        0 <= yoe < 400,
    ensures
        ({
            let y = yoe + 400 * era;
            &&& z == 365 * y + leap_years(y) + (doe - (365 * yoe + yoe / 4 - yoe / 100))
            &&& leap(y + 1) == leap(yoe + 1)
        }),
{
    let y = yoe + 400 * era;
    assert(y / 4 == yoe / 4 + 100 * era);
    assert(y / 100 == yoe / 100 + 4 * era);
    assert(y / 400 == era);
    assert((y + 1) % 4 == (yoe + 1) % 4);
    assert((y + 1) % 100 == (yoe + 1) % 100);
    assert((y + 1) % 400 == (yoe + 1) % 400);
}

/// Counted from March, the months start at these days.
proof fn lemma_month_start(doy: int)
    requires
        0 <= doy <= 365,
    ensures
        ({
            let mp = (5 * doy + 2) / 153;
            &&& 0 <= mp <= 11
            &&& (153 * mp + 2) / 5 <= doy
            &&& mp < 11 ==> doy < (153 * (mp + 1) + 2) / 5
        }),
{
}

/// The month and the day of a day of a year that starts in March.
proof fn lemma_month(y: int, doy: int)
    requires
        0 <= y,
        0 <= doy <= 365,
        doy == 365 ==> leap(y + 1),
    ensures
        ({
            let mp = (5 * doy + 2) / 153;
            let day = doy - (153 * mp + 2) / 5 + 1;
            let month = if mp < 10 {
                mp + 3
            } else {
                mp - 9
            };
            let year = if month <= 2 {
                y + 1
            } else {
                y
            };
            &&& 1 <= month <= 12
            &&& 1 <= day <= month_length(year, month)
            &&& y >= 1 || month <= 2 ==> days_before_year(year) + days_before_month(year, month)
                + day - 1 + 306 == 365 * y + leap_years(y) + doy
        }),
{
    let mp = (5 * doy + 2) / 153;
    lemma_month_start(doy);
    reveal_with_fuel(days_before_month, 13);
    if y >= 1 {
        lemma_leap_years(y);
    }
    if mp == 0 {
    } else if mp == 1 {
    } else if mp == 2 {
    } else if mp == 3 {
    } else if mp == 4 {
    } else if mp == 5 {
    } else if mp == 6 {
    } else if mp == 7 {
    } else if mp == 8 {
    } else if mp == 9 {
    } else if mp == 10 {
    } else {
        assert(mp == 11);
    }
}

/// The date that lies `days` days after the 1st of January 1970.
pub fn date_of(days: u64) -> (r: Date)
    requires
        days <= 0x1_0000_0000_0000,
    ensures
        is_date(days as int, r.year as int, r.month as int, r.day as int),
        1970 <= r.year <= 0x100_0000_0000_0000,
{
    // Days since the 1st of March of year 0: with the leap day last, months
    // start at fixed days of a year.
    let z: u64 = days + 719_468;
    let era: u64 = z / 146_097;
    let doe: u64 = z % 146_097;
    let yoe: u64 = (doe - doe / 1460 + doe / 36_524 - doe / 146_096) / 365;
    proof {
        lemma_year_of_era(doe as int);
    }
    let doy: u64 = doe - (365 * yoe + yoe / 4 - yoe / 100);
    let mp: u64 = (5 * doy + 2) / 153;
    proof {
        lemma_month_start(doy as int);
    }
    let day: u64 = doy - (153 * mp + 2) / 5 + 1;
    let month: u64 = if mp < 10 {
        mp + 3
    } else {
        mp - 9
    };
    let march_year: u64 = yoe + era * 400;
    let year: u64 = if month <= 2 {
        march_year + 1
    } else {
        march_year
    };
    proof {
        lemma_era(z as int, era as int, doe as int, yoe as int);
        lemma_month(march_year as int, doy as int);
    }
    Date { year, month, day }
}

/// `secs` seconds after the start of 1970 fall on this date, and this is their
/// stamp.
pub open spec fn is_stamp(secs: u64, text: Seq<char>, date: Date) -> bool {
    let tod = (secs % 86_400) as nat;
    &&& is_date((secs / 86_400) as int, date.year as int, date.month as int, date.day as int)
    &&& text == padded(date.year as nat, 4) + padded(date.month as nat, 2) + padded(
        date.day as nat,
        2,
    ) + "-"@ + padded(tod / 3600, 2) + padded(tod % 3600 / 60, 2) + padded(tod % 60, 2)
}

/// `YYYYMMDD-HHMMSS` in UTC from a Unix timestamp.
pub fn utc_stamp(secs: u64) -> (r: String)
    ensures
        exists|date: Date| #[trigger] is_stamp(secs, r@, date),
{
    let date: Date = date_of(secs / 86_400);
    let tod: u64 = secs % 86_400;
    let mut s: String = String::new();
    push_padded_4(&mut s, date.year);
    push_padded_2(&mut s, date.month);
    push_padded_2(&mut s, date.day);
    s.append("-");
    push_padded_2(&mut s, tod / 3600);
    push_padded_2(&mut s, tod % 3600 / 60);
    push_padded_2(&mut s, tod % 60);
    proof {
        assert(Seq::<char>::empty() + padded(date.year as nat, 4) =~= padded(date.year as nat, 4));
        assert(is_stamp(secs, s@, date));
    }
    s
}

/// `a` comes before `b` in a list sorted by characters: they differ at some
/// place, and at the first such place `a` has the smaller one.
pub open spec fn lexically_before(a: Seq<char>, b: Seq<char>) -> bool {
    exists|k: int| #[trigger] differ_at(a, b, k)
}

/// The first difference between `a` and `b` is at place `k`, and `a` has the
/// smaller character there.
pub open spec fn differ_at(a: Seq<char>, b: Seq<char>, k: int) -> bool {
    &&& 0 <= k < a.len()
    &&& k < b.len()
    &&& a[k] < b[k]
    &&& forall|i: int| 0 <= i < k ==> a[i] == b[i]
}

/// What follows does not matter once there is a difference.
proof fn lemma_followed(a: Seq<char>, b: Seq<char>, c: Seq<char>, d: Seq<char>)
    requires
        lexically_before(a, b),
    ensures
        lexically_before(a + c, b + d),
{
    let k = choose|k: int| #[trigger] differ_at(a, b, k);
    assert(differ_at(a + c, b + d, k));
}

/// What comes before does not matter as long as it is the same.
proof fn lemma_preceded(a: Seq<char>, c: Seq<char>, d: Seq<char>)
    requires
        lexically_before(c, d),
    ensures
        lexically_before(a + c, a + d),
{
    let k = choose|k: int| #[trigger] differ_at(c, d, k);
    assert forall|i: int| 0 <= i < a.len() + k implies (a + c)[i] == (a + d)[i] by {
        if i >= a.len() {
            assert(c[i - a.len()] == d[i - a.len()]);
        }
    }
    assert(differ_at(a + c, a + d, a.len() + k));
}

proof fn lemma_last_digits_len(n: nat, width: nat)
    ensures
        last_digits(n, width).len() == width,
    decreases width,
{
    if width > 0 {
        lemma_last_digits_len(n / 10, (width - 1) as nat);
    }
}

proof fn lemma_last_digits_in_order(n: nat, m: nat, width: nat)
    requires
        n < m < power_of_ten(width),
    ensures
        lexically_before(last_digits(n, width), last_digits(m, width)),
    decreases width,
{
    let w = (width - 1) as nat;
    let a = last_digits(n / 10, w);
    let b = last_digits(m / 10, w);
    if n / 10 < m / 10 {
        lemma_last_digits_in_order(n / 10, m / 10, w);
        lemma_followed(a, b, seq![digit(n % 10)], seq![digit(m % 10)]);
        assert(a.push(digit(n % 10)) =~= a + seq![digit(n % 10)]);
        assert(b.push(digit(m % 10)) =~= b + seq![digit(m % 10)]);
    } else {
        assert(differ_at(a.push(digit(n % 10)), b.push(digit(m % 10)), a.len() as int));
    }
}

proof fn lemma_decimal_len(n: nat, k: nat)
    requires
        n >= power_of_ten(k),
    ensures
        decimal(n).len() > k,
    decreases k,
{
    if k > 0 {
        lemma_decimal_len(n / 10, (k - 1) as nat);
    }
}

proof fn lemma_decimal_in_order(n: nat, m: nat)
    requires
        n < m,
        decimal(n).len() == decimal(m).len(),
    ensures
        lexically_before(decimal(n), decimal(m)),
    decreases m,
{
    if m < 10 {
        assert(differ_at(decimal(n), decimal(m), 0));
    } else if n < 10 {
        lemma_decimal_len(m / 10, 0);
    } else {
        let a = decimal(n / 10);
        let b = decimal(m / 10);
        if n / 10 < m / 10 {
            lemma_decimal_in_order(n / 10, m / 10);
            lemma_followed(a, b, seq![digit(n % 10)], seq![digit(m % 10)]);
            assert(a.push(digit(n % 10)) =~= a + seq![digit(n % 10)]);
            assert(b.push(digit(m % 10)) =~= b + seq![digit(m % 10)]);
        } else {
            assert(differ_at(decimal(n), decimal(m), a.len() as int));
        }
    }
}

/// Padded numbers of one length are in lexical order.
proof fn lemma_padded_in_order(n: nat, m: nat, width: nat)
    requires
        n < m,
        padded(n, width).len() == padded(m, width).len(),
    ensures
        lexically_before(padded(n, width), padded(m, width)),
{
    lemma_last_digits_len(n, width);
    if m < power_of_ten(width) {
        lemma_last_digits_in_order(n, m, width);
    } else {
        lemma_decimal_len(m, width);
        lemma_decimal_in_order(n, m);
    }
}

/// Two digits are two characters.
proof fn lemma_two(n: nat)
    requires
        n < 100,
    ensures
        padded(n, 2).len() == 2,
        n < power_of_ten(2),
{
    reveal_with_fuel(power_of_ten, 3);
    lemma_last_digits_len(n, 2);
}

/// A date of a later day is later in its year, or in a later year.
proof fn lemma_dates_in_order(a: int, b: int, y1: int, m1: int, d1: int, y2: int, m2: int, d2: int)
    requires
        a < b,
        y1 >= 1,
        y2 >= 1,
        is_date(a, y1, m1, d1),
        is_date(b, y2, m2, d2),
    ensures
        y1 < y2 || (y1 == y2 && (m1 < m2 || (m1 == m2 && d1 < d2))),
{
    lemma_day_of_year(y1, m1, d1);
    lemma_day_of_year(y2, m2, d2);
    if y2 < y1 {
        lemma_years_apart(y2, y1);
    } else if y1 == y2 {
        reveal_with_fuel(days_before_month, 13);
    }
}

/// Days after 1970 fall into a year of the calendar.
proof fn lemma_year_positive(days: int, y: int, m: int, d: int)
    requires
        days >= 0,
        y >= 0,
        is_date(days, y, m, d),
    ensures
        y >= 1,
{
    lemma_day_of_year(y, m, d);
}

/// `a` is smaller than `b` in the first of its numbers that differs.
spec fn smaller(a: (nat, nat, nat), b: (nat, nat, nat)) -> bool {
    a.0 < b.0 || (a.0 == b.0 && (a.1 < b.1 || (a.1 == b.1 && a.2 < b.2)))
}

/// Three numbers in a row are in order by the first that differs.
proof fn lemma_three_in_order(a: (nat, nat, nat), b: (nat, nat, nat), width: nat)
    requires
        a.1 < 100 && a.2 < 100 && b.1 < 100 && b.2 < 100,
        padded(a.0, width).len() == padded(b.0, width).len(),
        smaller(a, b),
    ensures
        lexically_before(three(a, width), three(b, width)),
{
    let (x1, x2) = (padded(a.0, width), padded(b.0, width));
    let (y1, y2) = (padded(a.1, 2), padded(b.1, 2));
    let (z1, z2) = (padded(a.2, 2), padded(b.2, 2));
    lemma_two(a.1);
    lemma_two(b.1);
    lemma_two(a.2);
    lemma_two(b.2);
    if a.0 < b.0 {
        lemma_padded_in_order(a.0, b.0, width);
        lemma_followed(x1, x2, y1, y2);
        lemma_followed(x1 + y1, x2 + y2, z1, z2);
    } else if a.1 < b.1 {
        lemma_padded_in_order(a.1, b.1, 2);
        lemma_preceded(x1, y1, y2);
        lemma_followed(x1 + y1, x2 + y2, z1, z2);
    } else {
        lemma_padded_in_order(a.2, b.2, 2);
        lemma_preceded(x1 + y1, z1, z2);
    }
}

/// Three numbers in a row, the first padded to `width` and the others to two
/// digits.
spec fn three(a: (nat, nat, nat), width: nat) -> Seq<char> {
    padded(a.0, width) + padded(a.1, 2) + padded(a.2, 2)
}

/// The date as numbers in a row.
spec fn date_parts(date: Date) -> (nat, nat, nat) {
    (date.year as nat, date.month as nat, date.day as nat)
}

/// The time of day as numbers in a row.
spec fn time_parts(secs: u64) -> (nat, nat, nat) {
    let tod = (secs % 86_400) as nat;
    (tod / 3600, tod % 3600 / 60, tod % 60)
}

/// A stamp is a date and a time of day.
proof fn lemma_stamp_parts(secs: u64, text: Seq<char>, date: Date)
    requires
        is_stamp(secs, text, date),
    ensures
        text == three(date_parts(date), 4) + "-"@ + three(time_parts(secs), 2),
        text.len() == padded(date.year as nat, 4).len() + 11,
        time_parts(secs).0 < 100 && time_parts(secs).1 < 100 && time_parts(secs).2 < 100,
        date.month < 100 && date.day < 100,
        date.year >= 1,
{
    reveal_strlit("-");
    let (h, m, s) = time_parts(secs);
    lemma_two(date.month as nat);
    lemma_two(date.day as nat);
    lemma_two(h);
    lemma_two(m);
    lemma_two(s);
    lemma_year_positive(
        (secs / 86_400) as int,
        date.year as int,
        date.month as int,
        date.day as int,
    );
    assert(text =~= three(date_parts(date), 4) + "-"@ + three(time_parts(secs), 2));
}

/// On one day, a later second is a later time of day.
proof fn lemma_times_in_order(a: u64, b: u64)
    requires
        a < b,
        a / 86_400 == b / 86_400,
    ensures
        smaller(time_parts(a), time_parts(b)),
{
    let (s, t) = (a % 86_400, b % 86_400);
    assert(s < t);
}

/// A later second has a later date, or the same date and a later time of day.
proof fn lemma_parts_in_order(a: u64, b: u64, d1: Date, d2: Date)
    requires
        a < b,
        is_date((a / 86_400) as int, d1.year as int, d1.month as int, d1.day as int),
        is_date((b / 86_400) as int, d2.year as int, d2.month as int, d2.day as int),
        d1.year >= 1,
        d2.year >= 1,
    ensures
        smaller(date_parts(d1), date_parts(d2)) || (d1 == d2 && smaller(
            time_parts(a),
            time_parts(b),
        )),
{
    let (days1, days2) = ((a / 86_400) as int, (b / 86_400) as int);
    let (y1, m1, x1) = (d1.year as int, d1.month as int, d1.day as int);
    let (y2, m2, x2) = (d2.year as int, d2.month as int, d2.day as int);
    if days1 < days2 {
        lemma_dates_in_order(days1, days2, y1, m1, x1, y2, m2, x2);
    } else {
        lemma_date_unique(days1, y1, m1, x1, y2, m2, x2);
        lemma_times_in_order(a, b);
    }
}

/// Dates and times in order are stamps in order.
proof fn lemma_joined_in_order(
    d1: (nat, nat, nat),
    t1: (nat, nat, nat),
    d2: (nat, nat, nat),
    t2: (nat, nat, nat),
)
    requires
        d1.1 < 100 && d1.2 < 100 && d2.1 < 100 && d2.2 < 100,
        t1.0 < 100 && t1.1 < 100 && t1.2 < 100,
        t2.0 < 100 && t2.1 < 100 && t2.2 < 100,
        padded(d1.0, 4).len() == padded(d2.0, 4).len(),
        smaller(d1, d2) || (d1 == d2 && smaller(t1, t2)),
    ensures
        lexically_before(three(d1, 4) + "-"@ + three(t1, 2), three(d2, 4) + "-"@ + three(t2, 2)),
{
    let (date1, date2) = (three(d1, 4), three(d2, 4));
    let (time1, time2) = (three(t1, 2), three(t2, 2));
    if smaller(d1, d2) {
        lemma_three_in_order(d1, d2, 4);
        lemma_followed(date1, date2, "-"@, "-"@);
        lemma_followed(date1 + "-"@, date2 + "-"@, time1, time2);
    } else {
        lemma_two(t1.0);
        lemma_two(t2.0);
        lemma_three_in_order(t1, t2, 2);
        lemma_preceded(date1 + "-"@, time1, time2);
    }
}

/// Lexical order is chronological order: of two stamps of the same length, the
/// earlier one comes first, whatever follows them. The lengths differ only
/// where one year has more digits than the other.
pub proof fn lemma_stamps_in_order(
    a: u64,
    b: u64,
    first: Seq<char>,
    second: Seq<char>,
    d1: Date,
    d2: Date,
    c: Seq<char>,
    d: Seq<char>,
)
    requires
        a < b,
        is_stamp(a, first, d1),
        is_stamp(b, second, d2),
        first.len() == second.len(),
    ensures
        lexically_before(first + c, second + d),
{
    lemma_stamp_parts(a, first, d1);
    lemma_stamp_parts(b, second, d2);
    lemma_parts_in_order(a, b, d1, d2);
    lemma_joined_in_order(date_parts(d1), time_parts(a), date_parts(d2), time_parts(b));
    lemma_followed(first, second, c, d);
}

} // verus!
