//! ISO-8601 formatting of UTC timestamps given as milliseconds since
//! the Unix epoch (1970-01-01T00:00:00Z).
//!
//! The format is the 24-character `YYYY-MM-DDTHH:MM:SS.mmmZ`, which
//! covers every instant from the epoch up to the start of year 10000.

use vstd::prelude::*;

verus! {

/// Milliseconds from the epoch to 10000-01-01T00:00:00Z: the first
/// instant that no longer fits a four-digit year.
pub const MILLIS_LIMIT: u64 = 253402300800000;

/// Whether `y` is a leap year in the proleptic Gregorian calendar.
pub open spec fn is_leap(y: int) -> bool {
    (y % 4 == 0 && y % 100 != 0) || y % 400 == 0
}

/// How many days year `y` has.
pub open spec fn days_in_year(y: int) -> int {
    if is_leap(y) {
        366
    } else {
        365
    }
}

/// How many days month `m` of year `y` has.
pub open spec fn days_in_month(y: int, m: int) -> int {
    if m == 2 {
        if is_leap(y) {
            29
        } else {
            28
        }
    } else if m == 4 || m == 6 || m == 9 || m == 11 {
        30
    } else {
        31
    }
}

/// Days from 1970-01-01 to the first day of year `y`.
pub open spec fn days_before_year(y: int) -> int
    decreases y,
{
    if y <= 1970 {
        0
    } else {
        days_before_year(y - 1) + days_in_year(y - 1)
    }
}

/// Days from the first of January to the first day of month `m` of
/// year `y`.
pub open spec fn days_before_month(y: int, m: int) -> int
    decreases m,
{
    if m <= 1 {
        0
    } else {
        days_before_month(y, m - 1) + days_in_month(y, m - 1)
    }
}

/// The year holding day number `days` (counted from the first day of
/// year `y`), together with the day's offset within that year.
pub open spec fn year_split(days: int, y: int) -> (int, int)
    decreases days,
{
    if days < days_in_year(y) {
        (y, days)
    } else {
        year_split(days - days_in_year(y), y + 1)
    }
}

/// Days in months `m` through December of year `y`.
pub open spec fn months_rest(y: int, m: int) -> int
    decreases 13 - m,
{
    if m > 12 {
        0
    } else {
        days_in_month(y, m) + months_rest(y, m + 1)
    }
}

/// The twelve months of year `y` together hold a whole year of days.
proof fn lemma_months_rest_year(y: int)
    ensures
        months_rest(y, 1) == days_in_year(y),
{
    assert(months_rest(y, 13) == 0);
    assert(months_rest(y, 12) == 31);
    assert(months_rest(y, 11) == 61);
    assert(months_rest(y, 10) == 92);
    assert(months_rest(y, 9) == 122);
    assert(months_rest(y, 8) == 153);
    assert(months_rest(y, 7) == 184);
    assert(months_rest(y, 6) == 214);
    assert(months_rest(y, 5) == 245);
    assert(months_rest(y, 4) == 275);
    assert(months_rest(y, 3) == 306);
    if is_leap(y) {
        assert(months_rest(y, 2) == 335);
        assert(months_rest(y, 1) == 366);
    } else {
        assert(months_rest(y, 2) == 334);
        assert(months_rest(y, 1) == 365);
    }
}

/// The month holding day-of-year `doy` (counted from the first day of
/// month `m` of year `y`), together with the day's offset within that
/// month.
pub open spec fn month_split(y: int, doy: int, m: int) -> (int, int)
    decreases 12 - m,
{
    if m >= 12 || doy < days_in_month(y, m) {
        (m, doy)
    } else {
        month_split(y, doy - days_in_month(y, m), m + 1)
    }
}

/// The decimal digit character for `d`.
pub open spec fn digit(d: int) -> char {
    (48 + d) as char
}

/// `n` as two decimal digits, zero-padded.
pub open spec fn dec2(n: int) -> Seq<char> {
    seq![digit(n / 10), digit(n % 10)]
}

/// `n` as three decimal digits, zero-padded.
pub open spec fn dec3(n: int) -> Seq<char> {
    seq![digit(n / 100), digit((n / 10) % 10), digit(n % 10)]
}

/// `n` as four decimal digits, zero-padded.
pub open spec fn dec4(n: int) -> Seq<char> {
    seq![digit(n / 1000), digit((n / 100) % 10), digit((n / 10) % 10), digit(n % 10)]
}

/// The ISO-8601 UTC rendering `YYYY-MM-DDTHH:MM:SS.mmmZ` of `ms`
/// milliseconds since the epoch.
pub open spec fn iso_of(ms: int) -> Seq<char> {
    let days = ms / 86400000;
    let rem = ms % 86400000;
    let ys = year_split(days, 1970);
    let ms_ = month_split(ys.0, ys.1, 1);
    let hh = rem / 3600000;
    let r2 = rem % 3600000;
    let mi = r2 / 60000;
    let r3 = r2 % 60000;
    let ss = r3 / 1000;
    let mil = r3 % 1000;
    dec4(ys.0) + seq!['-'] + dec2(ms_.0) + seq!['-'] + dec2(ms_.1 + 1) + seq!['T'] + dec2(hh)
        + seq![':'] + dec2(mi) + seq![':'] + dec2(ss) + seq!['.'] + dec3(mil) + seq!['Z']
}

/// Whether `c` is a decimal digit character.
pub open spec fn is_digit_char(c: char) -> bool {
    48 <= c as int <= 57
}

/// The numeric value of a decimal digit character.
pub open spec fn digit_val(c: char) -> int {
    c as int - 48
}

/// The number read from two digit characters of `s` starting at `i`.
pub open spec fn num2(s: Seq<char>, i: int) -> int {
    10 * digit_val(s[i]) + digit_val(s[i + 1])
}

/// The number read from three digit characters of `s` starting at `i`.
pub open spec fn num3(s: Seq<char>, i: int) -> int {
    100 * digit_val(s[i]) + 10 * digit_val(s[i + 1]) + digit_val(s[i + 2])
}

/// The number read from four digit characters of `s` starting at `i`.
pub open spec fn num4(s: Seq<char>, i: int) -> int {
    1000 * digit_val(s[i]) + 100 * digit_val(s[i + 1]) + 10 * digit_val(s[i + 2]) + digit_val(
        s[i + 3],
    )
}

/// Whether `s` reads as a well-formed `YYYY-MM-DDTHH:MM:SS.mmmZ`
/// timestamp: the right length, separators and digits in their
/// places, and every calendar field within its range.
pub open spec fn valid_iso(s: Seq<char>) -> bool {
    &&& s.len() == 24
    &&& s[4] == '-'
    &&& s[7] == '-'
    &&& s[10] == 'T'
    &&& s[13] == ':'
    &&& s[16] == ':'
    &&& s[19] == '.'
    &&& s[23] == 'Z'
    &&& forall|i: int|
        0 <= i < 24 && i != 4 && i != 7 && i != 10 && i != 13 && i != 16 && i != 19 && i != 23
            ==> is_digit_char(#[trigger] s[i])
    &&& 1970 <= num4(s, 0) <= 9999
    &&& 1 <= num2(s, 5) <= 12
    &&& 1 <= num2(s, 8) <= days_in_month(num4(s, 0), num2(s, 5))
    &&& num2(s, 11) <= 23
    &&& num2(s, 14) <= 59
    &&& num2(s, 17) <= 59
}

/// The instant, in milliseconds since the epoch, that a calendar date
/// and time-of-day name.
pub open spec fn millis_of_parts(
    y: int,
    mo: int,
    d: int,
    hh: int,
    mi: int,
    ss: int,
    mil: int,
) -> int {
    (days_before_year(y) + days_before_month(y, mo) + (d - 1)) * 86400000 + hh * 3600000 + mi
        * 60000 + ss * 1000 + mil
}

/// The instant a well-formed timestamp string names.
pub open spec fn iso_value(s: Seq<char>) -> int {
    millis_of_parts(
        num4(s, 0),
        num2(s, 5),
        num2(s, 8),
        num2(s, 11),
        num2(s, 14),
        num2(s, 17),
        num3(s, 20),
    )
}

/// Two zero-padded digits read back as the number they render.
proof fn lemma_digits2(n: int)
    requires
        0 <= n <= 99,
    ensures
        is_digit_char(digit(n / 10)),
        is_digit_char(digit(n % 10)),
        10 * digit_val(digit(n / 10)) + digit_val(digit(n % 10)) == n,
{
    vstd::arithmetic::div_mod::lemma_fundamental_div_mod(n, 10);
    vstd::arithmetic::div_mod::lemma_mod_pos_bound(n, 10);
    assert(0 <= n / 10 <= 9) by (nonlinear_arith)
        requires
            0 <= n <= 99,
    ;
}

/// Three zero-padded digits read back as the number they render.
proof fn lemma_digits3(n: int)
    requires
        0 <= n <= 999,
    ensures
        is_digit_char(digit(n / 100)),
        is_digit_char(digit((n / 10) % 10)),
        is_digit_char(digit(n % 10)),
        100 * digit_val(digit(n / 100)) + 10 * digit_val(digit((n / 10) % 10)) + digit_val(
            digit(n % 10),
        ) == n,
{
    vstd::arithmetic::div_mod::lemma_mod_pos_bound(n, 10);
    vstd::arithmetic::div_mod::lemma_mod_pos_bound(n / 10, 10);
    assert(0 <= n / 100 <= 9) by (nonlinear_arith)
        requires
            0 <= n <= 999,
    ;
    assert(100 * (n / 100) + 10 * ((n / 10) % 10) + n % 10 == n) by (nonlinear_arith)
        requires
            0 <= n <= 999,
    ;
}

/// Four zero-padded digits read back as the number they render.
proof fn lemma_digits4(n: int)
    requires
        0 <= n <= 9999,
    ensures
        is_digit_char(digit(n / 1000)),
        is_digit_char(digit((n / 100) % 10)),
        is_digit_char(digit((n / 10) % 10)),
        is_digit_char(digit(n % 10)),
        1000 * digit_val(digit(n / 1000)) + 100 * digit_val(digit((n / 100) % 10)) + 10 * digit_val(
            digit((n / 10) % 10),
        ) + digit_val(digit(n % 10)) == n,
{
    vstd::arithmetic::div_mod::lemma_mod_pos_bound(n, 10);
    vstd::arithmetic::div_mod::lemma_mod_pos_bound(n / 10, 10);
    vstd::arithmetic::div_mod::lemma_mod_pos_bound(n / 100, 10);
    assert(0 <= n / 1000 <= 9) by (nonlinear_arith)
        requires
            0 <= n <= 9999,
    ;
    assert(1000 * (n / 1000) + 100 * ((n / 100) % 10) + 10 * ((n / 10) % 10) + n % 10 == n) by (nonlinear_arith)
        requires
            0 <= n <= 9999,
    ;
}

/// A rendered timestamp is a well-formed ISO-8601 UTC timestamp, and
/// reading it back yields the instant it was rendered from. In
/// particular two renderings of instants that do not decrease name
/// instants that do not decrease.
pub proof fn lemma_iso_round_trip(ms: int)
    requires
        0 <= ms < MILLIS_LIMIT,
    ensures
        valid_iso(iso_of(ms)),
        iso_value(iso_of(ms)) == ms,
{
    let days = ms / 86400000;
    let rem = ms % 86400000;
    vstd::arithmetic::div_mod::lemma_fundamental_div_mod(ms, 86400000);
    vstd::arithmetic::div_mod::lemma_mod_pos_bound(ms, 86400000);
    assert(0 <= days && days < 2932897) by (nonlinear_arith)
        requires
            0 <= ms < 253402300800000,
            ms == 86400000 * days + rem,
            0 <= rem < 86400000,
    ;
    lemma_year_split_acc(days, 1970);
    let ys = year_split(days, 1970);
    let y = ys.0;
    let doy = ys.1;
    lemma_days_before_year_10000();
    if y >= 10000 {
        lemma_days_before_year_monotone(10000, y);
    }
    lemma_months_rest_year(y);
    lemma_month_split_acc(y, doy, 1);
    let msp = month_split(y, doy, 1);
    let mo = msp.0;
    let d0 = msp.1;
    let hh = rem / 3600000;
    let r2 = rem % 3600000;
    let mi = r2 / 60000;
    let r3 = r2 % 60000;
    let ss = r3 / 1000;
    let mil = r3 % 1000;
    vstd::arithmetic::div_mod::lemma_fundamental_div_mod(rem, 3600000);
    vstd::arithmetic::div_mod::lemma_mod_pos_bound(rem, 3600000);
    vstd::arithmetic::div_mod::lemma_fundamental_div_mod(r2, 60000);
    vstd::arithmetic::div_mod::lemma_mod_pos_bound(r2, 60000);
    vstd::arithmetic::div_mod::lemma_fundamental_div_mod(r3, 1000);
    vstd::arithmetic::div_mod::lemma_mod_pos_bound(r3, 1000);
    assert(hh <= 23) by (nonlinear_arith)
        requires
            hh == rem / 3600000,
            0 <= rem < 86400000,
    ;
    assert(mi <= 59) by (nonlinear_arith)
        requires
            mi == r2 / 60000,
            0 <= r2 < 3600000,
    ;
    assert(ss <= 59) by (nonlinear_arith)
        requires
            ss == r3 / 1000,
            0 <= r3 < 60000,
    ;
    lemma_digits4(y);
    lemma_digits2(mo);
    lemma_digits2(d0 + 1);
    lemma_digits2(hh);
    lemma_digits2(mi);
    lemma_digits2(ss);
    lemma_digits3(mil);
    let s = iso_of(ms);
    assert(s =~= seq![
        digit(y / 1000),
        digit((y / 100) % 10),
        digit((y / 10) % 10),
        digit(y % 10),
        '-',
        digit(mo / 10),
        digit(mo % 10),
        '-',
        digit((d0 + 1) / 10),
        digit((d0 + 1) % 10),
        'T',
        digit(hh / 10),
        digit(hh % 10),
        ':',
        digit(mi / 10),
        digit(mi % 10),
        ':',
        digit(ss / 10),
        digit(ss % 10),
        '.',
        digit(mil / 100),
        digit((mil / 10) % 10),
        digit(mil % 10),
        'Z',
    ]);
    assert(num4(s, 0) == y);
    assert(num2(s, 5) == mo);
    assert(num2(s, 8) == d0 + 1);
    assert(num2(s, 11) == hh);
    assert(num2(s, 14) == mi);
    assert(num2(s, 17) == ss);
    assert(num3(s, 20) == mil);
    assert(days_before_month(y, 1) == 0);
    assert(days == days_before_year(y) + days_before_month(y, mo) + d0);
    assert(rem == hh * 3600000 + mi * 60000 + ss * 1000 + mil);
    assert(iso_value(s) == ms);
}

/// Rendered timestamps of instants that do not decrease themselves
/// name instants that do not decrease: the clock read twice never
/// reads back backwards.
pub proof fn lemma_iso_monotone(ms1: int, ms2: int)
    requires
        0 <= ms1 <= ms2 < MILLIS_LIMIT,
    ensures
        iso_value(iso_of(ms1)) <= iso_value(iso_of(ms2)),
{
    lemma_iso_round_trip(ms1);
    lemma_iso_round_trip(ms2);
}

/// Whether year `y` is a leap year.
pub fn is_leap_exec(y: u64) -> (r: bool)
    ensures
        r == is_leap(y as int),
{
    (y % 4 == 0 && y % 100 != 0) || y % 400 == 0
}

/// How many days year `y` has.
pub fn days_in_year_exec(y: u64) -> (r: u64)
    ensures
        r == days_in_year(y as int),
{
    if is_leap_exec(y) {
        366
    } else {
        365
    }
}

/// How many days month `m` of year `y` has.
pub fn days_in_month_exec(y: u64, m: u64) -> (r: u64)
    ensures
        r == days_in_month(y as int, m as int),
{
    if m == 2 {
        if is_leap_exec(y) {
            29
        } else {
            28
        }
    } else if m == 4 || m == 6 || m == 9 || m == 11 {
        30
    } else {
        31
    }
}

/// Push the two zero-padded decimal digits of `n` onto `out`.
fn push_dec2(out: &mut Vec<char>, n: u64)
    requires
        n < 100,
    ensures
        final(out)@ == old(out)@ + dec2(n as int),
{
    out.push((48 + (n / 10)) as u8 as char);
    out.push((48 + (n % 10)) as u8 as char);
    assert(out@ =~= old(out)@ + dec2(n as int));
}

/// Push the three zero-padded decimal digits of `n` onto `out`.
fn push_dec3(out: &mut Vec<char>, n: u64)
    requires
        n < 1000,
    ensures
        final(out)@ == old(out)@ + dec3(n as int),
{
    out.push((48 + (n / 100)) as u8 as char);
    out.push((48 + ((n / 10) % 10)) as u8 as char);
    out.push((48 + (n % 10)) as u8 as char);
    assert(out@ =~= old(out)@ + dec3(n as int));
}

/// Push the four zero-padded decimal digits of `n` onto `out`.
fn push_dec4(out: &mut Vec<char>, n: u64)
    requires
        n < 10000,
    ensures
        final(out)@ == old(out)@ + dec4(n as int),
{
    out.push((48 + (n / 1000)) as u8 as char);
    out.push((48 + ((n / 100) % 10)) as u8 as char);
    out.push((48 + ((n / 10) % 10)) as u8 as char);
    out.push((48 + (n % 10)) as u8 as char);
    assert(out@ =~= old(out)@ + dec4(n as int));
}

/// `days_before_year` never decreases as the year grows.
proof fn lemma_days_before_year_monotone(y1: int, y2: int)
    requires
        y1 <= y2,
    ensures
        days_before_year(y1) <= days_before_year(y2),
    decreases y2 - y1,
{
    if y1 < y2 {
        lemma_days_before_year_monotone(y1, y2 - 1);
    }
}

/// Every year has at least 365 days.
proof fn lemma_days_before_year_lower(y: int)
    requires
        y >= 1970,
    ensures
        days_before_year(y) >= 365 * (y - 1970),
    decreases y,
{
    if y > 1970 {
        lemma_days_before_year_lower(y - 1);
    }
}

/// Leap years before year `y`, counted from year 1.
spec fn leap_count(y: int) -> int {
    (y - 1) / 4 - (y - 1) / 100 + (y - 1) / 400
}

/// A positive divisor's quotient grows by one exactly at its
/// multiples.
proof fn lemma_div_step(a: int, d: int)
    requires
        a > 0,
        d > 0,
    ensures
        a / d - (a - 1) / d == if a % d == 0 {
            1int
        } else {
            0int
        },
{
    vstd::arithmetic::div_mod::lemma_fundamental_div_mod(a, d);
    vstd::arithmetic::div_mod::lemma_mod_pos_bound(a, d);
    let q = a / d;
    let r = a % d;
    if r == 0 {
        assert(a - 1 == (q - 1) * d + (d - 1)) by (nonlinear_arith)
            requires
                a == d * q,
        ;
        vstd::arithmetic::div_mod::lemma_fundamental_div_mod_converse(a - 1, d, q - 1, d - 1);
    } else {
        assert(a - 1 == q * d + (r - 1)) by (nonlinear_arith)
            requires
                a == d * q + r,
        ;
        vstd::arithmetic::div_mod::lemma_fundamental_div_mod_converse(a - 1, d, q, r - 1);
    }
}

/// A multiple of `c * d` is a multiple of `d`.
proof fn lemma_mod_factor(a: int, c: int, d: int)
    requires
        c > 0,
        d > 0,
        a % (c * d) == 0,
    ensures
        a % d == 0,
{
    assert(c * d > 0) by (nonlinear_arith)
        requires
            c > 0,
            d > 0,
    ;
    vstd::arithmetic::div_mod::lemma_fundamental_div_mod(a, c * d);
    let q = a / (c * d);
    assert(a == (c * d) * q);
    assert(a == (q * c) * d + 0) by (nonlinear_arith)
        requires
            a == (c * d) * q,
    ;
    vstd::arithmetic::div_mod::lemma_fundamental_div_mod_converse(a, d, q * c, 0);
}

/// The running day count agrees with the closed-form leap-year count.
proof fn lemma_days_before_year_closed(y: int)
    requires
        y >= 1970,
    ensures
        days_before_year(y) == 365 * (y - 1970) + leap_count(y) - 477,
    decreases y,
{
    if y == 1970 {
    } else {
        lemma_days_before_year_closed(y - 1);
        let a = y - 1;
        lemma_div_step(a, 4);
        lemma_div_step(a, 100);
        lemma_div_step(a, 400);
        if a % 100 == 0 {
            lemma_mod_factor(a, 25, 4);
        }
        if a % 400 == 0 {
            lemma_mod_factor(a, 4, 100);
        }
    }
}

/// The number of days from the epoch to the start of year 10000.
proof fn lemma_days_before_year_10000()
    ensures
        days_before_year(10000) == 2932897,
{
    lemma_days_before_year_closed(10000);
}

/// What splitting days into a year yields: a year at or past the
/// starting one, a day offset inside that year, and a total that adds
/// back up to the day count.
proof fn lemma_year_split_acc(days: int, y: int)
    requires
        0 <= days,
        1970 <= y,
    ensures
        ({
            let r = year_split(days, y);
            &&& y <= r.0
            &&& 0 <= r.1 < days_in_year(r.0)
            &&& days_before_year(r.0) - days_before_year(y) + r.1 == days
        }),
    decreases days,
{
    if days < days_in_year(y) {
    } else {
        lemma_year_split_acc(days - days_in_year(y), y + 1);
    }
}

/// What splitting a day-of-year into a month yields: a month between
/// the starting one and December, a day offset inside that month, and
/// a total that adds back up.
proof fn lemma_month_split_acc(y: int, doy: int, m: int)
    requires
        1 <= m <= 12,
        0 <= doy < months_rest(y, m),
    ensures
        ({
            let r = month_split(y, doy, m);
            &&& m <= r.0 <= 12
            &&& 0 <= r.1 < days_in_month(y, r.0)
            &&& days_before_month(y, r.0) - days_before_month(y, m) + r.1 == doy
        }),
    decreases 12 - m,
{
    if m >= 12 {
        assert(months_rest(y, 13) == 0);
        assert(months_rest(y, 12) == days_in_month(y, 12));
    } else if doy < days_in_month(y, m) {
    } else {
        lemma_month_split_acc(y, doy - days_in_month(y, m), m + 1);
    }
}

/// Render `ms` milliseconds since the epoch as an ISO-8601 UTC
/// timestamp `YYYY-MM-DDTHH:MM:SS.mmmZ`.
pub fn format_iso(ms: u64) -> (r: String)
    requires
        ms < MILLIS_LIMIT,
    ensures
        r@ == iso_of(ms as int),
{
    let days: u64 = ms / 86400000;
    let rem: u64 = ms % 86400000;
    let mut y: u64 = 1970;
    let mut dleft: u64 = days;
    while dleft >= days_in_year_exec(y)
        invariant
            days < 2932897,
            dleft <= days,
            1970 <= y <= 12000,
            days_before_year(y as int) + dleft == days,
            year_split(days as int, 1970) == year_split(dleft as int, y as int),
        decreases dleft,
    {
        let diy = days_in_year_exec(y);
        dleft = dleft - diy;
        y = y + 1;
        proof {
            lemma_days_before_year_lower(y as int);
        }
    }
    proof {
        lemma_days_before_year_10000();
        if y >= 10000 {
            lemma_days_before_year_monotone(10000, y as int);
        }
        assert(y <= 9999);
        assert(year_split(days as int, 1970) == (y as int, dleft as int));
    }
    let mut m: u64 = 1;
    let mut doy: u64 = dleft;
    proof {
        lemma_months_rest_year(y as int);
    }
    while m < 12 && doy >= days_in_month_exec(y, m)
        invariant
            1 <= m <= 12,
            y <= 9999,
            doy <= dleft,
            dleft < 366,
            doy < months_rest(y as int, m as int),
            month_split(y as int, dleft as int, 1) == month_split(y as int, doy as int, m as int),
        decreases 12 - m,
    {
        let dim = days_in_month_exec(y, m);
        doy = doy - dim;
        m = m + 1;
    }
    proof {
        assert(month_split(y as int, dleft as int, 1) == (m as int, doy as int));
        assert(months_rest(y as int, 12) == 31 + months_rest(y as int, 13));
        assert(doy < 31);
    }
    let hh: u64 = rem / 3600000;
    let r2: u64 = rem % 3600000;
    let mi: u64 = r2 / 60000;
    let r3: u64 = r2 % 60000;
    let ss: u64 = r3 / 1000;
    let mil: u64 = r3 % 1000;
    proof {
        assert(hh < 24) by (nonlinear_arith)
            requires
                hh == rem / 3600000,
                rem < 86400000,
        ;
        assert(mi < 60) by (nonlinear_arith)
            requires
                mi == r2 / 60000,
                r2 < 3600000,
        ;
        assert(ss < 60) by (nonlinear_arith)
            requires
                ss == r3 / 1000,
                r3 < 60000,
        ;
    }
    let mut out: Vec<char> = Vec::new();
    push_dec4(&mut out, y);
    out.push('-');
    push_dec2(&mut out, m);
    out.push('-');
    push_dec2(&mut out, doy + 1);
    out.push('T');
    push_dec2(&mut out, hh);
    out.push(':');
    push_dec2(&mut out, mi);
    out.push(':');
    push_dec2(&mut out, ss);
    out.push('.');
    push_dec3(&mut out, mil);
    out.push('Z');
    proof {
        assert(out@ =~= iso_of(ms as int));
    }
    crate::text::string_from_chars(&out)
}

} // verus!
