use vstd::prelude::*;
use vstd::arithmetic::div_mod::{lemma_fundamental_div_mod, lemma_fundamental_div_mod_converse, lemma_mod_pos_bound};
use crate::text::{padded, push_char, push_padded};

verus! {

/// Floor division and remainder by a positive divisor.
pub fn floor_div_mod(z: i64, c: i64) -> (qr: (i64, i64))
    requires c > 0,
    ensures qr.0 == z / c, qr.1 == z % c,
{
    if z >= 0 {
        let zu = z as u64;
        let cu = c as u64;
        let q = (zu / cu) as i64;
        let r = (zu % cu) as i64;
        proof {
            lemma_fundamental_div_mod(zu as int, cu as int);
            lemma_mod_pos_bound(zu as int, cu as int);
            assert(z == q * c + r) by (nonlinear_arith) requires zu as int == cu * (zu / cu) + (zu % cu), q == zu / cu, r == zu % cu, z == zu, c == cu;
            lemma_fundamental_div_mod_converse(z as int, c as int, q as int, r as int);
        }
        (q, r)
    } else {
        let nz = (-(z + 1)) as u64;
        let cu = c as u64;
        let qq = nz / cu;
        let rr = nz % cu;
        proof {
            lemma_fundamental_div_mod(nz as int, cu as int);
            lemma_mod_pos_bound(nz as int, cu as int);
            assert(qq <= nz) by (nonlinear_arith) requires nz as int == cu * qq + rr, cu >= 1, rr >= 0, qq >= 0;
        }
        let q = -(qq as i64) - 1;
        let r = c - 1 - rr as i64;
        proof {
            assert(z == q * c + r) by (nonlinear_arith) requires nz as int == cu * qq + rr, z == -nz - 1, q == -qq - 1, r == c - 1 - rr, c == cu;
            lemma_fundamental_div_mod_converse(z as int, c as int, q as int, r as int);
        }
        (q, r)
    }
}

}

verus! {

pub open spec fn is_leap(y: int) -> bool {
    y % 4 == 0 && (y % 100 != 0 || y % 400 == 0)
}

pub open spec fn leaps_before(y: int) -> int {
    (y + 3) / 4 - (y + 99) / 100 + (y + 399) / 400
}

proof fn lemma_step_div(x: int, c: int)
    requires c > 0,
    ensures (x + 1) / c == x / c + (if (x + 1) % c == 0 { 1int } else { 0int }),
{
    lemma_fundamental_div_mod(x, c);
    vstd::arithmetic::div_mod::lemma_mod_bound(x, c);
    let q = x / c;
    let r = x % c;
    assert(x == q * c + r) by (nonlinear_arith) requires x == c * (x / c) + (x % c), q == x / c, r == x % c;
    assert((q + 1) * c == q * c + c) by (nonlinear_arith);
    if r + 1 == c {
        lemma_fundamental_div_mod_converse(x + 1, c, q + 1, 0);
    } else {
        lemma_fundamental_div_mod_converse(x + 1, c, q, r + 1);
    }
}

proof fn lemma_leaps_step(y: int)
    ensures leaps_before(y + 1) == leaps_before(y) + (if is_leap(y) { 1int } else { 0int }),
{
    lemma_step_div(y + 3, 4);
    lemma_step_div(y + 99, 100);
    lemma_step_div(y + 399, 400);
    vstd::arithmetic::div_mod::lemma_mod_add_multiples_vanish(y, 4);
    vstd::arithmetic::div_mod::lemma_mod_add_multiples_vanish(y, 100);
    vstd::arithmetic::div_mod::lemma_mod_add_multiples_vanish(y, 400);
    let a = (y + 4) % 4 == 0;
    let b = (y + 100) % 100 == 0;
    let c = (y + 400) % 400 == 0;
    assert(a == (y % 4 == 0));
    assert(b == (y % 100 == 0));
    assert(c == (y % 400 == 0));
    assert(c ==> b) by {
        if c {
            vstd::arithmetic::div_mod::lemma_fundamental_div_mod(y, 400);
            lemma_fundamental_div_mod_converse(y, 100, 4 * (y / 400), 0);
        }
    }
    assert(b ==> a) by {
        if b {
            vstd::arithmetic::div_mod::lemma_fundamental_div_mod(y, 100);
            lemma_fundamental_div_mod_converse(y, 4, 25 * (y / 100), 0);
        }
    }
}

pub open spec fn year_len(y: int) -> int {
    if is_leap(y) { 366 } else { 365 }
}

/// Day number (days since 1970-01-01) of January 1st of year `y`.
pub open spec fn year_start(y: int) -> int {
    365 * y + leaps_before(y) - 719528
}

pub open spec fn month_len(y: int, m: int) -> int {
    if m == 2 {
        if is_leap(y) { 29 } else { 28 }
    } else if m == 4 || m == 6 || m == 9 || m == 11 {
        30
    } else {
        31
    }
}

/// Days of year `y` that precede the first day of month `m` (1 ..= 12).
pub open spec fn days_before_month(y: int, m: int) -> int {
    let base: int = if m <= 1 { 0 } else if m == 2 { 31 } else if m == 3 { 59 } else if m == 4 { 90 }
        else if m == 5 { 120 } else if m == 6 { 151 } else if m == 7 { 181 } else if m == 8 { 212 }
        else if m == 9 { 243 } else if m == 10 { 273 } else if m == 11 { 304 } else { 334 };
    base + (if m > 2 && is_leap(y) { 1int } else { 0int })
}

/// A date of the proleptic Gregorian calendar.
pub open spec fn valid_date(y: int, m: int, d: int) -> bool {
    1 <= m <= 12 && 1 <= d <= month_len(y, m)
}

/// Day number (days since 1970-01-01, negative before) of the date `y-m-d`.
pub open spec fn days_from_civil(y: int, m: int, d: int) -> int {
    year_start(y) + days_before_month(y, m) + d - 1
}

proof fn lemma_year_start_step(y: int)
    ensures year_start(y + 1) == year_start(y) + year_len(y),
{
    lemma_leaps_step(y);
}

proof fn lemma_month_step(y: int, m: int)
    requires 1 <= m <= 12,
    ensures
        m < 12 ==> days_before_month(y, m + 1) == days_before_month(y, m) + month_len(y, m),
        m == 12 ==> days_before_month(y, m) + month_len(y, m) == year_len(y),
{
}

proof fn lemma_era_start(e: int)
    ensures year_start(400 * e) == 146097 * e - 719528,
{
    lemma_fundamental_div_mod_converse(400 * e + 3, 4, 100 * e, 3);
    lemma_fundamental_div_mod_converse(400 * e + 99, 100, 4 * e, 99);
    lemma_fundamental_div_mod_converse(400 * e + 399, 400, e, 399);
}

/// `year_start` grows strictly with the year.
proof fn lemma_year_start_increasing(a: int, b: int)
    requires a < b,
    ensures year_start(a) + year_len(a) <= year_start(b),
    decreases b - a,
{
    lemma_year_start_step(a);
    if a + 1 < b {
        lemma_year_start_increasing(a + 1, b);
        lemma_year_start_step(a + 1);
    }
}

proof fn lemma_month_increasing(y: int, a: int, b: int)
    requires 1 <= a < b <= 12,
    ensures days_before_month(y, a) + month_len(y, a) <= days_before_month(y, b),
{
}

/// Every valid date falls inside its own year, after its own month's start.
proof fn lemma_date_bounds(y: int, m: int, d: int)
    requires valid_date(y, m, d),
    ensures
        year_start(y) <= days_from_civil(y, m, d) < year_start(y) + year_len(y),
        days_before_month(y, m) <= days_from_civil(y, m, d) - year_start(y) < days_before_month(y, m) + month_len(y, m),
{
    if m < 12 {
        lemma_month_increasing(y, m, 12);
    }
    lemma_month_step(y, 12);
}

/// Two valid dates with the same day number are the same date.
pub proof fn lemma_days_from_civil_injective(y1: int, m1: int, d1: int, y2: int, m2: int, d2: int)
    requires
        valid_date(y1, m1, d1),
        valid_date(y2, m2, d2),
        days_from_civil(y1, m1, d1) == days_from_civil(y2, m2, d2),
    ensures
        y1 == y2 && m1 == m2 && d1 == d2,
{
    lemma_date_bounds(y1, m1, d1);
    lemma_date_bounds(y2, m2, d2);
    if y1 < y2 {
        lemma_year_start_increasing(y1, y2);
    } else if y2 < y1 {
        lemma_year_start_increasing(y2, y1);
    }
    if m1 < m2 {
        lemma_month_increasing(y1, m1, m2);
    } else if m2 < m1 {
        lemma_month_increasing(y1, m2, m1);
    }
}


/// The calendar date of day number `days`: the one valid date whose day number it is.
pub open spec fn civil_of(days: int) -> (int, int, int) {
    choose|t: (int, int, int)| valid_date(t.0, t.1, t.2) && days_from_civil(t.0, t.1, t.2) == days
}

/// A valid date is the calendar date of its own day number.
pub proof fn lemma_civil_of_days(y: int, m: int, d: int)
    requires valid_date(y, m, d),
    ensures civil_of(days_from_civil(y, m, d)) == (y, m, d),
{
    let days = days_from_civil(y, m, d);
    assert(valid_date((y, m, d).0, (y, m, d).1, (y, m, d).2) && days_from_civil((y, m, d).0, (y, m, d).1, (y, m, d).2) == days);
    let t = civil_of(days);
    lemma_days_from_civil_injective(t.0, t.1, t.2, y, m, d);
}


fn leap_year(y: i64) -> (r: bool)
    ensures r == is_leap(y as int),
{
    y % 4 == 0 && (y % 100 != 0 || y % 400 == 0)
}

fn days_in_year(y: i64) -> (r: i64)
    ensures r == year_len(y as int),
{
    if leap_year(y) { 366 } else { 365 }
}

fn days_in_month(y: i64, m: i64) -> (r: i64)
    ensures r == month_len(y as int, m as int),
{
    if m == 2 {
        if leap_year(y) { 29 } else { 28 }
    } else if m == 4 || m == 6 || m == 9 || m == 11 {
        30
    } else {
        31
    }
}

/// Converts a day number (days since 1970-01-01) into its calendar date
/// `(year, month, day)`.
pub fn civil_from_days(days: i64) -> (r: (i64, i64, i64))
    requires -0x4_0000_0000_0000 <= days <= 0x4_0000_0000_0000,
    ensures
        valid_date(r.0 as int, r.1 as int, r.2 as int),
        days_from_civil(r.0 as int, r.1 as int, r.2 as int) == days,
        (r.0 as int, r.1 as int, r.2 as int) == civil_of(days as int),
        -0x400_0000_0000 <= r.0 <= 0x400_0000_0000,
{
    let (era, offset) = floor_div_mod(days + 719528, 146097);
    proof {
        lemma_era_start(era as int);
        vstd::arithmetic::div_mod::lemma_fundamental_div_mod(days + 719528, 146097);
        vstd::arithmetic::div_mod::lemma_mod_bound(days + 719528, 146097);
    }
    let base: i64 = 400 * era;
    let mut y: i64 = base;
    let mut rem: i64 = offset;
    while rem >= days_in_year(y)
        invariant
            base == 400 * era,
            -0x4_0000_0000_0000 <= days <= 0x4_0000_0000_0000,
            -0x4_0000_0000 <= era <= 0x4_0000_0000,
            0 <= offset < 146097,
            0 <= rem <= offset,
            365 * (y - base) <= offset - rem,
            days == year_start(y as int) + rem,
        decreases rem,
    {
        proof { lemma_year_start_step(y as int); }
        rem = rem - days_in_year(y);
        y = y + 1;
    }
    let mut m: i64 = 1;
    while rem >= days_in_month(y, m)
        invariant
            1 <= m <= 12,
            0 <= rem,
            rem + days_before_month(y as int, m as int) < year_len(y as int),
            days == year_start(y as int) + days_before_month(y as int, m as int) + rem,
        decreases 12 - m,
    {
        proof { lemma_month_step(y as int, m as int); }
        rem = rem - days_in_month(y, m);
        m = m + 1;
    }
    proof {
        lemma_month_step(y as int, m as int);
        lemma_civil_of_days(y as int, m as int, rem + 1);
    }
    (y, m, rem + 1)
}


/// `YYYY-MM-DDTHH:MM:SSZ` text of the UTC instant `secs` seconds after the
/// Unix epoch (negative before it).
pub open spec fn timestamp_text(secs: int) -> Seq<char> {
    let days = secs / 86400;
    let rem = secs % 86400;
    let hour = rem / 3600;
    let minute = (rem % 3600) / 60;
    let second = (rem % 3600) % 60;
    let date = civil_of(days);
    padded(date.0, 4) + seq!['-'] + padded(date.1, 2) + seq!['-'] + padded(date.2, 2) + seq!['T']
        + padded(hour, 2) + seq![':'] + padded(minute, 2) + seq![':'] + padded(second, 2) + seq!['Z']
}

/// Formats `secs` seconds after the Unix epoch as an ISO-8601 UTC timestamp
/// `YYYY-MM-DDTHH:MM:SSZ` (proleptic Gregorian calendar).
pub fn format_unix(secs: i64) -> (text: String)
    ensures text@ == timestamp_text(secs as int),
{
    let (days, rem) = floor_div_mod(secs, 86400);
    proof {
        vstd::arithmetic::div_mod::lemma_fundamental_div_mod(secs as int, 86400);
        vstd::arithmetic::div_mod::lemma_mod_bound(secs as int, 86400);
    }
    let hour = rem / 3600;
    let minute = (rem % 3600) / 60;
    let second = (rem % 3600) % 60;
    let (year, month, day) = civil_from_days(days);
    proof {
        lemma_date_bounds(year as int, month as int, day as int);
    }
    let mut text = String::new();
    push_padded(&mut text, year, 4);
    push_char(&mut text, '-');
    push_padded(&mut text, month, 2);
    push_char(&mut text, '-');
    push_padded(&mut text, day, 2);
    push_char(&mut text, 'T');
    push_padded(&mut text, hour, 2);
    push_char(&mut text, ':');
    push_padded(&mut text, minute, 2);
    push_char(&mut text, ':');
    push_padded(&mut text, second, 2);
    push_char(&mut text, 'Z');
    assert(text@ =~= timestamp_text(secs as int));
    text
}


/// Declares `std::time::SystemTime` so that verified code can carry a clock reading.
#[verifier::external_type_specification]
#[verifier::external_body]
pub struct ExSystemTime(std::time::SystemTime);

/// `SystemTime::now`: the current reading of the system clock. Nothing is
/// stated of it: it is the time at which the call is made.
#[verifier::external_body]
fn system_now() -> std::time::SystemTime {
    std::time::SystemTime::now()
}

/// `SystemTime::duration_since(UNIX_EPOCH)`: the time elapsed since the Unix
/// epoch, or `None` when `t` is before the epoch. Nothing is stated of the
/// value, which depends on the clock reading `t`.
#[verifier::external_body]
fn since_epoch(t: &std::time::SystemTime) -> Option<core::time::Duration> {
    match t.duration_since(std::time::UNIX_EPOCH) {
        Ok(elapsed) => Some(elapsed),
        Err(_) => None,
    }
}

/// `Duration::as_secs`: the whole seconds of `d`. Nothing is stated of the
/// value, since the duration's contents are not visible here.
#[verifier::external_body]
fn whole_seconds(d: &core::time::Duration) -> u64 {
    d.as_secs()
}

/// The seconds after the epoch that a clock reading stands for: the whole
/// seconds as a signed 64-bit count, or 0 for a clock before the epoch.
pub open spec fn reading_seconds(reading: Option<u64>) -> int {
    match reading {
        Some(s) => (s as i64) as int,
        None => 0,
    }
}

/// The timestamp text of a clock reading: `reading` whole seconds after the
/// epoch (taken as a signed 64-bit count), or the epoch itself when the clock
/// reads before it (`None`).
pub fn iso_of_clock(reading: Option<u64>) -> (text: String)
    ensures
        text@ == timestamp_text(reading_seconds(reading)),
{
    let secs: i64 = match reading {
        Some(s) => s as i64,
        None => 0,
    };
    format_unix(secs)
}

/// The current UTC time as `YYYY-MM-DDTHH:MM:SSZ`; a clock before the epoch
/// reads as the epoch itself.
pub fn now_iso() -> (text: String)
    ensures
        exists|reading: Option<u64>| text@ == timestamp_text(#[trigger] reading_seconds(reading)),
{
    let now = system_now();
    let reading = match since_epoch(&now) {
        Some(d) => Some(whole_seconds(&d)),
        None => None,
    };
    iso_of_clock(reading)
}

}
