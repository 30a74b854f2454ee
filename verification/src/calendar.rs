//! Proleptic Gregorian calendar: day numbers, civil dates and their text.
use vstd::prelude::*;
use vstd::arithmetic::div_mod::{lemma_fundamental_div_mod, lemma_fundamental_div_mod_converse, lemma_mod_bound};

verus! {

/// A date of the proleptic Gregorian calendar.
pub struct CivilDate {
    pub year: i64,
    /// 1 = January, ..., 12 = December.
    pub month: u64,
    /// Day of the month, from 1.
    pub day: u64,
}

/// Gregorian leap-year rule.
pub open spec fn is_leap_year(y: int) -> bool {
    y % 4 == 0 && (y % 100 != 0 || y % 400 == 0)
}

pub open spec fn days_in_month(y: int, m: int) -> int {
    if m == 2 {
        if is_leap_year(y) { 29 } else { 28 }
    } else if m == 4 || m == 6 || m == 9 || m == 11 {
        30
    } else {
        31
    }
}

pub open spec fn is_valid_date(y: int, m: int, d: int) -> bool {
    1 <= m <= 12 && 1 <= d <= days_in_month(y, m)
}

/// Days in the months of year `y` that come before month `m`.
pub open spec fn days_before_month(y: int, m: int) -> int
    decreases m,
{
    if m <= 1 {
        0
    } else {
        days_before_month(y, m - 1) + days_in_month(y, m - 1)
    }
}

/// Number of leap years among the years 1..=y (for y < 0, minus the
/// number of leap years among y+1..=0).
pub open spec fn leap_years_through(y: int) -> int {
    y / 4 - y / 100 + y / 400
}

/// Days from 1 January 1970 to 1 January of year `y`.
pub open spec fn days_before_year(y: int) -> int {
    365 * (y - 1970) + leap_years_through(y - 1) - leap_years_through(1969)
}

/// Days from 1 January 1970 to the given date (negative before it).
pub open spec fn day_number(y: int, m: int, d: int) -> int {
    days_before_year(y) + days_before_month(y, m) + d - 1
}

/// The day that holds the Unix time `secs`, counted from 1 January 1970:
/// the quotient by 86400 taken toward zero.
pub open spec fn unix_day(secs: int) -> int {
    if secs >= 0 {
        secs / 86400
    } else {
        -((-secs) / 86400)
    }
}

impl CivilDate {
    pub open spec fn valid(&self) -> bool {
        is_valid_date(self.year as int, self.month as int, self.day as int)
    }

    pub open spec fn days(&self) -> int {
        day_number(self.year as int, self.month as int, self.day as int)
    }
}

/// Stepping `y` down by one lowers `y / k` by one exactly when `k` divides `y`.
proof fn lemma_div_step(y: int, k: int)
    requires
        k > 0,
    ensures
        y / k == (y - 1) / k + (if y % k == 0 { 1int } else { 0int }),
{
    let q = (y - 1) / k;
    let r = (y - 1) % k;
    lemma_fundamental_div_mod(y - 1, k);
    lemma_mod_bound(y - 1, k);
    if r == k - 1 {
        assert(y == (q + 1) * k + 0) by (nonlinear_arith)
            requires
                y - 1 == k * q + r,
                r == k - 1,
        ;
        lemma_fundamental_div_mod_converse(y, k, q + 1, 0);
    } else {
        assert(y == q * k + (r + 1)) by (nonlinear_arith)
            requires
                y - 1 == k * q + r,
        ;
        lemma_fundamental_div_mod_converse(y, k, q, r + 1);
    }
}

/// A year has one more leap year behind it than the year before exactly when it is a leap year.
pub proof fn lemma_leap_years_step(y: int)
    ensures
        leap_years_through(y) == leap_years_through(y - 1) + (if is_leap_year(y) { 1int } else { 0int }),
{
    lemma_div_step(y, 4);
    lemma_div_step(y, 100);
    lemma_div_step(y, 400);
    if y % 400 == 0 {
        lemma_fundamental_div_mod_converse(y, 100, 4 * (y / 400), 0);
        lemma_fundamental_div_mod_converse(y, 4, 100 * (y / 400), 0);
    } else if y % 100 == 0 {
        lemma_fundamental_div_mod_converse(y, 4, 25 * (y / 100), 0);
    } else if y % 4 != 0 {
        assert(y % 100 != 0 && y % 400 != 0) by {
            if y % 100 == 0 {
                lemma_fundamental_div_mod_converse(y, 4, 25 * (y / 100), 0);
            }
            if y % 400 == 0 {
                lemma_fundamental_div_mod_converse(y, 4, 100 * (y / 400), 0);
            }
        }
    } else {
        assert(y % 400 != 0) by {
            if y % 400 == 0 {
                lemma_fundamental_div_mod_converse(y, 100, 4 * (y / 400), 0);
            }
        }
    }
}

/// A year has 366 days when it is a leap year and 365 otherwise.
pub proof fn lemma_year_length(y: int)
    ensures
        days_before_year(y + 1) == days_before_year(y) + (if is_leap_year(y) { 366int } else { 365int }),
{
    lemma_leap_years_step(y);
}

/// The day count starts on 1 January 1970.
pub proof fn lemma_epoch()
    ensures
        day_number(1970, 1, 1) == 0,
{
    assert(leap_years_through(1969) == 477);
}

/// The leap-year rule repeats every 400 years.
proof fn lemma_leap_period(e: int, k: int)
    ensures
        is_leap_year(400 * e + k) == is_leap_year(k),
{
    lemma_fundamental_div_mod_converse(400 * e + k, 4, 100 * e + k / 4, k % 4);
    lemma_fundamental_div_mod_converse(400 * e + k, 100, 4 * e + k / 100, k % 100);
    lemma_fundamental_div_mod_converse(400 * e + k, 400, e + k / 400, k % 400);
}

/// Leap years through year 400e + r, for 0 <= r < 400.
proof fn lemma_leap_years_era(e: int, r: int)
    requires
        0 <= r < 400,
    ensures
        leap_years_through(400 * e + r) == 97 * e + r / 4 - r / 100,
{
    lemma_fundamental_div_mod_converse(400 * e + r, 4, 100 * e + r / 4, r % 4);
    lemma_fundamental_div_mod_converse(400 * e + r, 100, 4 * e + r / 100, r % 100);
    lemma_fundamental_div_mod_converse(400 * e + r, 400, e, r);
}

/// Days before the first of a month, counted from the first of March of
/// the year that holds that March.
spec fn days_from_march(mp: int) -> int {
    (153 * mp + 2) / 5
}

/// Days from the first of March to the first of each month of the
/// March-based year (0 = March, ..., 11 = February).
proof fn lemma_days_from_march_table()
    ensures
        days_from_march(0) == 0,
        days_from_march(1) == 31,
        days_from_march(2) == 61,
        days_from_march(3) == 92,
        days_from_march(4) == 122,
        days_from_march(5) == 153,
        days_from_march(6) == 184,
        days_from_march(7) == 214,
        days_from_march(8) == 245,
        days_from_march(9) == 275,
        days_from_march(10) == 306,
        days_from_march(11) == 337,
{
}

/// A date's day number, rewritten for years that start in March: with
/// `sy` the year whose March precedes the date and `mp` the months since
/// that March, it is 365 sy + (leap years through sy) + days since 1 March, less 719468.
proof fn lemma_day_number_from_march(y: int, m: int, d: int)
    requires
        1 <= m <= 12,
    ensures
        ({
            let sy = if m <= 2 { y - 1 } else { y };
            let mp = if m <= 2 { m + 9 } else { m - 3 };
            day_number(y, m, d) + 719468 == 365 * sy + leap_years_through(sy) + days_from_march(mp) + d - 1
        }),
{
    reveal_with_fuel(days_before_month, 12);
    assert(leap_years_through(1969) == 477);
    if m <= 2 {
        lemma_leap_years_step(y - 1);
        lemma_year_length(y - 1);
    } else {
        lemma_leap_years_step(y);
    }
    lemma_days_from_march_table();
}

/// Within a 400-year era (146097 days, years starting in March), the
/// year formula finds the year that holds day `doe`, and the day of that
/// year is below the year's length.
proof fn lemma_year_of_era(doe: u32)
    requires
        doe < 146097,
    ensures
        ({
            let yoe = (doe - doe / 1460 + doe / 36524 - doe / 146096) / 365;
            let doy = doe - (365 * yoe + yoe / 4 - yoe / 100);
            &&& yoe < 400
            &&& 365 * yoe + yoe / 4 - yoe / 100 <= doe
            &&& doy <= 365
            &&& (doy <= 364 || ((yoe + 1) % 4 == 0 && ((yoe + 1) % 100 != 0 || (yoe + 1) % 400 == 0)))
        }),
{
    assert({
        let yoe = (doe - doe / 1460 + doe / 36524 - doe / 146096) / 365;
        let doy = doe - (365 * yoe + yoe / 4 - yoe / 100);
        &&& yoe < 400
        &&& 365 * yoe + yoe / 4 - yoe / 100 <= doe
        &&& doy <= 365
        &&& (doy <= 364 || ((yoe + 1) % 4 == 0 && ((yoe + 1) % 100 != 0 || (yoe + 1) % 400 == 0)))
    }) by (bit_vector)
        requires
            doe < 146097,
    ;
}

/// The month formula finds, for day `doy` of a March-based year, a month
/// index (0 = March) and a day within that month's length.
proof fn lemma_month_of_year(doy: u32)
    requires
        doy <= 365,
    ensures
        ({
            let mp = (5 * doy + 2) / 153;
            let d = doy - (153 * mp + 2) / 5 + 1;
            &&& mp <= 11
            &&& 1 <= d <= 31
            &&& (mp == 1 || mp == 3 || mp == 6 || mp == 8 ==> d <= 30)
            &&& (mp == 11 ==> d <= doy - 336)
        }),
{
    assert({
        let mp = (5 * doy + 2) / 153;
        let d = doy - (153 * mp + 2) / 5 + 1;
        &&& mp <= 11
        &&& 1 <= d <= 31
        &&& (mp == 1 || mp == 3 || mp == 6 || mp == 8 ==> d <= 30)
        &&& (mp == 11 ==> d <= doy - 336)
    }) by (bit_vector)
        requires
            doy <= 365,
    ;
}

/// The civil date of the day `days` days after 1 January 1970.
pub fn civil_from_days(days: i64) -> (r: CivilDate)
    requires
        days + 719468 <= i64::MAX,
        days + 719468 - 146096 >= i64::MIN,
    ensures
        r.valid(),
        r.days() == days,
{
    let z: i64 = days + 719468;
    let era: i64 = (if z >= 0 { z } else { z - 146096 }) / 146097;
    assert(era == z / 146097);
    proof {
        lemma_fundamental_div_mod_converse(z as int, 146097, era as int, z - era * 146097);
    }
    let doe: u64 = (z - era * 146097) as u64;
    proof {
        lemma_year_of_era(doe as u32);
    }
    let yoe: u64 = (doe - doe / 1460 + doe / 36524 - doe / 146096) / 365;
    let sy: i64 = yoe as i64 + era * 400;
    let doy: u64 = doe - (365 * yoe + yoe / 4 - yoe / 100);
    proof {
        lemma_month_of_year(doy as u32);
    }
    let mp: u64 = (5 * doy + 2) / 153;
    let d: u64 = doy - (153 * mp + 2) / 5 + 1;
    let m: u64 = if mp < 10 { mp + 3 } else { mp - 9 };
    let y: i64 = if m <= 2 { sy + 1 } else { sy };
    proof {
        lemma_day_number_from_march(y as int, m as int, d as int);
        lemma_leap_years_era(era as int, yoe as int);
        lemma_leap_period(era as int, yoe + 1);
        assert(z == 146097 * era + 365 * yoe + yoe / 4 - yoe / 100 + days_from_march(mp as int) + d - 1);
    }
    CivilDate { year: y, month: m, day: d }
}

/// Years that start in March: a year's first of March follows the
/// previous one by the length of the March-to-February year between them.
proof fn lemma_march_years_step(sy: int)
    ensures
        365 * (sy + 1) + leap_years_through(sy + 1) == 365 * sy + leap_years_through(sy) + 365
            + (if is_leap_year(sy + 1) { 1int } else { 0int }),
{
    lemma_leap_years_step(sy + 1);
}

proof fn lemma_march_years_grow(a: int, b: int)
    requires
        a < b,
    ensures
        365 * a + leap_years_through(a) + 365 + (if is_leap_year(a + 1) { 1int } else { 0int })
            <= 365 * b + leap_years_through(b),
    decreases b - a,
{
    lemma_march_years_step(a);
    if a + 1 < b {
        lemma_march_years_grow(a + 1, b);
        lemma_march_years_step(a + 1);
    }
}

/// Days of a valid date since the first of March of its March-based year.
spec fn day_of_march_year(m: int, d: int) -> int {
    let mp = if m <= 2 { m + 9 } else { m - 3 };
    days_from_march(mp) + d - 1
}

proof fn lemma_day_of_march_year(y: int, m: int, d: int)
    requires
        is_valid_date(y, m, d),
    ensures
        0 <= day_of_march_year(m, d),
        day_of_march_year(m, d) < 365 + (if is_leap_year(if m <= 2 { y } else { y + 1 }) { 1int } else { 0int }),
        m > 2 ==> day_of_march_year(m, d) < 306,
        m <= 2 ==> day_of_march_year(m, d) >= 306,
{
    lemma_days_from_march_table();
}

proof fn lemma_month_from_day_of_year(m1: int, d1: int, m2: int, d2: int, y1: int, y2: int)
    requires
        is_valid_date(y1, m1, d1),
        is_valid_date(y2, m2, d2),
        day_of_march_year(m1, d1) == day_of_march_year(m2, d2),
    ensures
        m1 == m2,
        d1 == d2,
{
    lemma_days_from_march_table();
}

/// Distinct valid dates have distinct day numbers, so a date is fixed by its day number.
pub proof fn lemma_day_number_injective(y1: int, m1: int, d1: int, y2: int, m2: int, d2: int)
    requires
        is_valid_date(y1, m1, d1),
        is_valid_date(y2, m2, d2),
        day_number(y1, m1, d1) == day_number(y2, m2, d2),
    ensures
        y1 == y2,
        m1 == m2,
        d1 == d2,
{
    lemma_day_number_from_march(y1, m1, d1);
    lemma_day_number_from_march(y2, m2, d2);
    lemma_day_of_march_year(y1, m1, d1);
    lemma_day_of_march_year(y2, m2, d2);
    let sy1 = if m1 <= 2 { y1 - 1 } else { y1 };
    let sy2 = if m2 <= 2 { y2 - 1 } else { y2 };
    if sy1 < sy2 {
        lemma_march_years_grow(sy1, sy2);
    } else if sy2 < sy1 {
        lemma_march_years_grow(sy2, sy1);
    }
    assert(sy1 == sy2);
    lemma_month_from_day_of_year(m1, d1, m2, d2, y1, y2);
}

/// The civil date that holds the Unix time `secs` (whole days counted toward zero).
pub fn date_of_unix_secs(secs: i64) -> (r: CivilDate)
    ensures
        r.valid(),
        r.days() == unix_day(secs as int),
{
    let days: i64 = secs / 86400;
    civil_from_days(days)
}

/// The English name of month `m` (month 0 is read as January).
pub open spec fn month_text(m: int) -> Seq<char> {
    if m <= 1 {
        "January"@
    } else if m == 2 {
        "February"@
    } else if m == 3 {
        "March"@
    } else if m == 4 {
        "April"@
    } else if m == 5 {
        "May"@
    } else if m == 6 {
        "June"@
    } else if m == 7 {
        "July"@
    } else if m == 8 {
        "August"@
    } else if m == 9 {
        "September"@
    } else if m == 10 {
        "October"@
    } else if m == 11 {
        "November"@
    } else {
        "December"@
    }
}

/// The character of decimal digit `d`.
pub open spec fn digit_char(d: int) -> char {
    if d == 0 {
        '0'
    } else if d == 1 {
        '1'
    } else if d == 2 {
        '2'
    } else if d == 3 {
        '3'
    } else if d == 4 {
        '4'
    } else if d == 5 {
        '5'
    } else if d == 6 {
        '6'
    } else if d == 7 {
        '7'
    } else if d == 8 {
        '8'
    } else {
        '9'
    }
}

/// Decimal numeral of `n`, without leading zeros.
pub open spec fn decimal(n: nat) -> Seq<char>
    decreases n,
{
    if n < 10 {
        seq![digit_char(n as int)]
    } else {
        decimal(n / 10).push(digit_char((n % 10) as int))
    }
}

/// Decimal numeral of `n`, with a leading '-' when it is negative.
pub open spec fn signed_decimal(n: int) -> Seq<char> {
    if n < 0 {
        seq!['-'] + decimal((-n) as nat)
    } else {
        decimal(n as nat)
    }
}

/// "Month day, year", as in "June 28, 2026".
pub open spec fn date_text(y: int, m: int, d: int) -> Seq<char> {
    month_text(m) + seq![' '] + decimal(d as nat) + seq![',', ' '] + signed_decimal(y)
}

/// The valid date with day number `k`.
pub open spec fn date_of_day(k: int) -> (int, int, int) {
    choose|ymd: (int, int, int)| is_valid_date(ymd.0, ymd.1, ymd.2) && day_number(ymd.0, ymd.1, ymd.2) == k
}

/// The text of the date that holds Unix time `secs`, read as a signed
/// 64-bit count the way a cast of the unsigned count gives it.
pub open spec fn unix_date_text(secs: u64) -> Seq<char> {
    let ymd = date_of_day(unix_day((secs as i64) as int));
    date_text(ymd.0, ymd.1, ymd.2)
}

/// English name of month `m`.
pub fn month_name(m: u64) -> (r: &'static str)
    requires
        m <= 12,
    ensures
        r@ == month_text(m as int),
{
    if m <= 1 {
        proof { reveal_strlit("January"); }
        "January"
    } else if m == 2 {
        proof { reveal_strlit("February"); }
        "February"
    } else if m == 3 {
        proof { reveal_strlit("March"); }
        "March"
    } else if m == 4 {
        proof { reveal_strlit("April"); }
        "April"
    } else if m == 5 {
        proof { reveal_strlit("May"); }
        "May"
    } else if m == 6 {
        proof { reveal_strlit("June"); }
        "June"
    } else if m == 7 {
        proof { reveal_strlit("July"); }
        "July"
    } else if m == 8 {
        proof { reveal_strlit("August"); }
        "August"
    } else if m == 9 {
        proof { reveal_strlit("September"); }
        "September"
    } else if m == 10 {
        proof { reveal_strlit("October"); }
        "October"
    } else if m == 11 {
        proof { reveal_strlit("November"); }
        "November"
    } else {
        proof { reveal_strlit("December"); }
        "December"
    }
}

fn digit_str(d: u64) -> (r: &'static str)
    requires
        d < 10,
    ensures
        r@ == seq![digit_char(d as int)],
{
    if d == 0 {
        proof { reveal_strlit("0"); }
        "0"
    } else if d == 1 {
        proof { reveal_strlit("1"); }
        "1"
    } else if d == 2 {
        proof { reveal_strlit("2"); }
        "2"
    } else if d == 3 {
        proof { reveal_strlit("3"); }
        "3"
    } else if d == 4 {
        proof { reveal_strlit("4"); }
        "4"
    } else if d == 5 {
        proof { reveal_strlit("5"); }
        "5"
    } else if d == 6 {
        proof { reveal_strlit("6"); }
        "6"
    } else if d == 7 {
        proof { reveal_strlit("7"); }
        "7"
    } else if d == 8 {
        proof { reveal_strlit("8"); }
        "8"
    } else {
        proof { reveal_strlit("9"); }
        "9"
    }
}

/// Appends the decimal numeral of `n`.
pub fn push_decimal(s: &mut String, n: u64)
    ensures
        final(s)@ == old(s)@ + decimal(n as nat),
    decreases n,
{
    if n >= 10 {
        push_decimal(s, n / 10);
    }
    s.append(digit_str(n % 10));
}

/// Appends the decimal numeral of `n`, with '-' before a negative number.
pub fn push_signed_decimal(s: &mut String, n: i64)
    ensures
        final(s)@ == old(s)@ + signed_decimal(n as int),
{
    if n < 0 {
        proof { reveal_strlit("-"); }
        s.append("-");
        let magnitude: u64 = (-(n + 1)) as u64 + 1;
        push_decimal(s, magnitude);
    } else {
        push_decimal(s, n as u64);
    }
}

/// Renders a date as "Month day, year".
pub fn format_date(date: &CivilDate) -> (r: String)
    requires
        date.month <= 12,
    ensures
        r@ == date_text(date.year as int, date.month as int, date.day as int),
{
    let mut s = String::new();
    s.append(month_name(date.month));
    proof { reveal_strlit(" "); reveal_strlit(", "); }
    s.append(" ");
    push_decimal(&mut s, date.day);
    s.append(", ");
    push_signed_decimal(&mut s, date.year);
    s
}

/// The text of the date that holds Unix time `secs`.
pub fn date_string_at(secs: u64) -> (r: String)
    ensures
        r@ == unix_date_text(secs),
{
    let signed: i64 = secs as i64;
    let date = date_of_unix_secs(signed);
    proof {
        let k = unix_day(signed as int);
        let w = (date.year as int, date.month as int, date.day as int);
        assert(is_valid_date(w.0, w.1, w.2) && day_number(w.0, w.1, w.2) == k);
        let c = date_of_day(k);
        lemma_day_number_injective(c.0, c.1, c.2, w.0, w.1, w.2);
    }
    format_date(&date)
}

/// `SystemTime::elapsed` on `UNIX_EPOCH`: whole seconds since the Unix epoch
/// on the system clock, 0 when the clock is set before it. Nothing is stated
/// of the result: it depends on the clock.
#[verifier::external_body]
fn unix_time_now() -> u64 {
    match std::time::UNIX_EPOCH.elapsed() {
        Ok(d) => d.as_secs(),
        Err(_) => 0,
    }
}

/// Today's date as "Month day, year", from the system clock.
pub fn date_string() -> (r: String)
    ensures
        exists|secs: u64| r@ == unix_date_text(secs),
{
    let secs = unix_time_now();
    date_string_at(secs)
}

/// The date that follows (y, m, d).
pub open spec fn next_date(y: int, m: int, d: int) -> (int, int, int) {
    if d < days_in_month(y, m) {
        (y, m, d + 1)
    } else if m < 12 {
        (y, m + 1, 1)
    } else {
        (y + 1, 1, 1)
    }
}

/// Calendar order: `a` is `b` or comes before it.
pub open spec fn date_le(a: (int, int, int), b: (int, int, int)) -> bool {
    a.0 < b.0 || (a.0 == b.0 && (a.1 < b.1 || (a.1 == b.1 && a.2 <= b.2)))
}

proof fn lemma_years_grow(a: int, b: int)
    requires
        a < b,
    ensures
        days_before_year(a) + 365 + (if is_leap_year(a) { 1int } else { 0int }) <= days_before_year(b),
    decreases b - a,
{
    lemma_year_length(a);
    if a + 1 < b {
        lemma_years_grow(a + 1, b);
        lemma_year_length(a + 1);
    }
}

/// Days before each month of year `y`, with `l` = 1 in a leap year.
proof fn lemma_months_table(y: int)
    ensures
        ({
            let l = if is_leap_year(y) { 1int } else { 0int };
            &&& days_before_month(y, 1) == 0
            &&& days_before_month(y, 2) == 31
            &&& days_before_month(y, 3) == 59 + l
            &&& days_before_month(y, 4) == 90 + l
            &&& days_before_month(y, 5) == 120 + l
            &&& days_before_month(y, 6) == 151 + l
            &&& days_before_month(y, 7) == 181 + l
            &&& days_before_month(y, 8) == 212 + l
            &&& days_before_month(y, 9) == 243 + l
            &&& days_before_month(y, 10) == 273 + l
            &&& days_before_month(y, 11) == 304 + l
            &&& days_before_month(y, 12) == 334 + l
        }),
{
    reveal_with_fuel(days_before_month, 13);
}

/// Within a year, a day of an earlier month comes before every day of a later one,
/// and every day comes before the year's end.
proof fn lemma_month_ends(y: int, m1: int, m2: int)
    requires
        1 <= m1 <= 12,
    ensures
        days_before_month(y, m1) + days_in_month(y, m1) <= 365 + (if is_leap_year(y) { 1int } else { 0int }),
        m1 < m2 <= 12 ==> days_before_month(y, m1) + days_in_month(y, m1) <= days_before_month(y, m2),
{
    lemma_months_table(y);
}

/// A date earlier in calendar order has a smaller day number.
proof fn lemma_day_number_strict(y1: int, m1: int, d1: int, y2: int, m2: int, d2: int)
    requires
        is_valid_date(y1, m1, d1),
        is_valid_date(y2, m2, d2),
        !date_le((y2, m2, d2), (y1, m1, d1)),
    ensures
        day_number(y1, m1, d1) < day_number(y2, m2, d2),
{
    lemma_month_ends(y1, m1, m2);
    if y1 < y2 {
        lemma_years_grow(y1, y2);
        assert(days_before_month(y2, m2) >= 0) by {
            lemma_months_table(y2);
        }
    }
}

/// Later day numbers never name earlier dates.
pub proof fn lemma_day_number_monotone(y1: int, m1: int, d1: int, y2: int, m2: int, d2: int)
    requires
        is_valid_date(y1, m1, d1),
        is_valid_date(y2, m2, d2),
        day_number(y1, m1, d1) <= day_number(y2, m2, d2),
    ensures
        date_le((y1, m1, d1), (y2, m2, d2)),
{
    if !date_le((y1, m1, d1), (y2, m2, d2)) {
        lemma_day_number_strict(y2, m2, d2, y1, m1, d1);
    }
}

/// The next date is valid and its day number is one more.
pub proof fn lemma_next_date(y: int, m: int, d: int)
    requires
        is_valid_date(y, m, d),
    ensures
        is_valid_date(next_date(y, m, d).0, next_date(y, m, d).1, next_date(y, m, d).2),
        day_number(next_date(y, m, d).0, next_date(y, m, d).1, next_date(y, m, d).2) == day_number(y, m, d) + 1,
{
    reveal_with_fuel(days_before_month, 13);
    if d >= days_in_month(y, m) && m >= 12 {
        lemma_year_length(y);
    }
}

/// Every day number names a valid date, so `date_of_day` is that date.
pub proof fn lemma_date_of_day(k: int)
    ensures
        is_valid_date(date_of_day(k).0, date_of_day(k).1, date_of_day(k).2),
        day_number(date_of_day(k).0, date_of_day(k).1, date_of_day(k).2) == k,
{
    let z = k + 719468;
    let era = z / 146097;
    lemma_fundamental_div_mod(z, 146097);
    lemma_mod_bound(z, 146097);
    let doe = z - era * 146097;
    lemma_year_of_era(doe as u32);
    let yoe = (doe - doe / 1460 + doe / 36524 - doe / 146096) / 365;
    let doy = doe - (365 * yoe + yoe / 4 - yoe / 100);
    lemma_month_of_year(doy as u32);
    let mp = (5 * doy + 2) / 153;
    let d = doy - (153 * mp + 2) / 5 + 1;
    let m = if mp < 10 { mp + 3 } else { mp - 9 };
    let sy = yoe + era * 400;
    let y = if m <= 2 { sy + 1 } else { sy };
    lemma_day_number_from_march(y, m, d);
    lemma_leap_years_era(era, yoe);
    lemma_leap_period(era, yoe + 1);
    assert(z == 146097 * era + 365 * yoe + yoe / 4 - yoe / 100 + days_from_march(mp) + d - 1);
    assert(is_valid_date(y, m, d) && day_number(y, m, d) == k);
    let w = (y, m, d);
    assert(is_valid_date(w.0, w.1, w.2) && day_number(w.0, w.1, w.2) == k);
}

proof fn lemma_unix_day_nonnegative(s: u64)
    requires
        s <= i64::MAX,
    ensures
        unix_day((s as i64) as int) == (s as int) / 86400,
{
    assert((s as i64) as int == s as int) by (bit_vector)
        requires
            s <= 0x7fff_ffff_ffff_ffff,
    ;
}

/// A later clock reading never gives an earlier date.
pub proof fn lemma_later_time_no_earlier_date(s1: u64, s2: u64)
    requires
        s1 <= s2 <= i64::MAX,
    ensures
        ({
            let a = date_of_day(unix_day((s1 as i64) as int));
            let b = date_of_day(unix_day((s2 as i64) as int));
            date_le(a, b)
        }),
{
    lemma_unix_day_nonnegative(s1);
    lemma_unix_day_nonnegative(s2);
    vstd::arithmetic::div_mod::lemma_div_is_ordered(s1 as int, s2 as int, 86400);
    let k1 = (s1 as int) / 86400;
    let k2 = (s2 as int) / 86400;
    lemma_date_of_day(k1);
    lemma_date_of_day(k2);
    let a = date_of_day(k1);
    let b = date_of_day(k2);
    lemma_day_number_monotone(a.0, a.1, a.2, b.0, b.1, b.2);
}

/// 86400 seconds later the date is the next day, and its text is that day's.
pub proof fn lemma_next_day_after_86400(s: u64)
    requires
        s + 86400 <= i64::MAX,
    ensures
        ({
            let a = date_of_day(unix_day((s as i64) as int));
            let n = next_date(a.0, a.1, a.2);
            &&& date_of_day(unix_day(((s + 86400) as u64 as i64) as int)) == n
            &&& unix_date_text((s + 86400) as u64) == date_text(n.0, n.1, n.2)
        }),
{
    let t = (s + 86400) as u64;
    lemma_unix_day_nonnegative(s);
    lemma_unix_day_nonnegative(t);
    let k = (s as int) / 86400;
    lemma_fundamental_div_mod(s as int, 86400);
    lemma_mod_bound(s as int, 86400);
    lemma_fundamental_div_mod_converse(t as int, 86400, k + 1, (s as int) % 86400);
    lemma_date_of_day(k);
    lemma_date_of_day(k + 1);
    let a = date_of_day(k);
    lemma_next_date(a.0, a.1, a.2);
    let n = next_date(a.0, a.1, a.2);
    let c = date_of_day(k + 1);
    lemma_day_number_injective(c.0, c.1, c.2, n.0, n.1, n.2);
}

/// The text for a Unix time (up to i64::MAX seconds) is the text of the
/// valid date whose day number is the number of whole days since the epoch.
pub proof fn lemma_unix_date_text(s: u64)
    requires
        s <= i64::MAX,
    ensures
        exists|y: int, m: int, d: int|
            is_valid_date(y, m, d) && #[trigger] day_number(y, m, d) == (s as int) / 86400 && unix_date_text(s)
                == date_text(y, m, d),
{
    lemma_unix_day_nonnegative(s);
    let k = (s as int) / 86400;
    lemma_date_of_day(k);
    let c = date_of_day(k);
    assert(is_valid_date(c.0, c.1, c.2) && day_number(c.0, c.1, c.2) == k && unix_date_text(s) == date_text(c.0, c.1, c.2));
}

/// The number that a string of decimal digits spells.
pub open spec fn digits_value(s: Seq<char>) -> int
    decreases s.len(),
{
    if s.len() == 0 {
        0
    } else {
        digits_value(s.drop_last()) * 10 + ((s.last() as int) - ('0' as int))
    }
}

proof fn lemma_digit_char(d: int)
    requires
        0 <= d < 10,
    ensures
        (digit_char(d) as int) - ('0' as int) == d,
{
}

/// A decimal numeral is made of the digits '0'..'9', spells the number it
/// was made from, and starts with '0' only when that number is 0.
pub proof fn lemma_decimal(n: nat)
    ensures
        decimal(n).len() > 0,
        forall|i: int| 0 <= i < decimal(n).len() ==> '0' <= #[trigger] decimal(n)[i] <= '9',
        digits_value(decimal(n)) == n,
        decimal(n)[0] == '0' ==> n == 0,
    decreases n,
{
    if n < 10 {
        lemma_digit_char(n as int);
        assert(decimal(n).drop_last() == Seq::<char>::empty());
        assert(digits_value(decimal(n)) == digits_value(Seq::<char>::empty()) * 10 + ((digit_char(
            n as int,
        ) as int) - ('0' as int)));
    } else {
        lemma_decimal(n / 10);
        lemma_digit_char((n % 10) as int);
        lemma_fundamental_div_mod(n as int, 10);
        let p = decimal(n / 10);
        let s = decimal(n);
        assert(s.drop_last() == p);
        assert(s.last() == digit_char((n % 10) as int));
        assert(digits_value(s) == digits_value(p) * 10 + (n % 10));
        assert((n / 10) * 10 + n % 10 == n) by (nonlinear_arith)
            requires
                n == 10 * (n / 10) + n % 10,
        ;
        assert forall|i: int| 0 <= i < s.len() implies '0' <= #[trigger] s[i] <= '9' by {
            if i < p.len() {
                assert(s[i] == p[i]);
            }
        }
        assert(s[0] == p[0]);
    }
}

} // verus!
