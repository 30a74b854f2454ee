use bibbo::calendar::{
    civil_from_days, date_of_unix_secs, date_string, date_string_at, format_date, month_name,
    push_decimal, push_signed_decimal, CivilDate,
};

fn is_leap(y: i64) -> bool {
    y % 4 == 0 && (y % 100 != 0 || y % 400 == 0)
}

fn month_len(y: i64, m: u64) -> u64 {
    match m {
        2 => {
            if is_leap(y) {
                29
            } else {
                28
            }
        }
        4 | 6 | 9 | 11 => 30,
        _ => 31,
    }
}

fn next_day(y: i64, m: u64, d: u64) -> (i64, u64, u64) {
    if d < month_len(y, m) {
        (y, m, d + 1)
    } else if m < 12 {
        (y, m + 1, 1)
    } else {
        (y + 1, 1, 1)
    }
}

fn prev_day(y: i64, m: u64, d: u64) -> (i64, u64, u64) {
    if d > 1 {
        (y, m, d - 1)
    } else if m > 1 {
        (y, m - 1, month_len(y, m - 1))
    } else {
        (y - 1, 12, 31)
    }
}

fn triple(c: &CivilDate) -> (i64, u64, u64) {
    (c.year, c.month, c.day)
}

#[test]
fn epoch_is_first_of_january_1970() {
    assert_eq!(triple(&civil_from_days(0)), (1970, 1, 1));
    assert_eq!(date_string_at(0), "January 1, 1970");
}

#[test]
fn known_timestamps() {
    assert_eq!(date_string_at(1751068800), "June 28, 2025");
    assert_eq!(date_string_at(951782400), "February 29, 2000");
    assert_eq!(date_string_at(1709164800), "February 29, 2024");
    assert_eq!(date_string_at(4107542400), "March 1, 2100");
    assert_eq!(date_string_at(253402300799), "December 31, 9999");
    assert_eq!(date_string_at(1751068800 + 86399), "June 28, 2025");
}

#[test]
fn day_by_day_forward_and_backward() {
    let mut cur = (1970i64, 1u64, 1u64);
    for days in 0..800_000i64 {
        assert_eq!(triple(&civil_from_days(days)), cur, "day {}", days);
        cur = next_day(cur.0, cur.1, cur.2);
    }
    let mut cur = (1970i64, 1u64, 1u64);
    for days in 0..800_000i64 {
        let back = -days;
        assert_eq!(triple(&civil_from_days(back)), cur, "day {}", back);
        cur = prev_day(cur.0, cur.1, cur.2);
    }
}

#[test]
fn year_zero_and_before() {
    // 1 March of year 0 is 719468 days before the epoch.
    assert_eq!(triple(&civil_from_days(-719468)), (0, 3, 1));
    assert_eq!(triple(&civil_from_days(-719469)), (0, 2, 29));
    let d = civil_from_days(-719469 - 366);
    assert_eq!(triple(&d), (-1, 2, 28));
    assert_eq!(format_date(&d), "February 28, -1");
}

#[test]
fn extreme_day_numbers() {
    let far = civil_from_days(i64::MAX / 86400);
    assert!(far.month >= 1 && far.month <= 12 && far.day >= 1 && far.day <= 31);
    let early = civil_from_days(i64::MIN / 86400);
    assert!(early.year < 0);
    assert!(early.month >= 1 && early.month <= 12);
}

#[test]
fn unix_seconds_round_toward_zero() {
    assert_eq!(triple(&date_of_unix_secs(-1)), (1970, 1, 1));
    assert_eq!(triple(&date_of_unix_secs(-86400)), (1969, 12, 31));
    assert_eq!(triple(&date_of_unix_secs(-86401)), (1969, 12, 31));
    assert_eq!(triple(&date_of_unix_secs(86399)), (1970, 1, 1));
    assert_eq!(triple(&date_of_unix_secs(86400)), (1970, 1, 2));
    // A count past i64::MAX reads as negative, as the cast gives it.
    assert_eq!(date_string_at(u64::MAX), "January 1, 1970");
    assert_eq!(date_string_at(u64::MAX - 86400), "December 31, 1969");
}

#[test]
fn month_names() {
    let names = [
        "January", "February", "March", "April", "May", "June", "July", "August", "September",
        "October", "November", "December",
    ];
    for (i, n) in names.iter().enumerate() {
        assert_eq!(month_name(i as u64 + 1), *n);
    }
    assert_eq!(month_name(0), "January");
}

#[test]
fn decimals() {
    for n in [0u64, 7, 10, 99, 100, 12345, u64::MAX] {
        let mut s = String::from("x");
        push_decimal(&mut s, n);
        assert_eq!(s, format!("x{}", n));
    }
    for n in [0i64, -1, 9, -10, 2025, i64::MIN, i64::MAX] {
        let mut s = String::new();
        push_signed_decimal(&mut s, n);
        assert_eq!(s, n.to_string());
    }
}

#[test]
fn format_matches_month_day_year() {
    let d = CivilDate { year: 2026, month: 6, day: 28 };
    assert_eq!(format_date(&d), "June 28, 2026");
}

#[test]
fn today_has_the_shape_of_a_date() {
    let s = date_string();
    let (month, rest) = s.split_once(' ').unwrap();
    let names = [
        "January", "February", "March", "April", "May", "June", "July", "August", "September",
        "October", "November", "December",
    ];
    assert!(names.contains(&month));
    let (day, year) = rest.split_once(", ").unwrap();
    let day: u64 = day.parse().unwrap();
    assert!((1..=31).contains(&day));
    let year: i64 = year.parse().unwrap();
    assert!(year >= 1970);
}

#[test]
fn a_day_later_is_the_next_date() {
    // 31 December 2025 → 1 January 2026; 28 February 2024 → 29 February 2024.
    assert_eq!(date_string_at(1767139200), "December 31, 2025");
    assert_eq!(date_string_at(1767139200 + 86400), "January 1, 2026");
    assert_eq!(date_string_at(1709078400), "February 28, 2024");
    assert_eq!(date_string_at(1709078400 + 86400), "February 29, 2024");
    let mut prev = triple(&date_of_unix_secs(0));
    for k in 1..2000i64 {
        let cur = triple(&date_of_unix_secs(k * 86400 + 12345));
        assert_eq!(cur, next_day(prev.0, prev.1, prev.2));
        prev = cur;
    }
}

#[test]
fn later_times_give_no_earlier_dates() {
    let mut prev = triple(&date_of_unix_secs(0));
    let mut t: i64 = 0;
    while t < 4_000_000_000 {
        let cur = triple(&date_of_unix_secs(t));
        assert!(prev <= cur);
        prev = cur;
        t += 7_777_777;
    }
}
