use chrono::Datelike;
use nopickie::date::{
    current_date, date_minus, date_plus, date_string, days_from_monday, days_in_month_of,
    next_day, prev_day, Date,
};

fn d(year: u32, month: u32, day: u32) -> Date {
    Date { year, month, day }
}

#[test]
fn renders_fixed_width() {
    assert_eq!(date_string(d(2026, 2, 3)), "2026-02-03");
    assert_eq!(date_string(d(7, 1, 9)), "0007-01-09");
    assert_eq!(date_string(d(9999, 12, 31)), "9999-12-31");
    assert_eq!(date_string(d(1970, 1, 1)), "1970-01-01");
}

#[test]
fn month_lengths_and_leap_years() {
    assert_eq!(days_in_month_of(2024, 2), 29);
    assert_eq!(days_in_month_of(2023, 2), 28);
    assert_eq!(days_in_month_of(1900, 2), 28);
    assert_eq!(days_in_month_of(2000, 2), 29);
    assert_eq!(days_in_month_of(2026, 1), 31);
    assert_eq!(days_in_month_of(2026, 4), 30);
}

#[test]
fn steps_across_boundaries() {
    assert_eq!(next_day(d(2026, 1, 31)), d(2026, 2, 1));
    assert_eq!(next_day(d(2025, 12, 31)), d(2026, 1, 1));
    assert_eq!(next_day(d(2024, 2, 28)), d(2024, 2, 29));
    assert_eq!(prev_day(d(2026, 3, 1)), d(2026, 2, 28));
    assert_eq!(prev_day(d(2024, 3, 1)), d(2024, 2, 29));
    assert_eq!(prev_day(d(2026, 1, 1)), d(2025, 12, 31));
}

#[test]
fn walks_forward_and_back() {
    assert_eq!(date_plus(d(2026, 2, 2), 6), d(2026, 2, 8));
    assert_eq!(date_minus(d(2026, 2, 2), 77), d(2025, 11, 17));
    assert_eq!(date_minus(d(2026, 2, 4), 2), d(2026, 2, 2));
    assert_eq!(date_plus(date_minus(d(2026, 2, 4), 30), 30), d(2026, 2, 4));
}

#[test]
fn weekday_known_dates() {
    // 2026-02-02 is a Monday, 2026-02-03 a Tuesday, 2026-02-08 a Sunday.
    assert_eq!(days_from_monday(d(2026, 2, 2)), 0);
    assert_eq!(days_from_monday(d(2026, 2, 3)), 1);
    assert_eq!(days_from_monday(d(2026, 2, 8)), 6);
    // 1970-01-01 was a Thursday, 2000-01-01 a Saturday.
    assert_eq!(days_from_monday(d(1970, 1, 1)), 3);
    assert_eq!(days_from_monday(d(2000, 1, 1)), 5);
}

#[test]
fn weekday_agrees_with_chrono() {
    for year in [1999u32, 2000, 2024, 2025, 2026, 2100] {
        for month in 1u32..=12 {
            for day in 1u32..=days_in_month_of(year, month) {
                let expected = chrono::NaiveDate::from_ymd_opt(year as i32, month, day)
                    .unwrap()
                    .weekday()
                    .num_days_from_monday();
                assert_eq!(
                    days_from_monday(d(year, month, day)),
                    expected,
                    "mismatch on {year}-{month}-{day}"
                );
            }
        }
    }
}

#[test]
fn current_date_agrees_with_clock() {
    let today = current_date();
    let now = chrono::Local::now().date_naive();
    assert_eq!(today.year as i32, now.year());
    assert_eq!(today.month, now.month());
    assert_eq!(today.day, now.day());
    assert_eq!(
        date_string(today),
        chrono::Local::now().format("%Y-%m-%d").to_string()
    );
}
