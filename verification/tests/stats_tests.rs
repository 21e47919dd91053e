use chrono::Datelike;
use nopickie::date::Date;
use nopickie::stats::{DailyStats, DayEntry, StatsManager, WeekStatsError};

fn d(year: u32, month: u32, day: u32) -> Date {
    Date { year, month, day }
}

fn manager_on(today: Date, entries: Vec<(Date, u32)>) -> StatsManager {
    StatsManager {
        data: entries
            .into_iter()
            .map(|(date, count)| DayEntry { date, count })
            .collect(),
        current_date: today,
    }
}

#[test]
fn daily_stats_new_starts_at_zero() {
    let s = DailyStats::new(String::from("2026-02-03"));
    assert_eq!(s.date, "2026-02-03");
    assert_eq!(s.trigger_count, 0);
}

#[test]
fn new_manager_reports_zero_today() {
    let m = StatsManager::new();
    let today = m.get_today_stats();
    assert_eq!(today.trigger_count, 0);
    assert_eq!(today.date.len(), 10);
}

#[test]
fn triggers_on_one_day_accumulate() {
    let mut m = manager_on(d(2026, 2, 3), vec![]);
    for expected in 1u32..=50 {
        m.add_trigger_on(d(2026, 2, 3));
        assert_eq!(m.trigger_count_on(d(2026, 2, 3)), expected);
    }
    let today = m.get_today_stats();
    assert_eq!(today.date, "2026-02-03");
    assert_eq!(today.trigger_count, 50);
}

#[test]
fn day_rollover_starts_fresh_and_keeps_history() {
    let mut m = manager_on(d(2026, 2, 3), vec![]);
    m.add_trigger_on(d(2026, 2, 3));
    m.add_trigger_on(d(2026, 2, 3));
    m.add_trigger_on(d(2026, 2, 4));
    let today = m.get_today_stats();
    assert_eq!(today.date, "2026-02-04");
    assert_eq!(today.trigger_count, 1);
    assert_eq!(m.trigger_count_on(d(2026, 2, 3)), 2);
}

#[test]
fn clock_driven_trigger_counts_once() {
    let mut m = StatsManager::new();
    assert_eq!(m.add_trigger(), 1);
    assert_eq!(m.add_trigger(), 2);
    assert_eq!(m.get_today_stats().trigger_count, 2);
    m.check_date_change();
    assert_eq!(m.get_today_stats().trigger_count, 2);
}

#[test]
fn rollover_moves_only_the_cached_day() {
    let mut m = manager_on(d(2026, 2, 3), vec![(d(2026, 2, 3), 4)]);
    m.roll_to(d(2026, 2, 4));
    assert_eq!(m.get_today_stats().date, "2026-02-04");
    assert_eq!(m.get_today_stats().trigger_count, 0);
    assert_eq!(m.trigger_count_on(d(2026, 2, 3)), 4);
    m.roll_to(d(2026, 2, 3));
    assert_eq!(m.get_today_stats().trigger_count, 4);
}

#[test]
fn clock_rollover_lands_on_the_clock_date() {
    let mut m = manager_on(d(1999, 1, 1), vec![(d(1998, 12, 31), 2)]);
    m.check_date_change();
    let now = chrono::Local::now().date_naive();
    assert_eq!(
        m.get_today_stats().date,
        format!("{:04}-{:02}-{:02}", now.year(), now.month(), now.day())
    );
    assert_eq!(m.trigger_count_on(d(1998, 12, 31)), 2);
}

#[test]
fn week_offset_bounds() {
    let m = manager_on(d(2026, 2, 4), vec![]);
    assert_eq!(
        m.get_week_stats_on(d(2026, 2, 4), 1).unwrap_err(),
        WeekStatsError::FutureWeekRequested
    );
    assert_eq!(
        m.get_week_stats_on(d(2026, 2, 4), 5).unwrap_err(),
        WeekStatsError::FutureWeekRequested
    );
    assert_eq!(
        m.get_week_stats_on(d(2026, 2, 4), -12).unwrap_err(),
        WeekStatsError::WindowExceeded
    );
    assert!(m.get_week_stats_on(d(2026, 2, 4), 0).is_ok());
    assert!(m.get_week_stats_on(d(2026, 2, 4), -11).is_ok());
}

#[test]
fn week_error_messages() {
    assert_eq!(
        WeekStatsError::FutureWeekRequested.message(),
        "cannot view a future week"
    );
    assert_eq!(
        WeekStatsError::WindowExceeded.message(),
        "can look back at most 12 weeks"
    );
}

#[test]
fn current_week_hides_today_and_future_days() {
    // 2026-02-04 is a Wednesday; its week runs 02-02 (Mon) to 02-08 (Sun).
    let today = d(2026, 2, 4);
    let m = manager_on(
        today,
        vec![
            (d(2026, 2, 2), 3),
            (d(2026, 2, 3), 1),
            (d(2026, 2, 4), 5),
            (d(2026, 1, 28), 7),
        ],
    );
    let w = m.get_week_stats_on(today, 0).unwrap();
    assert_eq!(w.week_label, "this week");
    assert_eq!(w.week_start, "2026-02-02");
    assert_eq!(w.week_end, "2026-02-08");
    assert_eq!(w.days.len(), 7);
    let monday = w.days[0].as_ref().unwrap();
    assert_eq!(monday.date, "2026-02-02");
    assert_eq!(monday.trigger_count, 3);
    let tuesday = w.days[1].as_ref().unwrap();
    assert_eq!(tuesday.date, "2026-02-03");
    assert_eq!(tuesday.trigger_count, 1);
    // Today has a non-zero count, yet its slot and every later slot are empty.
    for i in 2..7 {
        assert!(w.days[i].is_none());
    }
    assert!(!w.can_go_next);
    assert!(w.can_go_prev);
}

#[test]
fn last_week_shows_recorded_days_only() {
    let today = d(2026, 2, 4);
    let m = manager_on(today, vec![(d(2026, 1, 28), 7)]);
    let w = m.get_week_stats_on(today, -1).unwrap();
    assert_eq!(w.week_label, "last week");
    assert_eq!(w.week_start, "2026-01-26");
    assert_eq!(w.week_end, "2026-02-01");
    let wednesday = w.days[2].as_ref().unwrap();
    assert_eq!(wednesday.date, "2026-01-28");
    assert_eq!(wednesday.trigger_count, 7);
    for i in [0, 1, 3, 4, 5, 6] {
        assert!(w.days[i].is_none());
    }
    assert!(w.can_go_next);
    assert!(w.can_go_prev);
}

#[test]
fn oldest_week_of_the_window() {
    let today = d(2026, 2, 4);
    let m = manager_on(today, vec![]);
    let w = m.get_week_stats_on(today, -11).unwrap();
    assert_eq!(w.week_label, "11 weeks ago");
    assert_eq!(w.week_start, "2025-11-17");
    assert_eq!(w.week_end, "2025-11-23");
    assert!(w.can_go_next);
    assert!(!w.can_go_prev);
}

#[test]
fn two_weeks_ago_label() {
    let m = manager_on(d(2026, 2, 4), vec![]);
    let w = m.get_week_stats_on(d(2026, 2, 4), -2).unwrap();
    assert_eq!(w.week_label, "2 weeks ago");
}

#[test]
fn clock_driven_week_query_bounds() {
    let m = StatsManager::new();
    assert_eq!(
        m.get_week_stats(3).unwrap_err(),
        WeekStatsError::FutureWeekRequested
    );
    assert_eq!(
        m.get_week_stats(-20).unwrap_err(),
        WeekStatsError::WindowExceeded
    );
    let w = m.get_week_stats(0).unwrap();
    assert_eq!(w.week_label, "this week");
    assert_eq!(w.days.len(), 7);
    for slot in &w.days {
        assert!(slot.is_none());
    }
}

#[test]
fn week_window_crosses_a_leap_day() {
    // 2024-03-06 is a Wednesday; last week ran 02-26 (Mon) to 03-03 (Sun)
    // and contains the leap day 02-29.
    let today = Date { year: 2024, month: 3, day: 6 };
    let m = manager_on(today, vec![(Date { year: 2024, month: 2, day: 29 }, 2)]);
    let w = m.get_week_stats_on(today, -1).unwrap();
    assert_eq!(w.week_start, "2024-02-26");
    assert_eq!(w.week_end, "2024-03-03");
    let leap_day = w.days[3].as_ref().unwrap();
    assert_eq!(leap_day.date, "2024-02-29");
    assert_eq!(leap_day.trigger_count, 2);
}

#[test]
fn monday_week_starts_on_today() {
    // On a Monday the whole window is today or later: all slots empty.
    let today = d(2026, 2, 2);
    let m = manager_on(today, vec![(d(2026, 2, 2), 9)]);
    let w = m.get_week_stats_on(today, 0).unwrap();
    assert_eq!(w.week_start, "2026-02-02");
    for slot in &w.days {
        assert!(slot.is_none());
    }
}
