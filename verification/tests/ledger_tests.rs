use nopickie::date::Date;
use nopickie::ledger::{parse_ledger, ser_ledger};
use nopickie::stats::{DayEntry, StatsManager};

fn d(year: u32, month: u32, day: u32) -> Date {
    Date { year, month, day }
}

fn manager_on(today: Date, entries: Vec<(Date, u32)>) -> StatsManager {
    StatsManager {
        data: entries
            .into_iter()
            .map(|(date, count)| DayEntry { date, count })
            .collect(),
        current_date: today,
    }
}

#[test]
fn empty_ledger_renders_as_empty_object() {
    let m = manager_on(d(2026, 2, 4), vec![]);
    assert_eq!(m.save_data(), b"{}");
}

#[test]
fn one_entry_renders_exactly() {
    let m = manager_on(d(2026, 2, 4), vec![(d(2026, 2, 2), 3)]);
    assert_eq!(
        m.save_data(),
        br#"{"2026-02-02":{"date":"2026-02-02","trigger_count":3}}"#
    );
}

#[test]
fn two_entries_render_in_order() {
    let m = manager_on(d(2026, 2, 4), vec![(d(2026, 2, 2), 3), (d(2026, 2, 3), 41)]);
    assert_eq!(
        m.save_data(),
        br#"{"2026-02-02":{"date":"2026-02-02","trigger_count":3},"2026-02-03":{"date":"2026-02-03","trigger_count":41}}"#.to_vec()
    );
}

#[test]
fn saved_ledger_loads_back() {
    let m = manager_on(
        d(2026, 2, 4),
        vec![(d(2026, 2, 2), 3), (d(2025, 12, 31), 1), (d(2026, 1, 1), 4294967295)],
    );
    let saved = m.save_data();
    let loaded = StatsManager::load_data(&saved).unwrap();
    assert_eq!(loaded.data, m.data);
    assert_eq!(loaded.save_data(), saved);
}

#[test]
fn empty_object_loads_back() {
    let loaded = StatsManager::load_data(&b"{}".to_vec()).unwrap();
    assert!(loaded.data.is_empty());
}

#[test]
fn rendered_ledger_is_valid_json() {
    let m = manager_on(d(2026, 2, 4), vec![(d(2026, 2, 2), 3), (d(2026, 2, 3), 41)]);
    let value: serde_json::Value = serde_json::from_slice(&m.save_data()).unwrap();
    let object = value.as_object().unwrap();
    assert_eq!(object.len(), 2);
    let record = object.get("2026-02-03").unwrap();
    assert_eq!(record.get("date").unwrap().as_str().unwrap(), "2026-02-03");
    assert_eq!(record.get("trigger_count").unwrap().as_u64().unwrap(), 41);
}

#[test]
fn parse_round_trips_through_render() {
    let entries = vec![
        DayEntry { date: d(2026, 2, 2), count: 3 },
        DayEntry { date: d(2024, 2, 29), count: 12 },
    ];
    let rendered = ser_ledger(&entries);
    let parsed = parse_ledger(&rendered).unwrap();
    assert_eq!(parsed, entries);
}

#[test]
fn rejects_garbage() {
    assert!(parse_ledger(&b"not json".to_vec()).is_none());
    assert!(parse_ledger(&b"".to_vec()).is_none());
    assert!(parse_ledger(&b"{".to_vec()).is_none());
    assert!(parse_ledger(&b"[]".to_vec()).is_none());
}

#[test]
fn rejects_invalid_dates() {
    assert!(parse_ledger(
        &br#"{"2026-02-30":{"date":"2026-02-30","trigger_count":3}}"#.to_vec()
    )
    .is_none());
    assert!(parse_ledger(
        &br#"{"2026-13-01":{"date":"2026-13-01","trigger_count":3}}"#.to_vec()
    )
    .is_none());
}

#[test]
fn rejects_mismatched_key_and_record_date() {
    assert!(parse_ledger(
        &br#"{"2026-02-02":{"date":"2026-02-03","trigger_count":3}}"#.to_vec()
    )
    .is_none());
}

#[test]
fn rejects_duplicate_days() {
    let doubled = br#"{"2026-02-02":{"date":"2026-02-02","trigger_count":3},"2026-02-02":{"date":"2026-02-02","trigger_count":4}}"#;
    assert!(parse_ledger(&doubled.to_vec()).is_none());
}

#[test]
fn rejects_trailing_bytes_and_padding() {
    assert!(parse_ledger(&b"{} ".to_vec()).is_none());
    assert!(parse_ledger(
        &br#"{ "2026-02-02": {"date": "2026-02-02", "trigger_count": 3} }"#.to_vec()
    )
    .is_none());
}

#[test]
fn rejects_numbers_with_leading_zeros_or_overflow() {
    assert!(parse_ledger(
        &br#"{"2026-02-02":{"date":"2026-02-02","trigger_count":03}}"#.to_vec()
    )
    .is_none());
    assert!(parse_ledger(
        &br#"{"2026-02-02":{"date":"2026-02-02","trigger_count":4294967296}}"#.to_vec()
    )
    .is_none());
}
