use nopickie::relay::{classify_line, classify_lines, kind_of_field, RelayAction};

#[test]
fn reserved_kind_dispatches_with_alert() {
    let action = classify_line(r#"{"event":"scratch_detected","confidence":0.93}"#);
    match action {
        RelayAction::Dispatch { kind, alert, payload } => {
            assert_eq!(kind, "scratch_detected");
            assert!(alert);
            assert_eq!(payload.get("confidence").unwrap().as_f64().unwrap(), 0.93);
        }
        RelayAction::Discard => panic!("a valid line must dispatch"),
    }
}

#[test]
fn other_kinds_pass_through_without_alert() {
    let action = classify_line(r#"{"event":"status","fps":12}"#);
    match action {
        RelayAction::Dispatch { kind, alert, .. } => {
            assert_eq!(kind, "status");
            assert!(!alert);
        }
        RelayAction::Discard => panic!("a valid line must dispatch"),
    }
}

#[test]
fn missing_event_field_defaults_to_unknown() {
    let action = classify_line(r#"{"fps":12}"#);
    match action {
        RelayAction::Dispatch { kind, alert, .. } => {
            assert_eq!(kind, "unknown");
            assert!(!alert);
        }
        RelayAction::Discard => panic!("a valid line must dispatch"),
    }
}

#[test]
fn non_string_event_field_defaults_to_unknown() {
    let action = classify_line(r#"{"event":3}"#);
    match action {
        RelayAction::Dispatch { kind, .. } => assert_eq!(kind, "unknown"),
        RelayAction::Discard => panic!("a valid line must dispatch"),
    }
}

#[test]
fn malformed_line_is_discarded() {
    assert!(matches!(classify_line("\u{1f9e0} engine warming up"), RelayAction::Discard));
    assert!(matches!(classify_line("{\"event\":"), RelayAction::Discard));
    assert!(matches!(classify_line(""), RelayAction::Discard));
}

#[test]
fn malformed_line_does_not_block_later_lines() {
    let lines = vec![
        String::from(r#"{"event":"status"}"#),
        String::from("not json at all"),
        String::from(r#"{"event":"scratch_detected"}"#),
    ];
    let actions = classify_lines(&lines);
    assert_eq!(actions.len(), 3);
    assert!(matches!(&actions[0], RelayAction::Dispatch { alert: false, .. }));
    assert!(matches!(&actions[1], RelayAction::Discard));
    assert!(matches!(&actions[2], RelayAction::Dispatch { alert: true, .. }));
}

#[test]
fn kind_extraction_defaults() {
    assert_eq!(kind_of_field(Some(String::from("status"))), "status");
    assert_eq!(kind_of_field(None), "unknown");
}
