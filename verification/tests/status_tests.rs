use taskly::status::TaskStatus;
use taskly::timestamp::Timestamp;

fn ts(y: u16, mo: u8, d: u8, h: u8, mi: u8, s: u8, off: i16) -> Timestamp {
    Timestamp { year: y, month: mo, day: d, hour: h, minute: mi, second: s, offset_minutes: off }
}

#[test]
fn parse_recognizes_todo() {
    assert_eq!(TaskStatus::parse("todo"), TaskStatus::Todo);
}

#[test]
fn parse_trims_and_lowercases_todo() {
    assert_eq!(TaskStatus::parse("TODO "), TaskStatus::Todo);
}

#[test]
fn parse_recognizes_complete() {
    assert_eq!(TaskStatus::parse("complete"), TaskStatus::Complete);
    assert_eq!(TaskStatus::parse(" Complete "), TaskStatus::Complete);
}

#[test]
fn parse_never_fails_on_other_input() {
    assert_eq!(
        TaskStatus::parse("URGENT! Fix now"),
        TaskStatus::Other("urgent! fix now".to_string())
    );
    assert_eq!(TaskStatus::parse(""), TaskStatus::Other(String::new()));
    assert_eq!(TaskStatus::parse("   "), TaskStatus::Other(String::new()));
}

#[test]
fn display_strings() {
    assert_eq!(TaskStatus::Todo.display_string(), "Todo");
    assert_eq!(TaskStatus::Complete.display_string(), "Complete");
    assert_eq!(
        TaskStatus::Other("home".to_string()).display_string(),
        "home"
    );
}

#[test]
fn status_value_equality() {
    assert!(TaskStatus::Todo.status_eq(&TaskStatus::Todo));
    assert!(!TaskStatus::Todo.status_eq(&TaskStatus::Complete));
    assert!(TaskStatus::Other("a".to_string()).status_eq(&TaskStatus::Other("a".to_string())));
    assert!(!TaskStatus::Other("a".to_string()).status_eq(&TaskStatus::Other("A".to_string())));
}

#[test]
fn timestamp_format_pads_fields() {
    let t = ts(2024, 1, 2, 3, 4, 5, 150);
    assert_eq!(t.format(), "2024.01.02 at 03:04:05 +02:30");
}

#[test]
fn timestamp_format_negative_offset() {
    let t = ts(999, 12, 31, 23, 59, 59, -300);
    assert_eq!(t.format(), "0999.12.31 at 23:59:59 -05:00");
}
