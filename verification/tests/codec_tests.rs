use taskly::codec::document_string;
use taskly::codec::parse_document_str;
use taskly::status::TaskStatus;
use taskly::store::IdAllocator;
use taskly::store::TaskStore;
use taskly::timestamp::Timestamp;

fn ts(s: u8, off: i16) -> Timestamp {
    Timestamp {
        year: 2024,
        month: 1,
        day: 2,
        hour: 3,
        minute: 4,
        second: s,
        offset_minutes: off,
    }
}

#[test]
fn document_text_is_the_expected_pretty_json() {
    let mut store = TaskStore::new();
    let mut alloc = IdAllocator::new(0);
    store.add(&mut alloc, "milk".to_string(), ts(5, 0));
    let text = document_string(&store);
    assert_eq!(
        text,
        "{\n  \"tasks\": {\n    \"1\": {\n      \"description\": \"milk\",\n      \"status\": \"Todo\",\n      \"created\": \"2024-01-02T03:04:05+00:00\",\n      \"updated\": \"2024-01-02T03:04:05+00:00\"\n    }\n  }\n}"
    );
}

#[test]
fn empty_store_document() {
    let store = TaskStore::new();
    assert_eq!(document_string(&store), "{\n  \"tasks\": {}\n}");
    let back = parse_document_str("{\n  \"tasks\": {}\n}").unwrap();
    assert_eq!(back.count(), 0);
}

#[test]
fn round_trip_keeps_every_field() {
    let mut store = TaskStore::new();
    let mut alloc = IdAllocator::new(0);
    store.add(&mut alloc, "say \"hi\" \\ there".to_string(), ts(5, 120));
    store.add(&mut alloc, "line\nbreak\tand\u{1}ctrl".to_string(), ts(6, -330));
    store.add(&mut alloc, "caf\u{e9} \u{20ac}".to_string(), ts(7, 0));
    store
        .set_status(2, TaskStatus::Other("on \"hold\"".to_string()), ts(8, -330))
        .unwrap();
    store.set_status(3, TaskStatus::Complete, ts(9, 0)).unwrap();
    let text = document_string(&store);
    let back = parse_document_str(&text).unwrap();
    assert_eq!(back.count(), 3);
    for id in 1..=3u64 {
        let orig = store.get(id).unwrap();
        let read = back.get(id).unwrap();
        assert_eq!(read.description, orig.description);
        assert_eq!(read.status, orig.status);
        assert_eq!(read.created, orig.created);
        assert_eq!(read.updated, orig.updated);
    }
    assert_eq!(document_string(&back), text);
}

#[test]
fn round_trip_of_other_status_label() {
    let mut store = TaskStore::new();
    let mut alloc = IdAllocator::new(0);
    store.add(&mut alloc, "a".to_string(), ts(1, 0));
    store
        .set_status(1, TaskStatus::Other("home".to_string()), ts(2, 0))
        .unwrap();
    let text = document_string(&store);
    assert!(text.contains("{ \"Other\": \"home\" }"));
    let back = parse_document_str(&text).unwrap();
    assert_eq!(
        back.get(1).unwrap().status,
        TaskStatus::Other("home".to_string())
    );
}

#[test]
fn reloading_a_written_document_succeeds() {
    let mut store = TaskStore::new();
    let mut alloc = IdAllocator::new(0);
    store.add(&mut alloc, "milk".to_string(), ts(5, 0));
    let text = document_string(&store);
    let back = parse_document_str(&text).expect("the reader must accept what the writer wrote");
    assert_eq!(document_string(&back), text);
}

#[test]
fn hexadecimal_escape_case_is_tolerated() {
    let mut store = TaskStore::new();
    let mut alloc = IdAllocator::new(0);
    store.add(&mut alloc, "a\u{1f}b".to_string(), ts(5, 0));
    let text = document_string(&store);
    assert!(text.contains("a\\u001fb"));
    let respelled = text.replace("\\u001f", "\\u001F");
    let back = parse_document_str(&respelled).unwrap();
    assert_eq!(back.get(1).unwrap().description, "a\u{1f}b");
}

#[test]
fn garbage_is_corrupt() {
    assert!(parse_document_str("").is_err());
    assert!(parse_document_str("not json").is_err());
    assert!(parse_document_str("{\"tasks\":{}}").is_err());
}

#[test]
fn truncated_document_is_corrupt() {
    let mut store = TaskStore::new();
    let mut alloc = IdAllocator::new(0);
    store.add(&mut alloc, "milk".to_string(), ts(5, 0));
    let text = document_string(&store);
    let cut = &text[..text.len() - 2];
    assert!(parse_document_str(cut).is_err());
}

#[test]
fn trailing_text_is_corrupt() {
    let store = TaskStore::new();
    let mut text = document_string(&store);
    text.push(' ');
    assert!(parse_document_str(&text).is_err());
}

#[test]
fn repeated_id_is_corrupt() {
    let mut store = TaskStore::new();
    let mut alloc = IdAllocator::new(0);
    store.add(&mut alloc, "a".to_string(), ts(1, 0));
    store.add(&mut alloc, "b".to_string(), ts(1, 0));
    let text = document_string(&store);
    let forged = text.replace("\"2\": {", "\"1\": {");
    assert!(parse_document_str(&forged).is_err());
}

#[test]
fn out_of_range_month_is_corrupt() {
    let mut store = TaskStore::new();
    let mut alloc = IdAllocator::new(0);
    store.add(&mut alloc, "a".to_string(), ts(1, 0));
    let text = document_string(&store);
    let forged = text.replace("2024-01-02", "2024-13-02");
    assert!(parse_document_str(&forged).is_err());
}

#[test]
fn negative_offset_is_written_and_read() {
    let mut store = TaskStore::new();
    let mut alloc = IdAllocator::new(0);
    store.add(&mut alloc, "a".to_string(), ts(1, -300));
    let text = document_string(&store);
    assert!(text.contains("2024-01-02T03:04:01-05:00"));
    let back = parse_document_str(&text).unwrap();
    assert_eq!(back.get(1).unwrap().created.offset_minutes, -300);
}
