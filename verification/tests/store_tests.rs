use taskly::cli::Cli;
use taskly::cli::Commands;
use taskly::cli::Outcome;
use taskly::cli::dispatch;
use taskly::cli::dispatch_cli;
use taskly::render::render_tasks;
use taskly::status::TaskStatus;
use taskly::store::IdAllocator;
use taskly::store::TaskError;
use taskly::store::TaskStore;
use taskly::timestamp::Timestamp;

fn ts(s: u8) -> Timestamp {
    Timestamp {
        year: 2024,
        month: 1,
        day: 2,
        hour: 3,
        minute: 4,
        second: s,
        offset_minutes: 0,
    }
}

#[test]
fn add_creates_todo_task_with_id_one() {
    let mut store = TaskStore::new();
    let mut alloc = IdAllocator::new(0);
    let id = store.add(&mut alloc, "buy milk".to_string(), ts(5));
    assert_eq!(id, 1);
    assert_eq!(store.count(), 1);
    let task = store.get(1).unwrap();
    assert_eq!(task.description, "buy milk");
    assert_eq!(task.status, TaskStatus::Todo);
    assert_eq!(task.created, ts(5));
    assert_eq!(task.updated, ts(5));
}

#[test]
fn full_task_lifecycle() {
    let mut store = TaskStore::new();
    let mut alloc = IdAllocator::new(0);
    let id = store.add(&mut alloc, "buy milk".to_string(), ts(5));
    assert_eq!(id, 1);
    store
        .set_status(1, TaskStatus::parse("complete"), ts(6))
        .unwrap();
    let task = store.get(1).unwrap();
    assert_eq!(task.status, TaskStatus::Complete);
    assert_eq!(task.description, "buy milk");
    assert_eq!(task.created, ts(5));
    assert_eq!(task.updated, ts(6));
    assert!(task.updated.second > task.created.second);
    store.delete(1).unwrap();
    assert_eq!(store.count(), 0);
    assert_eq!(store.delete(1), Err(TaskError::NotFound));
}

#[test]
fn consecutive_adds_issue_consecutive_ids() {
    let mut store = TaskStore::new();
    let mut alloc = IdAllocator::new(0);
    let mut issued = Vec::new();
    for i in 0..5u8 {
        issued.push(store.add(&mut alloc, format!("task {}", i), ts(i)));
    }
    assert_eq!(issued, vec![1, 2, 3, 4, 5]);
    assert_eq!(alloc.last, 5);
}

#[test]
fn deleted_ids_are_not_reused() {
    let mut store = TaskStore::new();
    let mut alloc = IdAllocator::new(0);
    store.add(&mut alloc, "a".to_string(), ts(1));
    store.add(&mut alloc, "b".to_string(), ts(2));
    store.delete(2).unwrap();
    let id = store.add(&mut alloc, "c".to_string(), ts(3));
    assert_eq!(id, 3);
}

#[test]
fn update_replaces_description_only() {
    let mut store = TaskStore::new();
    let mut alloc = IdAllocator::new(0);
    store.add(&mut alloc, "old".to_string(), ts(1));
    store
        .set_status(1, TaskStatus::Other("home".to_string()), ts(2))
        .unwrap();
    store.update(1, "new".to_string(), ts(3)).unwrap();
    let task = store.get(1).unwrap();
    assert_eq!(task.description, "new");
    assert_eq!(task.status, TaskStatus::Other("home".to_string()));
    assert_eq!(task.created, ts(1));
    assert_eq!(task.updated, ts(3));
}

#[test]
fn update_missing_id_reports_not_found() {
    let mut store = TaskStore::new();
    let mut alloc = IdAllocator::new(0);
    store.add(&mut alloc, "a".to_string(), ts(1));
    let before = taskly::codec::document_string(&store);
    assert_eq!(store.update(99, "x".to_string(), ts(2)), Err(TaskError::NotFound));
    let after = taskly::codec::document_string(&store);
    assert_eq!(before, after);
}

#[test]
fn set_status_twice_only_moves_updated() {
    let mut store = TaskStore::new();
    let mut alloc = IdAllocator::new(0);
    store.add(&mut alloc, "a".to_string(), ts(1));
    let st = TaskStatus::Other("waiting".to_string());
    store.set_status(1, st.clone(), ts(2)).unwrap();
    store.set_status(1, st.clone(), ts(3)).unwrap();
    let task = store.get(1).unwrap();
    assert_eq!(task.description, "a");
    assert_eq!(task.created, ts(1));
    assert_eq!(task.status, st);
    assert_eq!(task.updated, ts(3));
}

fn mixed_store() -> TaskStore {
    let mut store = TaskStore::new();
    let mut alloc = IdAllocator::new(0);
    store.add(&mut alloc, "a".to_string(), ts(1));
    store.add(&mut alloc, "b".to_string(), ts(1));
    store.add(&mut alloc, "c".to_string(), ts(1));
    store.add(&mut alloc, "d".to_string(), ts(1));
    store
        .set_status(2, TaskStatus::Complete, ts(2))
        .unwrap();
    store
        .set_status(3, TaskStatus::Other("home".to_string()), ts(2))
        .unwrap();
    store
}

#[test]
fn list_default_shows_exactly_todo() {
    let store = mixed_store();
    let shown = store.list(&TaskStatus::Todo, false);
    let ids: Vec<u64> = shown.iter().map(|p| p.0).collect();
    assert_eq!(ids, vec![1, 4]);
}

#[test]
fn list_complete_shows_exactly_complete() {
    let store = mixed_store();
    let shown = store.list(&TaskStatus::Complete, false);
    let ids: Vec<u64> = shown.iter().map(|p| p.0).collect();
    assert_eq!(ids, vec![2]);
}

#[test]
fn list_other_matches_label_exactly() {
    let store = mixed_store();
    let shown = store.list(&TaskStatus::Other("home".to_string()), false);
    let ids: Vec<u64> = shown.iter().map(|p| p.0).collect();
    assert_eq!(ids, vec![3]);
    let none = store.list(&TaskStatus::Other("Home".to_string()), false);
    assert!(none.is_empty());
}

#[test]
fn list_all_shows_every_task() {
    let store = mixed_store();
    let shown = store.list(&TaskStatus::Todo, true);
    assert_eq!(shown.len(), 4);
}

#[test]
fn render_shows_one_block_per_task() {
    let mut store = TaskStore::new();
    let mut alloc = IdAllocator::new(0);
    store.add(&mut alloc, "milk".to_string(), ts(5));
    let shown = store.list(&TaskStatus::Todo, false);
    let text = render_tasks(&shown);
    assert_eq!(
        text,
        "Id: 1\nDescription: milk\nStatus: Todo\nCreated: 2024.01.02 at 03:04:05 +00:00\nUpdated: 2024.01.02 at 03:04:05 +00:00\n\n"
    );
}

#[test]
fn dispatch_runs_one_command() {
    let mut store = TaskStore::new();
    let mut alloc = IdAllocator::new(0);
    let out = dispatch(
        &mut store,
        &mut alloc,
        Commands::Add { description: "a".to_string() },
        ts(1),
    );
    assert!(matches!(out, Outcome::Changed));
    assert_eq!(alloc.last, 1);
    let out = dispatch(
        &mut store,
        &mut alloc,
        Commands::List { status: TaskStatus::Todo, all: false },
        ts(1),
    );
    match out {
        Outcome::Listing(shown) => assert_eq!(shown.len(), 1),
        _ => panic!("expected a listing"),
    }
    let out = dispatch(&mut store, &mut alloc, Commands::Delete { id: 7 }, ts(2));
    assert!(matches!(out, Outcome::Rejected(TaskError::NotFound)));
}

#[test]
fn dispatch_without_command_is_a_no_op() {
    let mut store = TaskStore::new();
    let mut alloc = IdAllocator::new(0);
    let out = dispatch_cli(&mut store, &mut alloc, Cli { command: None }, ts(1));
    assert!(out.is_none());
    assert_eq!(store.count(), 0);
    assert_eq!(alloc.last, 0);
}
