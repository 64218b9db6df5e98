use adi_tasks::codec::from_encoded;
use adi_tasks::manager::TaskManager;
use adi_tasks::types::{CreateTask, TaskError, TaskId, TaskStatus};

fn ct(title: &str, desc: Option<&str>, sym: Option<&str>, deps: Vec<u64>) -> CreateTask {
    CreateTask {
        title: title.to_string(),
        description: desc.map(str::to_string),
        symbol_id: sym.map(str::to_string),
        depends_on: deps.into_iter().map(TaskId).collect(),
    }
}

#[test]
fn encode_then_decode_reproduces_the_store() {
    let mut m = TaskManager::new();
    m.create_task(ct("first", Some("a description"), None, vec![]))
        .unwrap();
    m.create_task(ct("second", None, Some("sym:42"), vec![1]))
        .unwrap();
    m.create_task(ct("third", Some("depends on both"), None, vec![1, 2]))
        .unwrap();
    m.update_status(TaskId(1), TaskStatus::InProgress).unwrap();
    m.update_status(TaskId(1), TaskStatus::Done).unwrap();
    m.update_status(TaskId(2), TaskStatus::Blocked).unwrap();

    let text = m.encode();
    let m2 = from_encoded(&text).unwrap();
    assert_eq!(m2.list(), m.list());
}

#[test]
fn decode_preserves_the_id_counter() {
    let mut m = TaskManager::new();
    m.create_task(ct("a", None, None, vec![])).unwrap();
    m.create_task(ct("b", None, None, vec![])).unwrap();
    m.delete_task(TaskId(2)).unwrap();
    let mut m2 = from_encoded(&m.encode()).unwrap();
    let id = m2.create_task(ct("c", None, None, vec![])).unwrap();
    assert_eq!(id, TaskId(3));
}

#[test]
fn empty_store_round_trips() {
    let m = TaskManager::new();
    let m2 = from_encoded(&m.encode()).unwrap();
    assert_eq!(m2.list().len(), 0);
    assert_eq!(m2.encode(), m.encode());
}

#[test]
fn titles_with_unusual_characters_round_trip() {
    let mut m = TaskManager::new();
    m.create_task(ct("emoji \u{1F600} and\nnewline", Some("tab\there"), None, vec![]))
        .unwrap();
    m.create_task(ct("\u{00FC}ml\u{00E4}ut \u{4E16}\u{754C}", None, None, vec![]))
        .unwrap();
    let m2 = from_encoded(&m.encode()).unwrap();
    assert_eq!(m2.list(), m.list());
}

#[test]
fn corrupt_text_is_an_io_failure() {
    assert_eq!(from_encoded("").unwrap_err(), TaskError::IoFailure);
    assert_eq!(from_encoded("garbage").unwrap_err(), TaskError::IoFailure);
    assert_eq!(
        from_encoded("0000000000000000000x").unwrap_err(),
        TaskError::IoFailure
    );
    // a valid store with trailing junk is refused
    let m = TaskManager::new();
    let mut text = m.encode();
    text.push('x');
    assert_eq!(from_encoded(&text).unwrap_err(), TaskError::IoFailure);
}

#[test]
fn tampered_invariants_are_refused() {
    // a store whose id counter does not cover the stored ids is refused
    let mut m = TaskManager::new();
    m.create_task(ct("a", None, None, vec![])).unwrap();
    let good = m.encode();
    // the first number is the id counter: overwrite it with zero
    let tampered: String = "00000000000000000000"
        .chars()
        .chain(good.chars().skip(20))
        .collect();
    assert_eq!(from_encoded(&tampered).unwrap_err(), TaskError::IoFailure);
}

#[test]
fn extreme_counters_round_trip() {
    let m = TaskManager {
        tasks: vec![],
        next_id: u64::MAX,
        clock: u64::MAX - 1,
    };
    let m2 = from_encoded(&m.encode()).unwrap();
    assert_eq!(m2.next_id, u64::MAX);
    assert_eq!(m2.clock, u64::MAX - 1);
}

#[test]
fn empty_store_encoding_is_exact() {
    let m = TaskManager::new();
    let expect = format!(
        "{}{}{}",
        "00000000000000000001",
        "00000000000000000000",
        "00000000000000000000"
    );
    assert_eq!(m.encode(), expect);
}
