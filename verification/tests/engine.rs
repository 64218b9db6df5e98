use adi_tasks::manager::TaskManager;
use adi_tasks::status::{is_transition_allowed, parse_status, status_name, transition};
use adi_tasks::types::{CreateTask, TaskError, TaskId, TaskStatus};

fn ct(title: &str, deps: Vec<u64>) -> CreateTask {
    CreateTask {
        title: title.to_string(),
        description: None,
        symbol_id: None,
        depends_on: deps.into_iter().map(TaskId).collect(),
    }
}

fn ready_ids(m: &TaskManager) -> Vec<u64> {
    m.get_ready().iter().map(|t| t.id.0).collect()
}

#[test]
fn create_first_task_is_ready() {
    let mut m = TaskManager::new();
    let id = m.create_task(ct("A", vec![])).unwrap();
    assert_eq!(id, TaskId(1));
    assert_eq!(m.get_task(TaskId(1)).unwrap().status, TaskStatus::Todo);
    assert_eq!(ready_ids(&m), vec![1]);
}

#[test]
fn dependent_task_is_not_ready() {
    let mut m = TaskManager::new();
    m.create_task(ct("A", vec![])).unwrap();
    let id = m.create_task(ct("B", vec![1])).unwrap();
    assert_eq!(id, TaskId(2));
    assert_eq!(m.get_task(TaskId(2)).unwrap().status, TaskStatus::Todo);
    assert_eq!(ready_ids(&m), vec![1]);
}

#[test]
fn done_dependency_unlocks_dependent() {
    let mut m = TaskManager::new();
    m.create_task(ct("A", vec![])).unwrap();
    m.create_task(ct("B", vec![1])).unwrap();
    m.update_status(TaskId(1), TaskStatus::InProgress).unwrap();
    m.update_status(TaskId(1), TaskStatus::Done).unwrap();
    assert_eq!(ready_ids(&m), vec![2]);
}

#[test]
fn unknown_dependency_rejected_and_nothing_persisted() {
    let mut m = TaskManager::new();
    m.create_task(ct("A", vec![])).unwrap();
    m.create_task(ct("B", vec![1])).unwrap();
    let r = m.create_task(ct("C", vec![99]));
    assert_eq!(r, Err(TaskError::UnknownDependency));
    assert_eq!(m.list().len(), 2);
    let id = m.create_task(ct("C", vec![])).unwrap();
    assert_eq!(id, TaskId(3));
}

#[test]
fn done_is_terminal() {
    let mut m = TaskManager::new();
    m.create_task(ct("A", vec![])).unwrap();
    m.update_status(TaskId(1), TaskStatus::InProgress).unwrap();
    m.update_status(TaskId(1), TaskStatus::Done).unwrap();
    let r = m.update_status(TaskId(1), TaskStatus::Todo);
    assert_eq!(r, Err(TaskError::InvalidTransition));
    assert_eq!(m.get_task(TaskId(1)).unwrap().status, TaskStatus::Done);
}

#[test]
fn delete_with_dependents_rejected() {
    let mut m = TaskManager::new();
    m.create_task(ct("A", vec![])).unwrap();
    m.create_task(ct("B", vec![1])).unwrap();
    let r = m.delete_task(TaskId(1));
    assert_eq!(r, Err(TaskError::HasDependents));
    assert_eq!(m.list().len(), 2);
}

#[test]
fn delete_without_dependents_removes_task() {
    let mut m = TaskManager::new();
    m.create_task(ct("A", vec![])).unwrap();
    m.create_task(ct("B", vec![1])).unwrap();
    m.delete_task(TaskId(2)).unwrap();
    m.delete_task(TaskId(1)).unwrap();
    assert_eq!(m.list().len(), 0);
    assert_eq!(m.get_task(TaskId(1)), Err(TaskError::NotFound));
}

#[test]
fn created_ids_increase_and_are_never_reused() {
    let mut m = TaskManager::new();
    let a = m.create_task(ct("A", vec![])).unwrap();
    let b = m.create_task(ct("B", vec![])).unwrap();
    assert!(a.0 < b.0);
    m.delete_task(b).unwrap();
    let c = m.create_task(ct("C", vec![])).unwrap();
    assert_eq!(c, TaskId(3));
}

#[test]
fn empty_title_is_a_validation_error() {
    let mut m = TaskManager::new();
    let r = m.create_task(ct("", vec![]));
    assert_eq!(r, Err(TaskError::ValidationError));
    assert_eq!(m.list().len(), 0);
}

#[test]
fn transition_table_is_exact() {
    let all = [
        TaskStatus::Todo,
        TaskStatus::InProgress,
        TaskStatus::Done,
        TaskStatus::Blocked,
        TaskStatus::Cancelled,
    ];
    let allowed = [
        (TaskStatus::Todo, TaskStatus::InProgress),
        (TaskStatus::Todo, TaskStatus::Blocked),
        (TaskStatus::Todo, TaskStatus::Cancelled),
        (TaskStatus::InProgress, TaskStatus::Done),
        (TaskStatus::InProgress, TaskStatus::Blocked),
        (TaskStatus::InProgress, TaskStatus::Cancelled),
        (TaskStatus::InProgress, TaskStatus::Todo),
        (TaskStatus::Blocked, TaskStatus::Todo),
        (TaskStatus::Blocked, TaskStatus::InProgress),
        (TaskStatus::Blocked, TaskStatus::Cancelled),
    ];
    for &from in &all {
        for &to in &all {
            let expect = allowed.contains(&(from, to));
            assert_eq!(is_transition_allowed(from, to), expect);
            match transition(from, to) {
                Ok(st) => {
                    assert!(expect);
                    assert_eq!(st, to);
                }
                Err(e) => {
                    assert!(!expect);
                    assert_eq!(e, TaskError::InvalidTransition);
                }
            }
        }
    }
}

#[test]
fn status_names_parse_back() {
    for st in [
        TaskStatus::Todo,
        TaskStatus::InProgress,
        TaskStatus::Done,
        TaskStatus::Blocked,
        TaskStatus::Cancelled,
    ] {
        let name = status_name(st);
        assert_eq!(parse_status(&name), Ok(st));
    }
    assert_eq!(status_name(TaskStatus::InProgress), "in_progress");
    assert_eq!(parse_status("nonsense"), Err(TaskError::ValidationError));
    assert_eq!(parse_status(""), Err(TaskError::ValidationError));
}

#[test]
fn ready_is_exactly_todo_with_done_deps_ascending() {
    let mut m = TaskManager::new();
    m.create_task(ct("a", vec![])).unwrap(); // 1: will be Done
    m.create_task(ct("b", vec![])).unwrap(); // 2: will be Blocked
    m.create_task(ct("c", vec![1])).unwrap(); // 3: ready once 1 is Done
    m.create_task(ct("d", vec![2])).unwrap(); // 4: dep not Done
    m.create_task(ct("e", vec![])).unwrap(); // 5: ready
    m.update_status(TaskId(1), TaskStatus::InProgress).unwrap();
    m.update_status(TaskId(1), TaskStatus::Done).unwrap();
    m.update_status(TaskId(2), TaskStatus::Blocked).unwrap();
    assert_eq!(ready_ids(&m), vec![3, 5]);
}

#[test]
fn list_is_ordered_by_id_and_filter_by_status_works() {
    let mut m = TaskManager::new();
    m.create_task(ct("a", vec![])).unwrap();
    m.create_task(ct("b", vec![])).unwrap();
    m.create_task(ct("c", vec![])).unwrap();
    m.update_status(TaskId(2), TaskStatus::Cancelled).unwrap();
    let ids: Vec<u64> = m.list().iter().map(|t| t.id.0).collect();
    assert_eq!(ids, vec![1, 2, 3]);
    let cancelled: Vec<u64> = m
        .list_by_status(TaskStatus::Cancelled)
        .iter()
        .map(|t| t.id.0)
        .collect();
    assert_eq!(cancelled, vec![2]);
    let todo: Vec<u64> = m
        .list_by_status(TaskStatus::Todo)
        .iter()
        .map(|t| t.id.0)
        .collect();
    assert_eq!(todo, vec![1, 3]);
}

#[test]
fn dependents_are_reported() {
    let mut m = TaskManager::new();
    m.create_task(ct("a", vec![])).unwrap();
    m.create_task(ct("b", vec![1])).unwrap();
    m.create_task(ct("c", vec![1])).unwrap();
    let deps = adi_tasks::graph::dependents_of(&m.list(), TaskId(1));
    assert_eq!(deps, vec![TaskId(2), TaskId(3)]);
    let none = adi_tasks::graph::dependents_of(&m.list(), TaskId(2));
    assert!(none.is_empty());
}

#[test]
fn edge_validation_finds_cycles_and_unknowns() {
    let mut m = TaskManager::new();
    m.create_task(ct("a", vec![])).unwrap();
    m.create_task(ct("b", vec![1])).unwrap();
    m.create_task(ct("c", vec![2])).unwrap();
    let tasks = m.list();
    // edges toward task 3 from task 1 are fine: 1 reaches nothing above it
    assert_eq!(
        adi_tasks::graph::validate_new_edges(&tasks, TaskId(4), &vec![TaskId(1), TaskId(3)]),
        Ok(())
    );
    assert_eq!(
        adi_tasks::graph::validate_new_edges(&tasks, TaskId(4), &vec![TaskId(9)]),
        Err(TaskError::UnknownDependency)
    );
    // 3 depends on 2 depends on 1: an edge 1 -> 3 would close a cycle
    assert_eq!(
        adi_tasks::graph::validate_new_edges(&tasks, TaskId(1), &vec![TaskId(3)]),
        Err(TaskError::CyclicDependency)
    );
    // a self edge closes a cycle
    assert_eq!(
        adi_tasks::graph::validate_new_edges(&tasks, TaskId(2), &vec![TaskId(2)]),
        Err(TaskError::CyclicDependency)
    );
}

#[test]
fn update_stamps_a_later_time() {
    let mut m = TaskManager::new();
    m.create_task(ct("a", vec![])).unwrap();
    let before = m.get_task(TaskId(1)).unwrap();
    m.update_status(TaskId(1), TaskStatus::InProgress).unwrap();
    let after = m.get_task(TaskId(1)).unwrap();
    assert!(after.updated_at > before.updated_at);
    assert_eq!(after.created_at, before.created_at);
}

#[test]
fn ready_engine_works_on_a_plain_task_list() {
    let mut m = TaskManager::new();
    m.create_task(ct("a", vec![])).unwrap();
    m.create_task(ct("b", vec![1])).unwrap();
    let ready = adi_tasks::ready::ready_tasks(&m.list());
    let ids: Vec<u64> = ready.iter().map(|t| t.id.0).collect();
    assert_eq!(ids, vec![1]);
}

#[test]
fn missing_ids_are_not_found() {
    let mut m = TaskManager::new();
    assert_eq!(
        m.update_status(TaskId(7), TaskStatus::Done),
        Err(TaskError::NotFound)
    );
    assert_eq!(m.delete_task(TaskId(7)), Err(TaskError::NotFound));
    assert_eq!(m.get_task(TaskId(7)), Err(TaskError::NotFound));
}
