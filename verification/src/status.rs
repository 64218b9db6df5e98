//! Status state machine: the closed transition table, its checker, and the
//! external lowercase names of the five states.

use vstd::prelude::*;

use crate::types::{TaskError, TaskStatus};

verus! {

/// The transition table. `Done` and `Cancelled` are terminal: nothing leaves
/// them.
pub open spec fn transition_allowed(from: TaskStatus, to: TaskStatus) -> bool {
    match from {
        TaskStatus::Todo => to == TaskStatus::InProgress || to == TaskStatus::Blocked
            || to == TaskStatus::Cancelled,
        TaskStatus::InProgress => to == TaskStatus::Done || to == TaskStatus::Blocked
            || to == TaskStatus::Cancelled || to == TaskStatus::Todo,
        TaskStatus::Blocked => to == TaskStatus::Todo || to == TaskStatus::InProgress
            || to == TaskStatus::Cancelled,
        TaskStatus::Done => false,
        TaskStatus::Cancelled => false,
    }
}

/// Decides the transition table for a concrete pair of states.
pub fn is_transition_allowed(from: TaskStatus, to: TaskStatus) -> (r: bool)
    ensures
        r == transition_allowed(from, to),
{
    match from {
        TaskStatus::Todo => matches!(
            to,
            TaskStatus::InProgress | TaskStatus::Blocked | TaskStatus::Cancelled
        ),
        TaskStatus::InProgress => matches!(
            to,
            TaskStatus::Done | TaskStatus::Blocked | TaskStatus::Cancelled | TaskStatus::Todo
        ),
        TaskStatus::Blocked => matches!(
            to,
            TaskStatus::Todo | TaskStatus::InProgress | TaskStatus::Cancelled
        ),
        TaskStatus::Done => false,
        TaskStatus::Cancelled => false,
    }
}

/// Validates one status change: the requested state comes back exactly when
/// the table allows it, otherwise the transition is refused.
pub fn transition(current: TaskStatus, requested: TaskStatus) -> (r: Result<
    TaskStatus,
    TaskError,
>)
    ensures
        transition_allowed(current, requested) ==> r == Ok::<TaskStatus, TaskError>(requested),
        !transition_allowed(current, requested) ==> r == Err::<TaskStatus, TaskError>(
            TaskError::InvalidTransition,
        ),
{
    if is_transition_allowed(current, requested) {
        Ok(requested)
    } else {
        Err(TaskError::InvalidTransition)
    }
}

/// The lowercase name a status carries at the external boundary.
pub open spec fn status_name_spec(st: TaskStatus) -> Seq<char> {
    match st {
        TaskStatus::Todo => "todo"@,
        TaskStatus::InProgress => "in_progress"@,
        TaskStatus::Done => "done"@,
        TaskStatus::Blocked => "blocked"@,
        TaskStatus::Cancelled => "cancelled"@,
    }
}

/// Renders a status as its external lowercase name.
pub fn status_name(st: TaskStatus) -> (r: String)
    ensures
        r@ == status_name_spec(st),
{
    match st {
        TaskStatus::Todo => "todo".to_owned(),
        TaskStatus::InProgress => "in_progress".to_owned(),
        TaskStatus::Done => "done".to_owned(),
        TaskStatus::Blocked => "blocked".to_owned(),
        TaskStatus::Cancelled => "cancelled".to_owned(),
    }
}

/// What parsing a status name yields: exactly the five lowercase names are
/// accepted; every other string is a validation error.
pub open spec fn parse_status_spec(s: Seq<char>) -> Result<TaskStatus, TaskError> {
    if s == "todo"@ {
        Ok(TaskStatus::Todo)
    } else if s == "in_progress"@ {
        Ok(TaskStatus::InProgress)
    } else if s == "done"@ {
        Ok(TaskStatus::Done)
    } else if s == "blocked"@ {
        Ok(TaskStatus::Blocked)
    } else if s == "cancelled"@ {
        Ok(TaskStatus::Cancelled)
    } else {
        Err(TaskError::ValidationError)
    }
}

/// Parses an external lowercase status name.
pub fn parse_status(s: &str) -> (r: Result<TaskStatus, TaskError>)
    ensures
        r == parse_status_spec(s@),
{
    let o = s.to_owned();
    if o == "todo".to_owned() {
        Ok(TaskStatus::Todo)
    } else if o == "in_progress".to_owned() {
        Ok(TaskStatus::InProgress)
    } else if o == "done".to_owned() {
        Ok(TaskStatus::Done)
    } else if o == "blocked".to_owned() {
        Ok(TaskStatus::Blocked)
    } else if o == "cancelled".to_owned() {
        Ok(TaskStatus::Cancelled)
    } else {
        Err(TaskError::ValidationError)
    }
}

/// Every status name parses back to the status it names.
pub proof fn lemma_status_name_round_trip(st: TaskStatus)
    ensures
        parse_status_spec(status_name_spec(st)) == Ok::<TaskStatus, TaskError>(st),
{
    reveal_strlit("todo");
    reveal_strlit("in_progress");
    reveal_strlit("done");
    reveal_strlit("blocked");
    reveal_strlit("cancelled");
    assert(("done"@)[0] == 'd');
    assert(("todo"@)[0] == 't');
    assert("done"@ != "todo"@);
    assert(("todo"@).len() == 4);
    assert(("in_progress"@).len() == 11);
    assert(("done"@).len() == 4);
    assert(("blocked"@).len() == 7);
    assert(("cancelled"@).len() == 9);
    match st {
        TaskStatus::Todo => {
            assert(parse_status_spec(status_name_spec(st)) == Ok::<TaskStatus, TaskError>(st));
        },
        TaskStatus::InProgress => {
            assert(parse_status_spec(status_name_spec(st)) == Ok::<TaskStatus, TaskError>(st));
        },
        TaskStatus::Done => {
            assert(parse_status_spec(status_name_spec(st)) == Ok::<TaskStatus, TaskError>(st));
        },
        TaskStatus::Blocked => {
            assert(parse_status_spec(status_name_spec(st)) == Ok::<TaskStatus, TaskError>(st));
        },
        TaskStatus::Cancelled => {
            assert(parse_status_spec(status_name_spec(st)) == Ok::<TaskStatus, TaskError>(st));
        },
    }
}

} // verus!
