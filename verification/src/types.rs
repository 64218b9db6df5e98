//! Core data types: task identifiers, statuses, task records and the error
//! taxonomy shared by every operation of the engine.

use vstd::prelude::*;

verus! {

/// Opaque task identifier: assigned by the manager, strictly increasing in
/// creation order, never reused after deletion.
#[derive(Clone, Copy, Debug, PartialEq, Eq, Structural)]
pub struct TaskId(pub u64);

/// The closed set of task states.
#[derive(Clone, Copy, Debug, PartialEq, Eq, Structural)]
pub enum TaskStatus {
    Todo,
    InProgress,
    Done,
    Blocked,
    Cancelled,
}

/// Why an operation was refused. Every failure leaves the task set unchanged.
#[derive(Clone, Copy, Debug, PartialEq, Eq, Structural)]
pub enum TaskError {
    /// Malformed input, such as an empty title or an unknown status name.
    ValidationError,
    /// The referenced task id does not exist.
    NotFound,
    /// A proposed dependency id does not exist.
    UnknownDependency,
    /// A proposed dependency edge would close a cycle.
    CyclicDependency,
    /// The requested status change is not in the transition table.
    InvalidTransition,
    /// Deletion refused while other tasks depend on this one.
    HasDependents,
    /// The backing store failed or is exhausted.
    IoFailure,
}

/// A stored unit of work.
#[derive(Debug, PartialEq, Eq)]
pub struct Task {
    pub id: TaskId,
    pub title: String,
    pub description: Option<String>,
    pub symbol_id: Option<String>,
    pub status: TaskStatus,
    pub depends_on: Vec<TaskId>,
    pub created_at: u64,
    pub updated_at: u64,
}

/// Transient input consumed by task creation.
#[derive(Debug)]
pub struct CreateTask {
    pub title: String,
    pub description: Option<String>,
    pub symbol_id: Option<String>,
    pub depends_on: Vec<TaskId>,
}

/// Mathematical image of a creation request.
pub struct CreateTaskView {
    pub title: Seq<char>,
    pub description: Option<Seq<char>>,
    pub symbol_id: Option<Seq<char>>,
    pub depends_on: Seq<TaskId>,
}

impl View for CreateTask {
    type V = CreateTaskView;

    open spec fn view(&self) -> CreateTaskView {
        CreateTaskView {
            title: self.title@,
            description: match self.description {
                Some(d) => Some(d@),
                None => None,
            },
            symbol_id: match self.symbol_id {
                Some(s) => Some(s@),
                None => None,
            },
            depends_on: self.depends_on@,
        }
    }
}

/// Mathematical image of a stored task: strings as character sequences.
pub struct TaskView {
    pub id: TaskId,
    pub title: Seq<char>,
    pub description: Option<Seq<char>>,
    pub symbol_id: Option<Seq<char>>,
    pub status: TaskStatus,
    pub depends_on: Seq<TaskId>,
    pub created_at: u64,
    pub updated_at: u64,
}

impl View for Task {
    type V = TaskView;

    open spec fn view(&self) -> TaskView {
        TaskView {
            id: self.id,
            title: self.title@,
            description: match self.description {
                Some(d) => Some(d@),
                None => None,
            },
            symbol_id: match self.symbol_id {
                Some(s) => Some(s@),
                None => None,
            },
            status: self.status,
            depends_on: self.depends_on@,
            created_at: self.created_at,
            updated_at: self.updated_at,
        }
    }
}

impl Clone for Task {
    /// Cloning preserves the task's mathematical image.
    fn clone(&self) -> (r: Task)
        ensures
            r@ == self@,
    {
        Task {
            id: self.id,
            title: self.title.clone(),
            description: match &self.description {
                Some(d) => Some(d.clone()),
                None => None,
            },
            symbol_id: match &self.symbol_id {
                Some(s) => Some(s.clone()),
                None => None,
            },
            status: self.status,
            depends_on: clone_ids(&self.depends_on),
            created_at: self.created_at,
            updated_at: self.updated_at,
        }
    }
}

/// Copies a dependency list element by element.
fn clone_ids(v: &Vec<TaskId>) -> (r: Vec<TaskId>)
    ensures
        r@ == v@,
{
    let mut r: Vec<TaskId> = Vec::new();
    proof {
        assert(r@ =~= v@.take(0));
    }
    let mut i: usize = 0;
    while i < v.len()
        invariant
            i <= v.len(),
            r@ == v@.take(i as int),
        decreases v.len() - i,
    {
        r.push(v[i]);
        proof {
            assert(r@ =~= v@.take(i as int + 1));
        }
        i = i + 1;
    }
    proof {
        assert(r@ =~= v@);
    }
    r
}

/// The mathematical image of a whole task list.
pub open spec fn task_views(s: Seq<Task>) -> Seq<TaskView> {
    s.map_values(|t: Task| t@)
}

/// Whether some task in the sequence carries the given id.
pub open spec fn has_id(s: Seq<TaskView>, id: TaskId) -> bool {
    exists|i: int| 0 <= i < s.len() && s[i].id == id
}

/// Index of the first task carrying the given id, or -1 when there is none.
pub open spec fn idx_of(s: Seq<TaskView>, id: TaskId) -> int
    decreases s.len(),
{
    if s.len() == 0 {
        -1
    } else if s[0].id == id {
        0
    } else {
        let r = idx_of(s.subrange(1, s.len() as int), id);
        if r == -1 {
            -1
        } else {
            r + 1
        }
    }
}

/// `idx_of` finds an id exactly when some task carries it, and then points at
/// the first such task.
pub proof fn lemma_idx_of(s: Seq<TaskView>, id: TaskId)
    ensures
        idx_of(s, id) == -1 <==> !has_id(s, id),
        idx_of(s, id) != -1 ==> 0 <= idx_of(s, id) < s.len() && s[idx_of(s, id)].id == id,
        forall|j: int| 0 <= j < idx_of(s, id) ==> s[j].id != id,
    decreases s.len(),
{
    if s.len() == 0 {
    } else if s[0].id == id {
    } else {
        let tail = s.subrange(1, s.len() as int);
        lemma_idx_of(tail, id);
        assert forall|i: int| 1 <= i < s.len() implies s[i] == tail[i - 1] by {}
        if has_id(s, id) {
            let w = choose|i: int| 0 <= i < s.len() && s[i].id == id;
            assert(tail[w - 1].id == id);
            assert(has_id(tail, id));
        }
        if has_id(tail, id) {
            let w = choose|i: int| 0 <= i < tail.len() && tail[i].id == id;
            assert(s[w + 1].id == id);
            assert(has_id(s, id));
        }
    }
}

/// Whether every proposed dependency id exists in the sequence.
pub open spec fn all_deps_exist(s: Seq<TaskView>, deps: Seq<TaskId>) -> bool {
    forall|k: int| 0 <= k < deps.len() ==> has_id(s, #[trigger] deps[k])
}

/// Whether some task's dependency set mentions the given id.
pub open spec fn has_dependents(s: Seq<TaskView>, id: TaskId) -> bool {
    exists|i: int, k: int|
        0 <= i < s.len() && 0 <= k < s[i].depends_on.len() && s[i].depends_on[k] == id
}

} // verus!
