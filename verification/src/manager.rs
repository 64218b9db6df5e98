//! The task manager facade: an id-ordered task store with strictly
//! increasing ids, a logical clock for timestamps, and the create / get /
//! list / update / delete operations, each preserving the store invariants.

use vstd::prelude::*;

use crate::status::{transition, transition_allowed};
use crate::types::{
    all_deps_exist, has_dependents, has_id, idx_of, lemma_idx_of, task_views,
    CreateTask, CreateTaskView, Task, TaskError, TaskId, TaskStatus, TaskView,
};

verus! {

/// Task ids strictly increase with position: the list is ordered by id and
/// ids are unique.
pub open spec fn ids_sorted(s: Seq<TaskView>) -> bool {
    forall|i: int, j: int|
        #![trigger s[i].id, s[j].id]
        0 <= i < j < s.len() ==> s[i].id.0 < s[j].id.0
}

/// Every stored id lies below the id counter: fresh ids are never in use.
pub open spec fn ids_below(s: Seq<TaskView>, bound: u64) -> bool {
    forall|i: int| 0 <= i < s.len() ==> (#[trigger] s[i]).id.0 < bound
}

/// Timestamps never run ahead of the logical clock, and no task was updated
/// before it was created.
pub open spec fn times_ok(s: Seq<TaskView>, clock: u64) -> bool {
    forall|i: int|
        0 <= i < s.len() ==> (#[trigger] s[i]).updated_at <= clock && s[i].created_at
            <= s[i].updated_at
}

/// Every stored title is non-empty.
pub open spec fn titles_ok(s: Seq<TaskView>) -> bool {
    forall|i: int| 0 <= i < s.len() ==> (#[trigger] s[i]).title.len() > 0
}

/// Every dependency edge points at an existing task with a strictly smaller
/// id: no dangling edges, and edges always point backwards in creation
/// order.
pub open spec fn deps_ok(s: Seq<TaskView>) -> bool {
    forall|i: int, k: int|
        #![trigger s[i].depends_on[k]]
        0 <= i < s.len() && 0 <= k < s[i].depends_on.len() ==> s[i].depends_on[k].0 < s[i].id.0
            && has_id(s, s[i].depends_on[k])
}

/// Mathematical image of the whole manager.
#[verifier::ext_equal]
pub struct ManagerView {
    pub tasks: Seq<TaskView>,
    pub next_id: u64,
    pub clock: u64,
}

/// The store invariant: holds after construction and after every operation.
pub open spec fn store_ok(m: ManagerView) -> bool {
    &&& ids_sorted(m.tasks)
    &&& ids_below(m.tasks, m.next_id)
    &&& m.next_id >= 1
    &&& times_ok(m.tasks, m.clock)
    &&& titles_ok(m.tasks)
    &&& deps_ok(m.tasks)
}

/// The task manager: the id-ordered task list, the next id to assign, and
/// the logical clock that stamps mutations.
#[derive(Debug)]
pub struct TaskManager {
    pub tasks: Vec<Task>,
    pub next_id: u64,
    pub clock: u64,
}

impl View for TaskManager {
    type V = ManagerView;

    open spec fn view(&self) -> ManagerView {
        ManagerView { tasks: task_views(self.tasks@), next_id: self.next_id, clock: self.clock }
    }
}

/// The record a creation request produces: the next free id, status `Todo`,
/// and both timestamps at the advanced clock.
pub open spec fn created_view(m: ManagerView, c: CreateTaskView) -> TaskView {
    TaskView {
        id: TaskId(m.next_id),
        title: c.title,
        description: c.description,
        symbol_id: c.symbol_id,
        status: TaskStatus::Todo,
        depends_on: c.depends_on,
        created_at: (m.clock + 1) as u64,
        updated_at: (m.clock + 1) as u64,
    }
}

/// The record a status change produces: only the status and the update
/// timestamp move.
pub open spec fn with_status(t: TaskView, st: TaskStatus, ts: u64) -> TaskView {
    TaskView {
        id: t.id,
        title: t.title,
        description: t.description,
        symbol_id: t.symbol_id,
        status: st,
        depends_on: t.depends_on,
        created_at: t.created_at,
        updated_at: ts,
    }
}

/// Finds the position of the task carrying `id`, if any.
pub(crate) fn find_index(tasks: &Vec<Task>, id: TaskId) -> (r: Option<usize>)
    ensures
        match r {
            Some(i) => 0 <= i < tasks@.len() && idx_of(task_views(tasks@), id) == i && has_id(
                task_views(tasks@),
                id,
            ) && task_views(tasks@)[i as int].id == id,
            None => !has_id(task_views(tasks@), id),
        },
{
    let ghost s = task_views(tasks@);
    let mut i: usize = 0;
    while i < tasks.len()
        invariant
            i <= tasks@.len(),
            s == task_views(tasks@),
            forall|j: int| 0 <= j < i ==> s[j].id != id,
        decreases tasks@.len() - i,
    {
        if tasks[i].id == id {
            proof {
                assert(s[i as int].id == id);
                lemma_idx_of(s, id);
                let r = idx_of(s, id);
                assert(has_id(s, id));
                if r < i {
                    assert(s[r].id != id);
                }
            }
            return Some(i);
        }
        i = i + 1;
    }
    proof {
        lemma_idx_of(s, id);
        if has_id(s, id) {
            let w = choose|w: int| 0 <= w < s.len() && s[w].id == id;
            assert(s[w].id != id);
        }
    }
    None
}

impl TaskManager {
    /// The store invariant, at the level of the manager value.
    pub open spec fn wf(self) -> bool {
        store_ok(self@)
    }

    /// A fresh, empty manager: ids start at 1, the clock at 0.
    pub fn new() -> (r: TaskManager)
        ensures
            r.wf(),
            r@.tasks.len() == 0,
            r@.next_id == 1,
            r@.clock == 0,
    {
        TaskManager { tasks: Vec::new(), next_id: 1, clock: 0 }
    }

    /// Point lookup: the task carrying `id`, or `NotFound`.
    pub fn get_task(&self, id: TaskId) -> (r: Result<Task, TaskError>)
        ensures
            match r {
                Ok(t) => has_id(self@.tasks, id) && t@ == self@.tasks[idx_of(self@.tasks, id)],
                Err(e) => e == TaskError::NotFound && !has_id(self@.tasks, id),
            },
    {
        match find_index(&self.tasks, id) {
            Some(i) => Ok(self.tasks[i].clone()),
            None => Err(TaskError::NotFound),
        }
    }

    /// Full enumeration, in store order: ascending id.
    pub fn list(&self) -> (r: Vec<Task>)
        ensures
            task_views(r@) == self@.tasks,
    {
        let mut r: Vec<Task> = Vec::new();
        proof {
            assert(task_views(r@) =~= self@.tasks.take(0));
        }
        let mut i: usize = 0;
        while i < self.tasks.len()
            invariant
                i <= self.tasks@.len(),
                task_views(r@) == self@.tasks.take(i as int),
            decreases self.tasks@.len() - i,
        {
            let ghost prev = r@;
            let t = self.tasks[i].clone();
            proof {
                assert(t@ == self@.tasks[i as int]);
            }
            r.push(t);
            proof {
                assert(r@ == prev.push(t));
                assert forall|j: int| 0 <= j < i + 1 implies task_views(r@)[j] == self@.tasks.take(
                    i as int + 1,
                )[j] by {
                    assert(task_views(prev).len() == prev.len());
                    assert(prev.len() == i as int);
                    if j < i {
                        assert(r@[j] == prev[j]);
                        assert(task_views(r@)[j] == prev[j]@);
                        assert(task_views(prev)[j] == prev[j]@);
                        assert(task_views(prev)[j] == self@.tasks.take(i as int)[j]);
                        assert(self@.tasks.take(i as int)[j] == self@.tasks[j]);
                        assert(self@.tasks.take(i as int + 1)[j] == self@.tasks[j]);
                    } else {
                        assert(j == i);
                        assert(r@[j] == t);
                        assert(task_views(r@)[j] == t@);
                        assert(self@.tasks.take(i as int + 1)[j] == self@.tasks[j]);
                    }
                }
                assert(task_views(prev).len() == prev.len());
                assert(prev.len() == i as int);
                assert(task_views(r@).len() == r@.len());
                assert(r@.len() == i as int + 1);
                assert(self@.tasks.take(i as int + 1).len() == i as int + 1);
                assert(task_views(r@) =~= self@.tasks.take(i as int + 1));
            }
            i = i + 1;
        }
        proof {
            assert(self@.tasks.take(self.tasks@.len() as int) =~= self@.tasks);
        }
        r
    }

    /// Creates a task: validates the title and the proposed dependency
    /// edges, then persists a `Todo` record under the next free id.
    ///
    /// Edges may only point at existing tasks, whose ids are strictly below
    /// the fresh id, so no creation can close a dependency cycle.
    pub fn create_task(&mut self, c: CreateTask) -> (r: Result<TaskId, TaskError>)
        requires
            old(self).wf(),
            old(self)@.next_id < u64::MAX,
            old(self)@.clock < u64::MAX,
        ensures
            final(self).wf(),
            c@.title.len() == 0 ==> r == Err::<TaskId, TaskError>(TaskError::ValidationError)
                && final(self)@ == old(self)@,
            c@.title.len() > 0 && !all_deps_exist(old(self)@.tasks, c@.depends_on) ==> r == Err::<
                TaskId,
                TaskError,
            >(TaskError::UnknownDependency) && final(self)@ == old(self)@,
            c@.title.len() > 0 && all_deps_exist(old(self)@.tasks, c@.depends_on) ==> {
                &&& r == Ok::<TaskId, TaskError>(TaskId(old(self)@.next_id))
                &&& final(self)@.tasks == old(self)@.tasks.push(
                    created_view(old(self)@, c@),
                )
                &&& final(self)@.next_id == old(self)@.next_id + 1
                &&& final(self)@.clock == old(self)@.clock + 1
            },
    {
        if c.title.as_str().is_empty() {
            return Err(TaskError::ValidationError);
        }
        let ghost s0 = self@.tasks;
        match crate::graph::validate_new_edges(&self.tasks, TaskId(self.next_id), &c.depends_on) {
            Err(e) => {
                proof {
                    if e == TaskError::CyclicDependency {
                        let k = choose|k: int|
                            0 <= k < c.depends_on@.len() && crate::graph::reaches(
                                s0,
                                c.depends_on@[k],
                                TaskId(old(self)@.next_id),
                            );
                        assert(has_id(s0, c.depends_on@[k]));
                        let w = choose|w: int| 0 <= w < s0.len() && s0[w].id == c.depends_on@[k];
                        assert(s0[w].id.0 < old(self)@.next_id);
                        crate::graph::lemma_fresh_unreachable(
                            s0,
                            c.depends_on@[k],
                            TaskId(old(self)@.next_id),
                        );
                    }
                }
                return Err(e);
            },
            Ok(()) => {},
        }
        let id = self.next_id;
        let ts = self.clock + 1;
        let t = Task {
            id: TaskId(id),
            title: c.title,
            description: c.description,
            symbol_id: c.symbol_id,
            status: TaskStatus::Todo,
            depends_on: c.depends_on,
            created_at: ts,
            updated_at: ts,
        };
        self.tasks.push(t);
        self.next_id = id + 1;
        self.clock = ts;
        proof {
            let nv = created_view(old(self)@, c@);
            let s1 = self@.tasks;
            assert(s1 =~= s0.push(nv));
            assert forall|i: int, j: int|
                #![trigger s1[i].id, s1[j].id]
                0 <= i < j < s1.len() implies s1[i].id.0 < s1[j].id.0 by {
                if j == s1.len() - 1 {
                    assert(s1[i] == s0[i]);
                    assert(s0[i].id.0 < old(self)@.next_id);
                } else {
                    assert(s1[i] == s0[i] && s1[j] == s0[j]);
                }
            }
            assert forall|i: int, k2: int|
                #![trigger s1[i].depends_on[k2]]
                0 <= i < s1.len() && 0 <= k2 < s1[i].depends_on.len() implies s1[i].depends_on[k2].0
                < s1[i].id.0 && has_id(s1, s1[i].depends_on[k2]) by {
                if i < s1.len() - 1 {
                    assert(s1[i] == s0[i]);
                    let d = s0[i].depends_on[k2];
                    assert(d.0 < s0[i].id.0 && has_id(s0, d));
                    let w = choose|w: int| 0 <= w < s0.len() && s0[w].id == d;
                    assert(s1[w] == s0[w]);
                    assert(has_id(s1, d));
                } else {
                    let d = c@.depends_on[k2];
                    assert(has_id(s0, d));
                    let w = choose|w: int| 0 <= w < s0.len() && s0[w].id == d;
                    assert(s0[w].id.0 < old(self)@.next_id);
                    assert(s1[w] == s0[w]);
                    assert(has_id(s1, d));
                }
            }
            assert(self.wf());
        }
        Ok(TaskId(id))
    }

    /// Changes a task's status through the transition table and stamps the
    /// update; anything the table refuses leaves the task untouched.
    pub fn update_status(&mut self, id: TaskId, new_status: TaskStatus) -> (r: Result<
        (),
        TaskError,
    >)
        requires
            old(self).wf(),
            old(self)@.clock < u64::MAX,
        ensures
            final(self).wf(),
            !has_id(old(self)@.tasks, id) ==> r == Err::<(), TaskError>(TaskError::NotFound)
                && final(self)@ == old(self)@,
            has_id(old(self)@.tasks, id) && !transition_allowed(
                old(self)@.tasks[idx_of(old(self)@.tasks, id)].status,
                new_status,
            ) ==> r == Err::<(), TaskError>(TaskError::InvalidTransition) && final(self)@ == old(
                self,
            )@,
            has_id(old(self)@.tasks, id) && transition_allowed(
                old(self)@.tasks[idx_of(old(self)@.tasks, id)].status,
                new_status,
            ) ==> {
                &&& r == Ok::<(), TaskError>(())
                &&& final(self)@.tasks == old(self)@.tasks.update(
                    idx_of(old(self)@.tasks, id),
                    with_status(
                        old(self)@.tasks[idx_of(old(self)@.tasks, id)],
                        new_status,
                        (old(self)@.clock + 1) as u64,
                    ),
                )
                &&& final(self)@.next_id == old(self)@.next_id
                &&& final(self)@.clock == old(self)@.clock + 1
            },
    {
        let ghost s0 = self@.tasks;
        match find_index(&self.tasks, id) {
            None => Err(TaskError::NotFound),
            Some(i) => {
                let current = self.tasks[i].status;
                match transition(current, new_status) {
                    Err(e) => Err(e),
                    Ok(st) => {
                        let ts = self.clock + 1;
                        self.tasks[i].status = st;
                        self.tasks[i].updated_at = ts;
                        self.clock = ts;
                        proof {
                            let nv = with_status(s0[i as int], new_status, ts);
                            let s1 = self@.tasks;
                            assert(s1 =~= s0.update(i as int, nv));
                            assert forall|p: int, q: int|
                                #![trigger s1[p].id, s1[q].id]
                                0 <= p < q < s1.len() implies s1[p].id.0 < s1[q].id.0 by {
                                assert(s1[p].id == s0[p].id && s1[q].id == s0[q].id);
                            }
                            assert forall|p: int, k2: int|
                                #![trigger s1[p].depends_on[k2]]
                                0 <= p < s1.len() && 0 <= k2 < s1[p].depends_on.len() implies s1[
                                p
                            ].depends_on[k2].0 < s1[p].id.0 && has_id(s1, s1[p].depends_on[k2]) by {
                                assert(s1[p].depends_on == s0[p].depends_on);
                                let d = s0[p].depends_on[k2];
                                assert(d.0 < s0[p].id.0 && has_id(s0, d));
                                let w = choose|w: int| 0 <= w < s0.len() && s0[w].id == d;
                                assert(s1[w].id == s0[w].id);
                                assert(has_id(s1, d));
                            }
                            assert(self.wf());
                        }
                        Ok(())
                    },
                }
            },
        }
    }

    /// Deletes a task, unless other tasks still depend on it: the store
    /// never holds a dangling edge, so a referenced task cannot go away.
    pub fn delete_task(&mut self, id: TaskId) -> (r: Result<(), TaskError>)
        requires
            old(self).wf(),
        ensures
            final(self).wf(),
            !has_id(old(self)@.tasks, id) ==> r == Err::<(), TaskError>(TaskError::NotFound)
                && final(self)@ == old(self)@,
            has_id(old(self)@.tasks, id) && has_dependents(old(self)@.tasks, id) ==> r == Err::<
                (),
                TaskError,
            >(TaskError::HasDependents) && final(self)@ == old(self)@,
            has_id(old(self)@.tasks, id) && !has_dependents(old(self)@.tasks, id) ==> {
                &&& r == Ok::<(), TaskError>(())
                &&& final(self)@.tasks == old(self)@.tasks.remove(idx_of(old(self)@.tasks, id))
                &&& final(self)@.next_id == old(self)@.next_id
                &&& final(self)@.clock == old(self)@.clock
            },
    {
        let ghost s0 = self@.tasks;
        match find_index(&self.tasks, id) {
            None => Err(TaskError::NotFound),
            Some(i) => {
                if any_dependent(&self.tasks, id) {
                    Err(TaskError::HasDependents)
                } else {
                    self.tasks.remove(i);
                    proof {
                        let s1 = self@.tasks;
                        assert(s1 =~= s0.remove(i as int));
                        assert forall|p: int, q: int|
                            #![trigger s1[p].id, s1[q].id]
                            0 <= p < q < s1.len() implies s1[p].id.0 < s1[q].id.0 by {
                            let p0: int = if p < i { p } else { p + 1 };
                            let q0: int = if q < i { q } else { q + 1 };
                            assert(s1[p] == s0[p0] && s1[q] == s0[q0]);
                            assert(s0[p0].id.0 < s0[q0].id.0);
                        }
                        assert forall|p: int, k2: int|
                            #![trigger s1[p].depends_on[k2]]
                            0 <= p < s1.len() && 0 <= k2 < s1[p].depends_on.len() implies s1[
                            p
                        ].depends_on[k2].0 < s1[p].id.0 && has_id(s1, s1[p].depends_on[k2]) by {
                            let p0: int = if p < i { p } else { p + 1 };
                            assert(s1[p] == s0[p0]);
                            let d = s0[p0].depends_on[k2];
                            assert(d.0 < s0[p0].id.0 && has_id(s0, d));
                            assert(s0[p0].depends_on.contains(d));
                            assert(!has_dependents(s0, id));
                            assert(d != id) by {
                                if d == id {
                                    assert(s0[p0].depends_on[k2] == id);
                                }
                            }
                            let w = choose|w: int| 0 <= w < s0.len() && s0[w].id == d;
                            assert(w != i);
                            let w1: int = if w < i { w } else { w - 1 };
                            assert(s1[w1] == s0[w]);
                            assert(has_id(s1, d));
                        }
                        assert(self.wf());
                    }
                    Ok(())
                }
            },
        }
    }
}

/// Ids returned by future creations are fresh: the id the counter will
/// assign next is not carried by any stored task, and every stored id lies
/// strictly below it. Together with the creation contract this makes created
/// ids unique and strictly increasing over any sequence of creations.
pub proof fn lemma_next_id_fresh(m: ManagerView)
    requires
        store_ok(m),
    ensures
        !has_id(m.tasks, TaskId(m.next_id)),
        forall|i: int| 0 <= i < m.tasks.len() ==> (#[trigger] m.tasks[i]).id.0 < m.next_id,
{
    if has_id(m.tasks, TaskId(m.next_id)) {
        let w = choose|w: int| 0 <= w < m.tasks.len() && m.tasks[w].id == TaskId(m.next_id);
        assert(m.tasks[w].id.0 < m.next_id);
    }
}

/// Whether any task's dependency set mentions `id`.
fn any_dependent(tasks: &Vec<Task>, id: TaskId) -> (r: bool)
    ensures
        r == has_dependents(task_views(tasks@), id),
{
    let ghost s = task_views(tasks@);
    let mut i: usize = 0;
    while i < tasks.len()
        invariant
            i <= tasks@.len(),
            s == task_views(tasks@),
            forall|j: int, k: int|
                #![trigger s[j].depends_on[k]]
                0 <= j < i && 0 <= k < s[j].depends_on.len() ==> s[j].depends_on[k] != id,
        decreases tasks@.len() - i,
    {
        let mut k: usize = 0;
        let deps_len = tasks[i].depends_on.len();
        while k < deps_len
            invariant
                k <= s[i as int].depends_on.len(),
                deps_len == s[i as int].depends_on.len(),
                i < tasks@.len(),
                s == task_views(tasks@),
                forall|k2: int| 0 <= k2 < k ==> s[i as int].depends_on[k2] != id,
            decreases deps_len - k,
        {
            if tasks[i].depends_on[k] == id {
                return true;
            }
            k = k + 1;
        }
        i = i + 1;
    }
    false
}

} // verus!
