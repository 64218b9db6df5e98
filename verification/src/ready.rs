//! Readiness engine: a task is ready exactly when it is `Todo` and every
//! one of its dependencies is `Done`; the ready view lists those tasks in
//! ascending id order.

use vstd::prelude::*;

use crate::graph::{dependencies_satisfied, deps_satisfied};
use crate::manager::{ids_sorted, TaskManager};
use crate::types::{task_views, Task, TaskStatus, TaskView};

verus! {

/// Eligible for work now: status `Todo`, every dependency `Done`.
pub open spec fn is_ready(s: Seq<TaskView>, t: TaskView) -> bool {
    t.status == TaskStatus::Todo && deps_satisfied(s, t)
}

/// The ready tasks, in store order: exactly the ready ones, ascending id.
pub open spec fn ready_view(s: Seq<TaskView>) -> Seq<TaskView> {
    s.filter(|t: TaskView| is_ready(s, t))
}

/// The tasks carrying the given status, in store order.
pub open spec fn by_status_view(s: Seq<TaskView>, st: TaskStatus) -> Seq<TaskView> {
    s.filter(|t: TaskView| t.status == st)
}

/// Every element a filter keeps comes from the filtered sequence.
proof fn lemma_filter_subset(s: Seq<TaskView>, pred: spec_fn(TaskView) -> bool)
    ensures
        forall|i: int|
            0 <= i < s.filter(pred).len() ==> s.contains(#[trigger] s.filter(pred)[i]),
    decreases s.len(),
{
    reveal(Seq::filter);
    if s.len() > 0 {
        let sub = s.drop_last();
        lemma_filter_subset(sub, pred);
        assert forall|i: int|
            0 <= i < s.filter(pred).len() implies s.contains(#[trigger] s.filter(pred)[i]) by {
            if pred(s.last()) && i == s.filter(pred).len() - 1 {
                assert(s[s.len() - 1] == s.filter(pred)[i]);
            } else {
                assert(s.filter(pred)[i] == sub.filter(pred)[i]);
                assert(sub.contains(sub.filter(pred)[i]));
                let w = choose|w: int| 0 <= w < sub.len() && sub[w] == sub.filter(pred)[i];
                assert(s[w] == sub.filter(pred)[i]);
            }
        }
    }
}

/// Filtering keeps the ascending id order.
pub proof fn lemma_filter_sorted(s: Seq<TaskView>, pred: spec_fn(TaskView) -> bool)
    requires
        ids_sorted(s),
    ensures
        ids_sorted(s.filter(pred)),
    decreases s.len(),
{
    reveal(Seq::filter);
    if s.len() > 0 {
        let sub = s.drop_last();
        assert forall|i: int, j: int|
            #![trigger sub[i].id, sub[j].id]
            0 <= i < j < sub.len() implies sub[i].id.0 < sub[j].id.0 by {
            assert(sub[i] == s[i] && sub[j] == s[j]);
        }
        lemma_filter_sorted(sub, pred);
        lemma_filter_subset(sub, pred);
        let f = s.filter(pred);
        assert forall|i: int, j: int|
            #![trigger f[i].id, f[j].id]
            0 <= i < j < f.len() implies f[i].id.0 < f[j].id.0 by {
            let fs = sub.filter(pred);
            if pred(s.last()) && j == f.len() - 1 {
                assert(f[i] == fs[i]);
                assert(sub.contains(fs[i]));
                let w = choose|w: int| 0 <= w < sub.len() && sub[w] == fs[i];
                assert(s[w].id.0 < s[s.len() - 1].id.0);
            } else {
                assert(f[i] == fs[i] && f[j] == fs[j]);
            }
        }
    }
}

/// The tasks eligible for work now, drawn from the given task list:
/// exactly those with status `Todo` whose every dependency is `Done`, in
/// list order.
pub fn ready_tasks(tasks: &Vec<Task>) -> (r: Vec<Task>)
    ensures
        task_views(r@) == ready_view(task_views(tasks@)),
        ids_sorted(task_views(tasks@)) ==> ids_sorted(task_views(r@)),
{
    let ghost s = task_views(tasks@);
    let ghost pred = |t: TaskView| is_ready(s, t);
    let mut r: Vec<Task> = Vec::new();
    proof {
        reveal(Seq::filter);
        assert(task_views(r@) =~= s.take(0).filter(pred));
    }
    let mut i: usize = 0;
    while i < tasks.len()
        invariant
            i <= tasks@.len(),
            s == task_views(tasks@),
            pred == (|t: TaskView| is_ready(s, t)),
            task_views(r@) == s.take(i as int).filter(pred),
        decreases tasks@.len() - i,
    {
        let ghost prev = r@;
        let hit = tasks[i].status == TaskStatus::Todo && dependencies_satisfied(
            tasks,
            &tasks[i],
        );
        if hit {
            let t = tasks[i].clone();
            proof {
                assert(t@ == s[i as int]);
            }
            r.push(t);
        }
        proof {
            reveal(Seq::filter);
            assert(s.take(i as int + 1).drop_last() =~= s.take(i as int));
            assert(s.take(i as int + 1).last() == s[i as int]);
            if hit {
                assert(is_ready(s, s[i as int]));
                assert(s.take(i as int + 1).filter(pred) == s.take(i as int).filter(pred).push(
                    s[i as int],
                ));
                assert(task_views(r@) =~= task_views(prev).push(s[i as int]));
                assert(task_views(r@) =~= s.take(i as int + 1).filter(pred));
            } else {
                assert(!pred(s[i as int]));
                assert(s.take(i as int + 1).filter(pred) == s.take(i as int).filter(pred));
            }
        }
        i = i + 1;
    }
    proof {
        assert(s.take(s.len() as int) =~= s);
        if ids_sorted(s) {
            lemma_filter_sorted(s, pred);
        }
    }
    r
}

impl TaskManager {
    /// The tasks eligible for work now: exactly those with status `Todo`
    /// whose every dependency is `Done`, in ascending id order.
    pub fn get_ready(&self) -> (r: Vec<Task>)
        requires
            self.wf(),
        ensures
            task_views(r@) == ready_view(self@.tasks),
            ids_sorted(task_views(r@)),
    {
        ready_tasks(&self.tasks)
    }

    /// The tasks carrying the given status, in ascending id order.
    pub fn list_by_status(&self, st: TaskStatus) -> (r: Vec<Task>)
        ensures
            task_views(r@) == by_status_view(self@.tasks, st),
    {
        let ghost s = self@.tasks;
        let ghost pred = |t: TaskView| t.status == st;
        let mut r: Vec<Task> = Vec::new();
        proof {
            reveal(Seq::filter);
            assert(task_views(r@) =~= s.take(0).filter(pred));
        }
        let mut i: usize = 0;
        while i < self.tasks.len()
            invariant
                i <= self.tasks@.len(),
                s == self@.tasks,
                pred == (|t: TaskView| t.status == st),
                task_views(r@) == s.take(i as int).filter(pred),
            decreases self.tasks@.len() - i,
        {
            let ghost prev = r@;
            let hit = self.tasks[i].status == st;
            if hit {
                let t = self.tasks[i].clone();
                proof {
                    assert(t@ == s[i as int]);
                }
                r.push(t);
            }
            proof {
                reveal(Seq::filter);
                assert(s.take(i as int + 1).drop_last() =~= s.take(i as int));
                assert(s.take(i as int + 1).last() == s[i as int]);
                if hit {
                    assert(s.take(i as int + 1).filter(pred) == s.take(i as int).filter(pred).push(
                        s[i as int],
                    ));
                    assert(task_views(r@) =~= task_views(prev).push(s[i as int]));
                    assert(task_views(r@) =~= s.take(i as int + 1).filter(pred));
                } else {
                    assert(!pred(s[i as int]));
                    assert(s.take(i as int + 1).filter(pred) == s.take(i as int).filter(pred));
                }
            }
            i = i + 1;
        }
        proof {
            assert(s.take(s.len() as int) =~= s);
        }
        r
    }
}

} // verus!
