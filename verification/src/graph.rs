//! Dependency graph: the edge relation over `depends_on`, reachability along
//! edges, the proof that the store invariant keeps the graph acyclic, and
//! the queries the facade builds on (edge validation, satisfied
//! dependencies, dependents).

use vstd::prelude::*;

use crate::manager::{deps_ok, find_index, ids_sorted};
use crate::types::{all_deps_exist, has_id, idx_of, lemma_idx_of, task_views, Task, TaskId, TaskStatus, TaskView};

verus! {

/// A directed edge: the task carrying `a` lists `b` among its dependencies.
pub open spec fn edge(s: Seq<TaskView>, a: TaskId, b: TaskId) -> bool {
    exists|i: int| 0 <= i < s.len() && s[i].id == a && s[i].depends_on.contains(b)
}

/// A walk along dependency edges, given by the ids it visits in order.
pub open spec fn is_dep_path(s: Seq<TaskView>, p: Seq<TaskId>) -> bool {
    p.len() >= 1 && forall|i: int| 0 <= i < p.len() - 1 ==> edge(s, #[trigger] p[i], p[i + 1])
}

/// `b` can be reached from `a` by following dependency edges; every id
/// reaches itself.
pub open spec fn reaches(s: Seq<TaskView>, a: TaskId, b: TaskId) -> bool {
    exists|p: Seq<TaskId>| is_dep_path(s, p) && p.first() == a && p.last() == b
}

/// No walk of at least one edge returns to its starting id.
pub open spec fn acyclic(s: Seq<TaskView>) -> bool {
    forall|p: Seq<TaskId>| #[trigger] is_dep_path(s, p) && p.len() >= 2 ==> p.first() != p.last()
}

/// Along an edge the id strictly drops: edges always point at earlier
/// tasks.
pub proof fn lemma_edge_decreases(s: Seq<TaskView>, a: TaskId, b: TaskId)
    requires
        deps_ok(s),
        edge(s, a, b),
    ensures
        b.0 < a.0,
{
    let i = choose|i: int| 0 <= i < s.len() && s[i].id == a && s[i].depends_on.contains(b);
    let k = choose|k: int| 0 <= k < s[i].depends_on.len() && s[i].depends_on[k] == b;
    assert(s[i].depends_on[k].0 < s[i].id.0);
}

/// Along a walk the id drops from start to end, strictly so once the walk
/// takes at least one edge.
pub proof fn lemma_path_decreases(s: Seq<TaskView>, p: Seq<TaskId>)
    requires
        deps_ok(s),
        is_dep_path(s, p),
    ensures
        p.last().0 <= p.first().0,
        p.len() >= 2 ==> p.last().0 < p.first().0,
    decreases p.len(),
{
    if p.len() >= 2 {
        assert(edge(s, p[0], p[1]));
        lemma_edge_decreases(s, p[0], p[1]);
        let q = p.subrange(1, p.len() as int);
        assert forall|i: int| 0 <= i < q.len() - 1 implies edge(s, #[trigger] q[i], q[i + 1]) by {
            assert(q[i] == p[i + 1] && q[i + 1] == p[i + 2]);
            assert(edge(s, p[i + 1], p[i + 2]));
        }
        lemma_path_decreases(s, q);
        assert(q.last() == p.last() && q.first() == p[1]);
    }
}

/// The store invariant keeps the dependency graph acyclic: since every edge
/// points at a strictly smaller id, no walk of one or more edges can return
/// to its starting id.
pub proof fn lemma_wf_acyclic(s: Seq<TaskView>)
    requires
        deps_ok(s),
    ensures
        acyclic(s),
{
    assert forall|p: Seq<TaskId>| #[trigger] is_dep_path(s, p) && p.len() >= 2 implies p.first()
        != p.last() by {
        lemma_path_decreases(s, p);
    }
}

/// An id strictly above every id in the store is reachable from no stored
/// id but itself: proposed edges out of a fresh task can close no cycle.
pub proof fn lemma_fresh_unreachable(s: Seq<TaskView>, from: TaskId, fresh: TaskId)
    requires
        deps_ok(s),
        from.0 < fresh.0,
    ensures
        !reaches(s, from, fresh),
{
    if reaches(s, from, fresh) {
        let p = choose|p: Seq<TaskId>| is_dep_path(s, p) && p.first() == from && p.last() == fresh;
        lemma_path_decreases(s, p);
    }
}

/// A well-formed manager's dependency graph is acyclic: the second half of
/// the store invariant is exactly what the walk argument needs.
pub proof fn lemma_manager_acyclic(m: crate::manager::ManagerView)
    requires
        crate::manager::store_ok(m),
    ensures
        acyclic(m.tasks),
{
    lemma_wf_acyclic(m.tasks);
}

/// The dependency carrying `id` is satisfied: that task exists and is
/// `Done`.
pub open spec fn dep_done(s: Seq<TaskView>, id: TaskId) -> bool {
    has_id(s, id) && s[idx_of(s, id)].status == TaskStatus::Done
}

/// Every dependency of `t` is satisfied.
pub open spec fn deps_satisfied(s: Seq<TaskView>, t: TaskView) -> bool {
    forall|k: int| 0 <= k < t.depends_on.len() ==> dep_done(s, #[trigger] t.depends_on[k])
}

/// Decides whether every dependency of `t` names a stored task with status
/// `Done`.
pub fn dependencies_satisfied(tasks: &Vec<Task>, t: &Task) -> (r: bool)
    ensures
        r == deps_satisfied(task_views(tasks@), t@),
{
    let ghost s = task_views(tasks@);
    let mut k: usize = 0;
    while k < t.depends_on.len()
        invariant
            k <= t.depends_on@.len(),
            s == task_views(tasks@),
            forall|j: int| 0 <= j < k ==> dep_done(s, #[trigger] t.depends_on@[j]),
        decreases t.depends_on@.len() - k,
    {
        match find_index(tasks, t.depends_on[k]) {
            None => {
                proof {
                    assert(t@.depends_on[k as int] == t.depends_on@[k as int]);
                    assert(!dep_done(s, t@.depends_on[k as int]));
                    assert(!deps_satisfied(s, t@));
                }
                return false;
            },
            Some(i) => {
                if !(tasks[i].status == TaskStatus::Done) {
                    proof {
                        assert(s[idx_of(s, t.depends_on@[k as int])].status != TaskStatus::Done);
                        assert(t@.depends_on[k as int] == t.depends_on@[k as int]);
                        assert(!dep_done(s, t@.depends_on[k as int]));
                        assert(!deps_satisfied(s, t@));
                    }
                    return false;
                }
            },
        }
        k = k + 1;
    }
    true
}

/// The ids of the tasks that directly depend on `id`, in ascending order.
pub open spec fn dependent_ids(s: Seq<TaskView>, id: TaskId) -> Seq<TaskId> {
    s.filter(|t: TaskView| t.depends_on.contains(id)).map_values(|t: TaskView| t.id)
}

/// Collects the ids of the tasks whose dependency set mentions `id`.
pub fn dependents_of(tasks: &Vec<Task>, id: TaskId) -> (r: Vec<TaskId>)
    ensures
        r@ == dependent_ids(task_views(tasks@), id),
{
    let ghost s = task_views(tasks@);
    let ghost pred = |t: TaskView| t.depends_on.contains(id);
    let mut r: Vec<TaskId> = Vec::new();
    proof {
        reveal(Seq::filter);
        assert(r@ =~= s.take(0).filter(pred).map_values(|t: TaskView| t.id));
    }
    let mut i: usize = 0;
    while i < tasks.len()
        invariant
            i <= tasks@.len(),
            s == task_views(tasks@),
            pred == (|t: TaskView| t.depends_on.contains(id)),
            r@ == s.take(i as int).filter(pred).map_values(|t: TaskView| t.id),
        decreases tasks@.len() - i,
    {
        let ghost prev = r@;
        let hit = deps_contain(&tasks[i], id);
        if hit {
            r.push(tasks[i].id);
        }
        proof {
            reveal(Seq::filter);
            assert(s.take(i as int + 1).drop_last() =~= s.take(i as int));
            assert(s.take(i as int + 1).last() == s[i as int]);
            if hit {
                assert(s.take(i as int + 1).filter(pred) == s.take(i as int).filter(pred).push(
                    s[i as int],
                ));
                assert(r@ =~= s.take(i as int + 1).filter(pred).map_values(|t: TaskView| t.id));
            } else {
                assert(s.take(i as int + 1).filter(pred) == s.take(i as int).filter(pred));
            }
        }
        i = i + 1;
    }
    proof {
        assert(s.take(s.len() as int) =~= s);
    }
    r
}

/// Decides whether an id list mentions `id`.
fn id_in(v: &Vec<TaskId>, id: TaskId) -> (r: bool)
    ensures
        r == v@.contains(id),
{
    let mut k: usize = 0;
    while k < v.len()
        invariant
            k <= v@.len(),
            forall|j: int| 0 <= j < k ==> v@[j] != id,
        decreases v@.len() - k,
    {
        if v[k] == id {
            return true;
        }
        k = k + 1;
    }
    false
}

/// Decides whether a task's dependency set mentions `id`.
fn deps_contain(t: &Task, id: TaskId) -> (r: bool)
    ensures
        r == t@.depends_on.contains(id),
{
    let mut k: usize = 0;
    while k < t.depends_on.len()
        invariant
            k <= t.depends_on@.len(),
            forall|j: int| 0 <= j < k ==> t.depends_on@[j] != id,
        decreases t.depends_on@.len() - k,
    {
        if t.depends_on[k] == id {
            return true;
        }
        k = k + 1;
    }
    false
}

/// Validates a proposed dependency edge set for the task carrying
/// `task_id`: every target must exist, and no target may already reach
/// `task_id` along existing edges, which is exactly when adding the edges
/// would close a cycle.
pub fn validate_new_edges(tasks: &Vec<Task>, task_id: TaskId, proposed: &Vec<TaskId>) -> (r:
    Result<(), crate::types::TaskError>)
    requires
        ids_sorted(task_views(tasks@)),
        deps_ok(task_views(tasks@)),
    ensures
        ({
            let s = task_views(tasks@);
            match r {
                Ok(()) => all_deps_exist(s, proposed@) && forall|k: int|
                    0 <= k < proposed@.len() ==> !reaches(s, #[trigger] proposed@[k], task_id),
                Err(e) => {
                    ||| {
                        &&& e == crate::types::TaskError::UnknownDependency
                        &&& !all_deps_exist(s, proposed@)
                    }
                    ||| {
                        &&& e == crate::types::TaskError::CyclicDependency
                        &&& all_deps_exist(s, proposed@)
                        &&& exists|k: int|
                            0 <= k < proposed@.len() && reaches(s, #[trigger] proposed@[k], task_id)
                    }
                },
            }
        }),
{
    let ghost s = task_views(tasks@);
    let mut k: usize = 0;
    while k < proposed.len()
        invariant
            k <= proposed@.len(),
            s == task_views(tasks@),
            forall|j: int| 0 <= j < k ==> has_id(s, #[trigger] proposed@[j]),
        decreases proposed@.len() - k,
    {
        if find_index(tasks, proposed[k]).is_none() {
            return Err(crate::types::TaskError::UnknownDependency);
        }
        k = k + 1;
    }
    let reach = reaching_ids(tasks, task_id);
    let mut k2: usize = 0;
    while k2 < proposed.len()
        invariant
            k2 <= proposed@.len(),
            s == task_views(tasks@),
            ids_sorted(s),
            deps_ok(s),
            all_deps_exist(s, proposed@),
            reach@ == reaching_spec(s, task_id),
            forall|j: int| 0 <= j < k2 ==> !reaches(s, #[trigger] proposed@[j], task_id),
        decreases proposed@.len() - k2,
    {
        let d = proposed[k2];
        let mut hit = d == task_id;
        proof {
            if d == task_id {
                let p = seq![d];
                assert(is_dep_path(s, p) && p.first() == d && p.last() == task_id);
                assert(reaches(s, d, task_id));
            }
            lemma_reaching_spec(s, task_id, proposed@[k2 as int]);
        }
        if !hit {
            hit = id_in(&reach, d);
        }
        if hit {
            return Err(crate::types::TaskError::CyclicDependency);
        }
        k2 = k2 + 1;
    }
    Ok(())
}

/// The stored ids from which `to` is reachable, in store order.
pub open spec fn reaching_spec(s: Seq<TaskView>, to: TaskId) -> Seq<TaskId> {
    s.filter(|t: TaskView| reaches(s, t.id, to)).map_values(|t: TaskView| t.id)
}

/// Membership in `reaching_spec` decides reachability for any id other than
/// `to` itself.
pub proof fn lemma_reaching_spec(s: Seq<TaskView>, to: TaskId, d: TaskId)
    requires
        ids_sorted(s),
        deps_ok(s),
        has_id(s, d),
    ensures
        d == to || (reaching_spec(s, to).contains(d) <==> reaches(s, d, to)),
{
    if d != to {
        broadcast use vstd::seq_lib::group_filter_ensures;

        let pred = |t: TaskView| reaches(s, t.id, to);
        let f = s.filter(pred);
        let w = choose|w: int| 0 <= w < s.len() && s[w].id == d;
        if reaches(s, d, to) {
            assert(pred(s[w]));
            assert(f.contains(s[w]));
            let j = choose|j: int| 0 <= j < f.len() && f[j] == s[w];
            assert(reaching_spec(s, to)[j] == d);
            assert(reaching_spec(s, to).contains(d));
        }
        if reaching_spec(s, to).contains(d) {
            let j = choose|j: int| 0 <= j < reaching_spec(s, to).len() && reaching_spec(s, to)[j]
                == d;
            assert(f[j].id == d);
            assert(pred(f[j]));
        }
    }
}

/// Collects the ids of the stored tasks from which `to` is reachable, by one
/// ascending pass: every dependency points at an earlier task, so each
/// task's reachability is decided by the tasks before it.
fn reaching_ids(tasks: &Vec<Task>, to: TaskId) -> (r: Vec<TaskId>)
    requires
        ids_sorted(task_views(tasks@)),
        deps_ok(task_views(tasks@)),
    ensures
        r@ == reaching_spec(task_views(tasks@), to),
{
    let ghost s = task_views(tasks@);
    let ghost pred = |t: TaskView| reaches(s, t.id, to);
    let mut r: Vec<TaskId> = Vec::new();
    proof {
        reveal(Seq::filter);
        assert(r@ =~= s.take(0).filter(pred).map_values(|t: TaskView| t.id));
    }
    let mut i: usize = 0;
    while i < tasks.len()
        invariant
            i <= tasks@.len(),
            s == task_views(tasks@),
            ids_sorted(s),
            deps_ok(s),
            pred == (|t: TaskView| reaches(s, t.id, to)),
            r@ == s.take(i as int).filter(pred).map_values(|t: TaskView| t.id),
            forall|j: int| 0 <= j < i ==> (reaches(s, (#[trigger] s[j]).id, to) <==> r@.contains(
                s[j].id,
            )),
            forall|j: int| #![trigger r@[j]] 0 <= j < r@.len() ==> exists|w: int|
                0 <= w < i && s[w].id == r@[j],
        decreases tasks@.len() - i,
    {
        let ghost prev = r@;
        let t = &tasks[i];
        let mut hit = t.id == to;
        proof {
            if hit {
                let p = seq![s[i as int].id];
                assert(is_dep_path(s, p) && p.first() == s[i as int].id && p.last() == to);
                assert(reaches(s, s[i as int].id, to));
            }
        }
        let mut k: usize = 0;
        while k < t.depends_on.len()
            invariant
                k <= t.depends_on@.len(),
                i < tasks@.len(),
                s == task_views(tasks@),
                ids_sorted(s),
                deps_ok(s),
                t@ == s[i as int],
                prev == r@,
                hit ==> reaches(s, s[i as int].id, to),
                forall|j: int| 0 <= j < i ==> (reaches(s, (#[trigger] s[j]).id, to)
                    <==> r@.contains(s[j].id)),
                !hit ==> s[i as int].id != to && forall|j: int|
                    0 <= j < k ==> !reaches(s, #[trigger] s[i as int].depends_on[j], to),
            decreases t.depends_on@.len() - k,
        {
            if !hit {
                let ghost d = s[i as int].depends_on[k as int];
                proof {
                    assert(has_id(s, s[i as int].depends_on[k as int]));
                    assert(d.0 < s[i as int].id.0);
                }
                let ghost w = choose|w: int| 0 <= w < s.len() && s[w].id == d;
                proof {
                    lemma_id_before(s, i as int, w);
                }
                if id_in(&r, t.depends_on[k]) {
                    proof {
                        assert(r@.contains(s[w].id));
                        assert(reaches(s, d, to));
                        assert(edge(s, s[i as int].id, d)) by {
                            assert(s[i as int].depends_on[k as int] == d);
                            assert(s[i as int].depends_on.contains(d));
                        }
                        lemma_reaches_step(s, s[i as int].id, d, to);
                    }
                    hit = true;
                } else {
                    proof {
                        assert(!r@.contains(s[w].id));
                        assert(!reaches(s, d, to));
                    }
                }
            }
            k = k + 1;
        }
        proof {
            if !hit {
                lemma_not_reaching(s, i as int, to);
            }
        }
        if hit {
            r.push(t.id);
        }
        proof {
            reveal(Seq::filter);
            assert(s.take(i as int + 1).drop_last() =~= s.take(i as int));
            assert(s.take(i as int + 1).last() == s[i as int]);
            if hit {
                assert(pred(s[i as int]));
                assert(s.take(i as int + 1).filter(pred) == s.take(i as int).filter(pred).push(
                    s[i as int],
                ));
                assert(r@ =~= s.take(i as int + 1).filter(pred).map_values(|t2: TaskView| t2.id));
                assert forall|j: int| 0 <= j < i + 1 implies (reaches(
                    s,
                    (#[trigger] s[j]).id,
                    to,
                ) <==> r@.contains(s[j].id)) by {
                    if j < i {
                        if reaches(s, s[j].id, to) {
                            let j2 = choose|j2: int| 0 <= j2 < prev.len() && prev[j2] == s[j].id;
                            assert(r@[j2] == s[j].id);
                        }
                        if r@.contains(s[j].id) {
                            let j2 = choose|j2: int| 0 <= j2 < r@.len() && r@[j2] == s[j].id;
                            if j2 < prev.len() {
                                assert(prev[j2] == s[j].id);
                            } else {
                                assert(s[j].id == s[i as int].id);
                                lemma_ids_injective(s, j, i as int);
                            }
                        }
                    } else {
                        assert(r@[r@.len() - 1] == s[i as int].id);
                    }
                }
            } else {
                assert(s.take(i as int + 1).filter(pred) == s.take(i as int).filter(pred));
                assert forall|j: int| 0 <= j < i + 1 implies (reaches(
                    s,
                    (#[trigger] s[j]).id,
                    to,
                ) <==> r@.contains(s[j].id)) by {
                    if j == i {
                        if r@.contains(s[j].id) {
                            let j2 = choose|j2: int| 0 <= j2 < r@.len() && r@[j2] == s[j].id;
                            let w = choose|w: int| 0 <= w < i && s[w].id == r@[j2];
                            lemma_ids_injective(s, w, i as int);
                        }
                    }
                }
            }
        }
        i = i + 1;
    }
    proof {
        assert(s.take(s.len() as int) =~= s);
    }
    r
}

/// Two positions carrying the same id are the same position.
proof fn lemma_ids_injective(s: Seq<TaskView>, i: int, j: int)
    requires
        ids_sorted(s),
        0 <= i < s.len(),
        0 <= j < s.len(),
        s[i].id == s[j].id,
    ensures
        i == j,
{
    if i < j {
        assert(s[i].id.0 < s[j].id.0);
    }
    if j < i {
        assert(s[j].id.0 < s[i].id.0);
    }
}

/// A dependency's task sits earlier in the store than the task that lists
/// it.
proof fn lemma_id_before(s: Seq<TaskView>, i: int, w: int)
    requires
        ids_sorted(s),
        0 <= i < s.len(),
        0 <= w < s.len(),
        s[w].id.0 < s[i].id.0,
    ensures
        w < i,
{
    if w >= i {
        if w == i {
        } else {
            assert(s[i].id.0 < s[w].id.0);
        }
    }
}

/// Prepending an edge to a walk keeps it a walk: reachability steps through
/// edges.
proof fn lemma_reaches_step(s: Seq<TaskView>, a: TaskId, b: TaskId, c: TaskId)
    requires
        edge(s, a, b),
        reaches(s, b, c),
    ensures
        reaches(s, a, c),
{
    let p = choose|p: Seq<TaskId>| is_dep_path(s, p) && p.first() == b && p.last() == c;
    let q = seq![a] + p;
    assert forall|i: int| 0 <= i < q.len() - 1 implies edge(s, #[trigger] q[i], q[i + 1]) by {
        if i == 0 {
            assert(q[0] == a && q[1] == p[0]);
        } else {
            assert(q[i] == p[i - 1] && q[i + 1] == p[i]);
            assert(edge(s, p[i - 1], p[i]));
        }
    }
    assert(is_dep_path(s, q) && q.first() == a && q.last() == c);
}

/// A task that is not the target and none of whose dependencies reach the
/// target does not reach it: the first step of any walk is one of its
/// dependencies.
proof fn lemma_not_reaching(s: Seq<TaskView>, i: int, to: TaskId)
    requires
        ids_sorted(s),
        0 <= i < s.len(),
        s[i].id != to,
        forall|k: int|
            0 <= k < s[i].depends_on.len() ==> !reaches(s, #[trigger] s[i].depends_on[k], to),
    ensures
        !reaches(s, s[i].id, to),
{
    if reaches(s, s[i].id, to) {
        let p = choose|p: Seq<TaskId>|
            is_dep_path(s, p) && p.first() == s[i].id && p.last() == to;
        assert(p.len() >= 2);
        assert(edge(s, p[0], p[1]));
        let w = choose|w: int| 0 <= w < s.len() && s[w].id == p[0] && s[w].depends_on.contains(
            p[1],
        );
        lemma_ids_injective(s, w, i);
        let k = choose|k: int| 0 <= k < s[i].depends_on.len() && s[i].depends_on[k] == p[1];
        let q = p.subrange(1, p.len() as int);
        assert forall|j: int| 0 <= j < q.len() - 1 implies edge(s, #[trigger] q[j], q[j + 1]) by {
            assert(q[j] == p[j + 1] && q[j + 1] == p[j + 2]);
            assert(edge(s, p[j + 1], p[j + 2]));
        }
        assert(is_dep_path(s, q) && q.first() == p[1] && q.last() == to);
        assert(reaches(s, p[1], to));
        assert(!reaches(s, s[i].depends_on[k], to));
    }
}

} // verus!
