//! Tasks and the task graph: dependency edges, the completion set, a ready
//! queue ordered by priority, and a limit on concurrently running tasks.

use vstd::prelude::*;

use crate::meta::ComputeContext;

verus! {

/// Identifier of a task.
#[derive(Debug, Clone, Copy, PartialEq, Eq, Hash, Structural)]
pub struct TaskId(pub u64);

impl TaskId {
    pub fn new(id: u64) -> (r: Self)
        ensures
            r.0 == id,
    {
        TaskId(id)
    }

    pub fn as_u64(&self) -> (r: u64)
        ensures
            r == self.0,
    {
        self.0
    }
}

/// Execution state of a task.
#[derive(Debug, Clone, Copy, PartialEq, Eq, Structural)]
pub enum TaskStatus {
    Pending,
    Ready,
    Running,
    Completed,
    Failed,
    Cancelled,
}

/// Scheduling priority of a task; higher runs first.
#[derive(Debug, Clone, Copy, PartialEq, Eq, Structural)]
pub enum TaskPriority {
    Low,
    Normal,
    High,
    Critical,
}

/// Order of priorities: `Low < Normal < High < Critical`.
pub open spec fn priority_rank(p: TaskPriority) -> u8 {
    match p {
        TaskPriority::Low => 0,
        TaskPriority::Normal => 1,
        TaskPriority::High => 2,
        TaskPriority::Critical => 3,
    }
}

impl TaskPriority {
    pub fn rank(&self) -> (r: u8)
        ensures
            r == priority_rank(*self),
    {
        match self {
            TaskPriority::Low => 0,
            TaskPriority::Normal => 1,
            TaskPriority::High => 2,
            TaskPriority::Critical => 3,
        }
    }

    pub fn from_rank(r: u8) -> (p: Option<TaskPriority>)
        ensures
            p matches Some(q) ==> priority_rank(q) == r,
            p is None <==> r > 3,
    {
        match r {
            0 => Some(TaskPriority::Low),
            1 => Some(TaskPriority::Normal),
            2 => Some(TaskPriority::High),
            3 => Some(TaskPriority::Critical),
            _ => None,
        }
    }
}

/// One scheduled invocation of a module. The module is the one named by
/// `context.module_id`.
#[derive(Debug, Clone)]
pub struct Task {
    pub id: TaskId,
    pub context: ComputeContext,
    pub dependencies: Vec<TaskId>,
    pub status: TaskStatus,
    pub priority: TaskPriority,
}

impl Task {
    /// A pending task of normal priority without dependencies.
    pub fn new(id: TaskId, context: ComputeContext) -> (r: Self)
        ensures
            r.id == id && r.context == context,
            r.dependencies@.len() == 0,
            r.status == TaskStatus::Pending,
            r.priority == TaskPriority::Normal,
    {
        Task {
            id,
            context,
            dependencies: Vec::new(),
            status: TaskStatus::Pending,
            priority: TaskPriority::Normal,
        }
    }

    pub fn with_dependencies(self, deps: Vec<TaskId>) -> (r: Self)
        ensures
            r.dependencies@ == deps@,
            r.id == self.id && r.context == self.context,
            r.status == self.status && r.priority == self.priority,
    {
        Task { dependencies: deps, ..self }
    }

    pub fn with_priority(self, priority: TaskPriority) -> (r: Self)
        ensures
            r.priority == priority,
            r.dependencies@ == self.dependencies@,
            r.id == self.id && r.context == self.context && r.status == self.status,
    {
        Task { priority, ..self }
    }

    /// Whether every dependency is among `completed`.
    pub fn dependencies_satisfied(&self, completed: &[TaskId]) -> (r: bool)
        ensures
            r == (forall|j: int| 0 <= j < self.dependencies@.len()
                ==> completed@.contains(#[trigger] self.dependencies@[j])),
    {
        let n = self.dependencies.len();
        let mut j: usize = 0;
        while j < n
            invariant
                n == self.dependencies@.len(),
                0 <= j <= n,
                forall|k: int| 0 <= k < j ==> completed@.contains(#[trigger] self.dependencies@[k]),
            decreases n - j,
        {
            let d = self.dependencies[j];
            let m = completed.len();
            let mut k: usize = 0;
            let mut found = false;
            while k < m && !found
                invariant
                    m == completed@.len(),
                    0 <= k <= m,
                    found ==> completed@.contains(d),
                    !found ==> forall|x: int| 0 <= x < k ==> completed@[x] != d,
                decreases m - k + if found { 0int } else { 1int },
            {
                if completed[k] == d {
                    found = true;
                    assert(completed@[k as int] == d);
                } else {
                    k += 1;
                }
            }
            if !found {
                assert(!completed@.contains(self.dependencies@[j as int]));
                return false;
            }
            j += 1;
        }
        true
    }

    pub fn module_id(&self) -> (r: u32)
        ensures
            r == self.context.module_id,
    {
        self.context.module_id
    }
}

/// Fluent construction of a task.
pub struct TaskBuilder {
    id: Option<TaskId>,
    context: Option<ComputeContext>,
    dependencies: Vec<TaskId>,
    priority: TaskPriority,
}

/// What a task builder is missing.
#[derive(Debug, Clone, Copy, PartialEq, Eq, Structural)]
pub enum BuildError {
    MissingId,
    MissingContext,
}

impl TaskBuilder {
    pub closed spec fn parts(&self) -> (Option<TaskId>, Option<ComputeContext>, Seq<TaskId>, TaskPriority) {
        (self.id, self.context, self.dependencies@, self.priority)
    }

    pub fn new() -> (r: Self)
        ensures
            r.parts() == (None::<TaskId>, None::<ComputeContext>, Seq::<TaskId>::empty(), TaskPriority::Normal),
    {
        TaskBuilder { id: None, context: None, dependencies: Vec::new(), priority: TaskPriority::Normal }
    }

    pub fn id(self, id: TaskId) -> (r: Self)
        ensures
            r.parts() == (Some(id), self.parts().1, self.parts().2, self.parts().3),
    {
        TaskBuilder { id: Some(id), ..self }
    }

    pub fn context(self, context: ComputeContext) -> (r: Self)
        ensures
            r.parts() == (self.parts().0, Some(context), self.parts().2, self.parts().3),
    {
        TaskBuilder { context: Some(context), ..self }
    }

    pub fn depends_on(self, task_id: TaskId) -> (r: Self)
        ensures
            r.parts() == (self.parts().0, self.parts().1, self.parts().2.push(task_id), self.parts().3),
    {
        let mut b = self;
        b.dependencies.push(task_id);
        b
    }

    pub fn priority(self, priority: TaskPriority) -> (r: Self)
        ensures
            r.parts() == (self.parts().0, self.parts().1, self.parts().2, priority),
    {
        TaskBuilder { priority, ..self }
    }

    /// A pending task; the id and the context must have been given.
    pub fn build(self) -> (r: Result<Task, BuildError>)
        ensures
            self.parts().0 is None ==> r == Err::<Task, BuildError>(BuildError::MissingId),
            self.parts().0 is Some && self.parts().1 is None ==> r == Err::<Task, BuildError>(BuildError::MissingContext),
            r matches Ok(t) ==> Some(t.id) == self.parts().0 && Some(t.context) == self.parts().1
                && t.dependencies@ == self.parts().2 && t.priority == self.parts().3
                && t.status == TaskStatus::Pending,
            self.parts().0 is Some && self.parts().1 is Some ==> r is Ok,
    {
        let id = match self.id {
            Some(id) => id,
            None => return Err(BuildError::MissingId),
        };
        let context = match self.context {
            Some(c) => c,
            None => return Err(BuildError::MissingContext),
        };
        Ok(Task::new(id, context).with_dependencies(self.dependencies).with_priority(self.priority))
    }
}

/// Number of tasks with status `st`.
pub open spec fn count_status(ts: Seq<Task>, st: TaskStatus) -> nat
    decreases ts.len(),
{
    if ts.len() == 0 {
        0
    } else {
        count_status(ts.drop_last(), st) + if ts.last().status == st {
            1nat
        } else {
            0nat
        }
    }
}

pub proof fn lemma_count_status_update(ts: Seq<Task>, i: int, t: Task, st: TaskStatus)
    requires
        0 <= i < ts.len(),
    ensures
        count_status(ts.update(i, t), st) + (if ts[i].status == st { 1int } else { 0int })
            == count_status(ts, st) + (if t.status == st { 1int } else { 0int }),
    decreases ts.len(),
{
    if i == ts.len() - 1 {
        assert(ts.update(i, t).drop_last() =~= ts.drop_last());
    } else {
        lemma_count_status_update(ts.drop_last(), i, t, st);
        assert(ts.update(i, t).drop_last() =~= ts.drop_last().update(i, t));
    }
}

pub proof fn lemma_count_status_bound(ts: Seq<Task>, st: TaskStatus)
    ensures
        count_status(ts, st) <= ts.len(),
    decreases ts.len(),
{
    if ts.len() > 0 {
        lemma_count_status_bound(ts.drop_last(), st);
    }
}

/// Some running task of `ts` has context `c`.
pub open spec fn is_running_context(ts: Seq<Task>, c: ComputeContext) -> bool {
    exists|p: int| 0 <= p < ts.len() && (#[trigger] ts[p]).status == TaskStatus::Running && ts[p].context == c
}

/// Some task of `ts` has id `id` and is completed.
pub open spec fn id_completed(ts: Seq<Task>, id: TaskId) -> bool {
    exists|k: int| 0 <= k < ts.len() && (#[trigger] ts[k]).id == id && ts[k].status == TaskStatus::Completed
}

/// Every dependency of `t` is a completed task of `ts`.
pub open spec fn deps_completed(ts: Seq<Task>, t: Task) -> bool {
    forall|j: int| 0 <= j < t.dependencies@.len() ==> id_completed(ts, #[trigger] t.dependencies@[j])
}

/// The ids of the completed tasks of `ts`.
pub open spec fn completed_ids(ts: Seq<Task>) -> Set<TaskId> {
    Set::new(|id: TaskId| id_completed(ts, id))
}

/// Some task of `ts` has id `id`.
pub open spec fn has_id(ts: Seq<Task>, id: TaskId) -> bool {
    exists|k: int| 0 <= k < ts.len() && (#[trigger] ts[k]).id == id
}

/// Why the graph refused an operation.
#[derive(Debug, Clone, Copy, PartialEq, Eq, Structural)]
pub enum GraphError {
    /// A task with this id is already in the graph.
    DuplicateId,
    /// The task depends on itself.
    Cycle,
    /// A dependency names no task of the graph.
    UnknownDependency,
    /// No task has this id.
    UnknownTask,
    /// The task is not running.
    NotRunning,
    /// The graph holds as many tasks as it can index.
    CapacityExceeded,
}

spec fn deps_done_at(ts: Seq<Task>, deps: Seq<Vec<usize>>, i: int) -> bool {
    forall|j: int| 0 <= j < deps[i]@.len() ==> ts[#[trigger] deps[i]@[j] as int].status == TaskStatus::Completed
}

#[verifier::opaque]
spec fn graph_shape(ts: Seq<Task>, deps: Seq<Vec<usize>>) -> bool {
    &&& deps.len() == ts.len()
    &&& forall|a: int, b: int| 0 <= a < b < ts.len() ==> (#[trigger] ts[a]).id != (#[trigger] ts[b]).id
    &&& forall|i: int| 0 <= i < ts.len() ==> (#[trigger] deps[i])@.len() == ts[i].dependencies@.len()
    &&& forall|i: int, j: int| 0 <= i < ts.len() && 0 <= j < deps[i]@.len()
        ==> (#[trigger] deps[i]@[j]) < i && ts[i].dependencies@[j] == ts[deps[i]@[j] as int].id
}

#[verifier::opaque]
spec fn back_links_in_range(back: Seq<Vec<usize>>, n: int) -> bool {
    &&& back.len() == n
    &&& forall|i: int, j: int| 0 <= i < n && 0 <= j < back[i]@.len() ==> i < (#[trigger] back[i]@[j]) < n
}

#[verifier::opaque]
spec fn back_links_complete(deps: Seq<Vec<usize>>, back: Seq<Vec<usize>>, n: int) -> bool {
    forall|i: int, j: int| 0 <= i < n && 0 <= j < deps[i]@.len()
        ==> back[#[trigger] deps[i]@[j] as int]@.contains(i as usize)
}

#[verifier::opaque]
spec fn queue_matches(ts: Seq<Task>, q: Seq<usize>) -> bool {
    &&& forall|a: int, b: int| 0 <= a < b < q.len() ==> (#[trigger] q[a]) != (#[trigger] q[b])
    &&& forall|k: int| 0 <= k < q.len() ==> (#[trigger] q[k]) < ts.len() && ts[q[k] as int].status == TaskStatus::Ready
    &&& forall|i: int| 0 <= i < ts.len() && (#[trigger] ts[i]).status == TaskStatus::Ready ==> q.contains(i as usize)
}

#[verifier::opaque]
spec fn statuses_match(ts: Seq<Task>, deps: Seq<Vec<usize>>) -> bool {
    &&& forall|i: int| 0 <= i < ts.len() ==> {
        let st = (#[trigger] ts[i]).status;
        (st == TaskStatus::Ready || st == TaskStatus::Running || st == TaskStatus::Completed
            || st == TaskStatus::Failed) ==> deps_done_at(ts, deps, i)
    }
    &&& forall|i: int| 0 <= i < ts.len() && (#[trigger] ts[i]).status == TaskStatus::Pending
        ==> !deps_done_at(ts, deps, i)
}

proof fn lemma_shape_push(ts: Seq<Task>, deps: Seq<Vec<usize>>, t: Task, idx: Vec<usize>)
    requires
        graph_shape(ts, deps),
        !has_id(ts, t.id),
        idx@.len() == t.dependencies@.len(),
        forall|k: int| 0 <= k < idx@.len() ==> (#[trigger] idx@[k]) < ts.len() && ts[idx@[k] as int].id == t.dependencies@[k],
    ensures
        graph_shape(ts.push(t), deps.push(idx)),
{
    reveal(graph_shape);
    let nt = ts.push(t);
    let nd = deps.push(idx);
    assert forall|a: int, b: int| 0 <= a < b < nt.len() implies (#[trigger] nt[a]).id != (#[trigger] nt[b]).id by {
        if b == ts.len() {
            assert(ts[a].id != t.id);
        } else {
            assert(ts[a].id != ts[b].id);
        }
    }
    assert forall|i: int| 0 <= i < nt.len() implies (#[trigger] nd[i])@.len() == nt[i].dependencies@.len() by {
        if i < ts.len() {
            assert(deps[i]@.len() == ts[i].dependencies@.len());
        }
    }
    assert forall|i: int, j: int| 0 <= i < nt.len() && 0 <= j < nd[i]@.len()
        implies (#[trigger] nd[i]@[j]) < i && nt[i].dependencies@[j] == nt[nd[i]@[j] as int].id by {
        if i < ts.len() {
            assert(deps[i]@[j] < i && ts[i].dependencies@[j] == ts[deps[i]@[j] as int].id);
        }
    }
}

proof fn lemma_back_range_push(back: Seq<Vec<usize>>, n: int, e: Vec<usize>)
    requires
        back_links_in_range(back, n),
        e@.len() == 0,
    ensures
        back_links_in_range(back.push(e), n + 1),
{
    reveal(back_links_in_range);
    let nb = back.push(e);
    assert forall|i: int, j: int| 0 <= i < n + 1 && 0 <= j < nb[i]@.len() implies i < (#[trigger] nb[i]@[j]) < n + 1 by {
        assert(nb[i] == back[i]);
    }
}

proof fn lemma_back_complete_push(deps: Seq<Vec<usize>>, back: Seq<Vec<usize>>, idx: Vec<usize>, e: Vec<usize>, n: int)
    requires
        back_links_complete(deps, back, n),
        graph_shape_lens(deps, n),
        deps.len() == n,
        back.len() == n,
    ensures
        forall|i: int, j: int| 0 <= i < n && 0 <= j < deps.push(idx)[i]@.len()
            ==> back.push(e)[#[trigger] deps.push(idx)[i]@[j] as int]@.contains(i as usize),
{
    reveal(back_links_complete);
    let nd = deps.push(idx);
    let nb = back.push(e);
    assert forall|i: int, j: int| 0 <= i < n && 0 <= j < nd[i]@.len()
        implies nb[#[trigger] nd[i]@[j] as int]@.contains(i as usize) by {
        assert(nd[i] == deps[i]);
        assert(deps[i]@[j] < i);
        assert(nb[deps[i]@[j] as int] == back[deps[i]@[j] as int]);
    }
}

/// Dependency positions point to earlier tasks.
spec fn graph_shape_lens(deps: Seq<Vec<usize>>, n: int) -> bool {
    forall|i: int, j: int| 0 <= i < n && 0 <= j < deps[i]@.len() ==> (#[trigger] deps[i]@[j]) < i
}

proof fn lemma_shape_lens(ts: Seq<Task>, deps: Seq<Vec<usize>>)
    requires
        graph_shape(ts, deps),
    ensures
        graph_shape_lens(deps, ts.len() as int),
        deps.len() == ts.len(),
{
    reveal(graph_shape);
}

proof fn lemma_queue_push(ts: Seq<Task>, q: Seq<usize>, t: Task)
    requires
        queue_matches(ts, q),
        ts.len() < usize::MAX,
        t.status == TaskStatus::Ready || t.status == TaskStatus::Pending,
    ensures
        queue_matches(ts.push(t), if t.status == TaskStatus::Ready { q.push(ts.len() as usize) } else { q }),
{
    reveal(queue_matches);
    let nt = ts.push(t);
    let nq = if t.status == TaskStatus::Ready { q.push(ts.len() as usize) } else { q };
    assert forall|k: int| 0 <= k < nq.len() implies (#[trigger] nq[k]) < nt.len() && nt[nq[k] as int].status == TaskStatus::Ready by {
        if k < q.len() {
            assert(q[k] < ts.len());
        }
    }
    assert forall|a: int, b: int| 0 <= a < b < nq.len() implies (#[trigger] nq[a]) != (#[trigger] nq[b]) by {
        if b == q.len() {
            assert(q[a] < ts.len());
        }
    }
    assert forall|i: int| 0 <= i < nt.len() && (#[trigger] nt[i]).status == TaskStatus::Ready implies nq.contains(i as usize) by {
        if i < ts.len() {
            assert(ts[i].status == TaskStatus::Ready);
            assert(q.contains(i as usize));
            let k = choose|k: int| 0 <= k < q.len() && q[k] == i as usize;
            assert(nq[k] == i as usize);
        } else {
            assert(nq[q.len() as int] == i as usize);
        }
    }
}

proof fn lemma_status_push(ts: Seq<Task>, deps: Seq<Vec<usize>>, t: Task, idx: Vec<usize>)
    requires
        statuses_match(ts, deps),
        graph_shape_lens(deps, ts.len() as int),
        deps.len() == ts.len(),
        forall|k: int| 0 <= k < idx@.len() ==> (#[trigger] idx@[k]) < ts.len(),
        t.status == if (forall|k: int| 0 <= k < idx@.len()
            ==> ts[#[trigger] idx@[k] as int].status == TaskStatus::Completed) {
            TaskStatus::Ready
        } else {
            TaskStatus::Pending
        },
    ensures
        statuses_match(ts.push(t), deps.push(idx)),
{
    reveal(statuses_match);
    let nt = ts.push(t);
    let nd = deps.push(idx);
    assert forall|i: int| 0 <= i < ts.len() implies deps_done_at(nt, nd, i) == deps_done_at(ts, deps, i) by {
        assert(nd[i] == deps[i]);
        assert forall|j: int| 0 <= j < deps[i]@.len() implies nt[#[trigger] deps[i]@[j] as int] == ts[deps[i]@[j] as int] by {
            assert(deps[i]@[j] < i);
        }
    }
    assert(deps_done_at(nt, nd, ts.len() as int) == (t.status == TaskStatus::Ready)) by {
        assert(nd[ts.len() as int] == idx);
        assert forall|j: int| 0 <= j < idx@.len() implies nt[#[trigger] idx@[j] as int] == ts[idx@[j] as int] by {
        }
    }
    assert forall|i: int| 0 <= i < nt.len() implies {
        let st = (#[trigger] nt[i]).status;
        (st == TaskStatus::Ready || st == TaskStatus::Running || st == TaskStatus::Completed
            || st == TaskStatus::Failed) ==> deps_done_at(nt, nd, i)
    } by {
        if i < ts.len() {
            assert(nt[i] == ts[i]);
        }
    }
    assert forall|i: int| 0 <= i < nt.len() && (#[trigger] nt[i]).status == TaskStatus::Pending
        implies !deps_done_at(nt, nd, i) by {
        if i < ts.len() {
            assert(nt[i] == ts[i]);
        }
    }
}

/// `t` with status `st`.
pub open spec fn with_status(t: Task, st: TaskStatus) -> Task {
    Task { status: st, ..t }
}

proof fn lemma_shape_status(ts: Seq<Task>, deps: Seq<Vec<usize>>, i: int, st: TaskStatus)
    requires
        graph_shape(ts, deps),
        0 <= i < ts.len(),
    ensures
        graph_shape(ts.update(i, with_status(ts[i], st)), deps),
{
    reveal(graph_shape);
    let nt = ts.update(i, with_status(ts[i], st));
    assert forall|a: int| 0 <= a < ts.len() implies (#[trigger] nt[a]).id == ts[a].id
        && nt[a].dependencies == ts[a].dependencies by {}
    assert forall|a: int, b: int| 0 <= a < b < nt.len() implies (#[trigger] nt[a]).id != (#[trigger] nt[b]).id by {
        assert(ts[a].id != ts[b].id);
    }
    assert forall|x: int| 0 <= x < nt.len() implies (#[trigger] deps[x])@.len() == nt[x].dependencies@.len() by {
        assert(deps[x]@.len() == ts[x].dependencies@.len());
    }
    assert forall|x: int, j: int| 0 <= x < nt.len() && 0 <= j < deps[x]@.len()
        implies (#[trigger] deps[x]@[j]) < x && nt[x].dependencies@[j] == nt[deps[x]@[j] as int].id by {
        assert(deps[x]@[j] < x && ts[x].dependencies@[j] == ts[deps[x]@[j] as int].id);
    }
}

/// A status change that neither makes nor unmakes a completed task keeps
/// every task's dependencies as done or not done as before.
proof fn lemma_status_keep_completed(ts: Seq<Task>, deps: Seq<Vec<usize>>, i: int, st: TaskStatus)
    requires
        statuses_match(ts, deps),
        graph_shape_lens(deps, ts.len() as int),
        deps.len() == ts.len(),
        0 <= i < ts.len(),
        ts[i].status != TaskStatus::Completed,
        st != TaskStatus::Completed,
        (st == TaskStatus::Ready || st == TaskStatus::Running || st == TaskStatus::Failed) ==> deps_done_at(ts, deps, i),
        st == TaskStatus::Pending ==> !deps_done_at(ts, deps, i),
    ensures
        statuses_match(ts.update(i, with_status(ts[i], st)), deps),
{
    reveal(statuses_match);
    let nt = ts.update(i, with_status(ts[i], st));
    assert forall|x: int| 0 <= x < ts.len() implies deps_done_at(nt, deps, x) == deps_done_at(ts, deps, x) by {
        assert forall|j: int| 0 <= j < deps[x]@.len() implies
            (nt[#[trigger] deps[x]@[j] as int].status == TaskStatus::Completed)
            == (ts[deps[x]@[j] as int].status == TaskStatus::Completed) by {
            assert(deps[x]@[j] < x);
        }
    }
    assert forall|x: int| 0 <= x < nt.len() implies {
        let s = (#[trigger] nt[x]).status;
        (s == TaskStatus::Ready || s == TaskStatus::Running || s == TaskStatus::Completed
            || s == TaskStatus::Failed) ==> deps_done_at(nt, deps, x)
    } by {
        if x != i {
            assert(nt[x] == ts[x]);
        }
    }
    assert forall|x: int| 0 <= x < nt.len() && (#[trigger] nt[x]).status == TaskStatus::Pending
        implies !deps_done_at(nt, deps, x) by {
        if x != i {
            assert(nt[x] == ts[x]);
        }
    }
}

/// Removing a queued task from the queue as it leaves the ready state.
proof fn lemma_queue_take(ts: Seq<Task>, q: Seq<usize>, b: int, st: TaskStatus)
    requires
        queue_matches(ts, q),
        ts.len() <= usize::MAX,
        0 <= b < q.len(),
        st != TaskStatus::Ready,
    ensures
        q[b] < ts.len(),
        ts[q[b] as int].status == TaskStatus::Ready,
        queue_matches(ts.update(q[b] as int, with_status(ts[q[b] as int], st)), q.remove(b)),
{
    reveal(queue_matches);
    let i = q[b] as int;
    let nt = ts.update(i, with_status(ts[i], st));
    let nq = q.remove(b);
    assert forall|k: int| 0 <= k < nq.len() implies (#[trigger] nq[k]) < nt.len() && nt[nq[k] as int].status == TaskStatus::Ready by {
        let k0 = if k < b { k } else { k + 1 };
        assert(nq[k] == q[k0]);
        if k0 < b {
            assert(q[k0] != q[b]);
        } else {
            assert(q[b] != q[k0]);
        }
    }
    assert forall|a: int, c: int| 0 <= a < c < nq.len() implies (#[trigger] nq[a]) != (#[trigger] nq[c]) by {
        let a0 = if a < b { a } else { a + 1 };
        let c0 = if c < b { c } else { c + 1 };
        assert(q[a0] != q[c0]);
    }
    assert forall|x: int| 0 <= x < nt.len() && (#[trigger] nt[x]).status == TaskStatus::Ready implies nq.contains(x as usize) by {
        assert(x != i);
        assert(ts[x].status == TaskStatus::Ready);
        assert(q.contains(x as usize));
        let k = choose|k: int| 0 <= k < q.len() && q[k] == x as usize;
        assert(k != b);
        if k < b {
            assert(nq[k] == x as usize);
        } else {
            assert(nq[k - 1] == x as usize);
        }
    }
}

/// A status change between states other than ready leaves the queue valid.
proof fn lemma_queue_keep(ts: Seq<Task>, q: Seq<usize>, i: int, st: TaskStatus)
    requires
        queue_matches(ts, q),
        0 <= i < ts.len(),
        ts[i].status != TaskStatus::Ready,
        st != TaskStatus::Ready,
    ensures
        queue_matches(ts.update(i, with_status(ts[i], st)), q),
{
    reveal(queue_matches);
    let nt = ts.update(i, with_status(ts[i], st));
    assert forall|k: int| 0 <= k < q.len() implies (#[trigger] q[k]) < nt.len() && nt[q[k] as int].status == TaskStatus::Ready by {
        assert(q[k] < ts.len() && ts[q[k] as int].status == TaskStatus::Ready);
    }
    assert forall|x: int| 0 <= x < nt.len() && (#[trigger] nt[x]).status == TaskStatus::Ready implies q.contains(x as usize) by {
        assert(ts[x].status == TaskStatus::Ready);
    }
}

/// A pending task becomes ready and joins the back of the queue.
proof fn lemma_queue_enqueue(ts: Seq<Task>, q: Seq<usize>, i: int)
    requires
        queue_matches(ts, q),
        ts.len() <= usize::MAX,
        0 <= i < ts.len(),
        ts[i].status == TaskStatus::Pending,
    ensures
        queue_matches(ts.update(i, with_status(ts[i], TaskStatus::Ready)), q.push(i as usize)),
{
    reveal(queue_matches);
    let nt = ts.update(i, with_status(ts[i], TaskStatus::Ready));
    let nq = q.push(i as usize);
    assert forall|k: int| 0 <= k < nq.len() implies (#[trigger] nq[k]) < nt.len() && nt[nq[k] as int].status == TaskStatus::Ready by {
        if k < q.len() {
            assert(q[k] < ts.len() && ts[q[k] as int].status == TaskStatus::Ready);
        }
    }
    assert forall|a: int, c: int| 0 <= a < c < nq.len() implies (#[trigger] nq[a]) != (#[trigger] nq[c]) by {
        if c == q.len() {
            assert(ts[q[a] as int].status == TaskStatus::Ready);
        } else {
            assert(q[a] != q[c]);
        }
    }
    assert forall|x: int| 0 <= x < nt.len() && (#[trigger] nt[x]).status == TaskStatus::Ready implies nq.contains(x as usize) by {
        if x == i {
            assert(nq[q.len() as int] == x as usize);
        } else {
            assert(ts[x].status == TaskStatus::Ready);
            assert(q.contains(x as usize));
            let k = choose|k: int| 0 <= k < q.len() && q[k] == x as usize;
            assert(nq[k] == x as usize);
        }
    }
}

/// Position `b` of queue `q` holds a task of the highest priority in the
/// queue, and no earlier position holds one of that priority.
pub open spec fn best_ready(ts: Seq<Task>, q: Seq<usize>, b: int) -> bool {
    &&& 0 <= b < q.len()
    &&& forall|j: int| 0 <= j < q.len() ==> priority_rank(ts[#[trigger] q[j] as int].priority)
        <= priority_rank(ts[q[b] as int].priority)
    &&& forall|j: int| 0 <= j < b ==> priority_rank(ts[#[trigger] q[j] as int].priority)
        < priority_rank(ts[q[b] as int].priority)
}

proof fn lemma_done_same_completed(ts1: Seq<Task>, ts2: Seq<Task>, deps: Seq<Vec<usize>>, x: int)
    requires
        ts1.len() == ts2.len(),
        0 <= x < deps.len(),
        forall|j: int| 0 <= j < deps[x]@.len() ==> (#[trigger] deps[x]@[j]) < ts1.len(),
        forall|p: int| 0 <= p < ts1.len() ==> ((#[trigger] ts1[p]).status == TaskStatus::Completed) == (ts2[p].status == TaskStatus::Completed),
    ensures
        deps_done_at(ts1, deps, x) == deps_done_at(ts2, deps, x),
{
    assert forall|j: int| 0 <= j < deps[x]@.len() implies
        (ts1[#[trigger] deps[x]@[j] as int].status == TaskStatus::Completed) == (ts2[deps[x]@[j] as int].status == TaskStatus::Completed) by {
        assert(deps[x]@[j] < ts1.len());
    }
}

proof fn lemma_done_iff_completed(ts: Seq<Task>, deps: Seq<Vec<usize>>, i: int)
    requires
        graph_shape(ts, deps),
        0 <= i < ts.len(),
    ensures
        deps_done_at(ts, deps, i) <==> deps_completed(ts, ts[i]),
{
    reveal(graph_shape);
    if deps_done_at(ts, deps, i) {
        assert forall|j: int| 0 <= j < ts[i].dependencies@.len()
            implies id_completed(ts, #[trigger] ts[i].dependencies@[j]) by {
            let k = deps[i]@[j] as int;
            assert(ts[k].id == ts[i].dependencies@[j]);
        }
    }
    if deps_completed(ts, ts[i]) {
        assert forall|j: int| 0 <= j < deps[i]@.len()
            implies ts[#[trigger] deps[i]@[j] as int].status == TaskStatus::Completed by {
            let k = deps[i]@[j] as int;
            assert(id_completed(ts, ts[i].dependencies@[j]));
            let w = choose|w: int| 0 <= w < ts.len() && (#[trigger] ts[w]).id == ts[i].dependencies@[j]
                && ts[w].status == TaskStatus::Completed;
            if w != k {
                if w < k {
                    assert(ts[w].id != ts[k].id);
                } else {
                    assert(ts[k].id != ts[w].id);
                }
            }
        }
    }
}

/// Dependency graph of tasks with a ready queue and a concurrency limit.
///
/// Dependencies name tasks added earlier, so the graph is acyclic by
/// construction: the order of insertion is a topological order.
pub struct TaskGraph {
    tasks: Vec<Task>,
    deps_idx: Vec<Vec<usize>>,
    dependents_idx: Vec<Vec<usize>>,
    ready_queue: Vec<usize>,
    completed_count: usize,
    running_count: usize,
    max_concurrent: usize,
}

impl TaskGraph {
    /// The tasks, in the order they were added.
    pub closed spec fn tasks(&self) -> Seq<Task> {
        self.tasks@
    }

    /// Ids of the ready queue, in the order they were queued.
    pub closed spec fn ready_ids(&self) -> Seq<TaskId> {
        self.ready_queue@.map_values(|i: usize| self.tasks@[i as int].id)
    }

    pub closed spec fn max_concurrent(&self) -> nat {
        self.max_concurrent as nat
    }

    /// Number of running tasks.
    pub open spec fn running(&self) -> nat {
        count_status(self.tasks(), TaskStatus::Running)
    }

    /// Every task at a dependency position of task `i` has completed.
    spec fn idx_deps_done(&self, i: int) -> bool {
        deps_done_at(self.tasks@, self.deps_idx@, i)
    }

    /// Ids are unique; dependency edges point to earlier tasks; the ready
    /// queue holds exactly the ready tasks; a task is pending exactly while
    /// some dependency has not completed, and has all of them completed once
    /// it is queued or started; the counters agree with the statuses.
    pub closed spec fn wf(&self) -> bool {
        &&& self.wf_but_links()
        &&& back_links_complete(self.deps_idx@, self.dependents_idx@, self.tasks@.len() as int)
    }

    spec fn wf_but_links(&self) -> bool {
        &&& graph_shape(self.tasks@, self.deps_idx@)
        &&& back_links_in_range(self.dependents_idx@, self.tasks@.len() as int)
        &&& queue_matches(self.tasks@, self.ready_queue@)
        &&& statuses_match(self.tasks@, self.deps_idx@)
        &&& self.completed_count == count_status(self.tasks@, TaskStatus::Completed)
        &&& self.running_count == count_status(self.tasks@, TaskStatus::Running)
    }

    proof fn lemma_deps_done_iff(&self, i: int)
        requires
            self.wf(),
            0 <= i < self.tasks@.len(),
        ensures
            self.idx_deps_done(i) <==> deps_completed(self.tasks@, self.tasks@[i]),
    {
        reveal(graph_shape);
        let ts = self.tasks@;
        if self.idx_deps_done(i) {
            assert forall|j: int| 0 <= j < ts[i].dependencies@.len()
                implies id_completed(ts, #[trigger] ts[i].dependencies@[j]) by {
                let k = self.deps_idx@[i]@[j] as int;
                assert(ts[k].id == ts[i].dependencies@[j]);
            }
        }
        if deps_completed(ts, ts[i]) {
            assert forall|j: int| 0 <= j < self.deps_idx@[i]@.len()
                implies ts[#[trigger] self.deps_idx@[i]@[j] as int].status == TaskStatus::Completed by {
                let k = self.deps_idx@[i]@[j] as int;
                assert(id_completed(ts, ts[i].dependencies@[j]));
                let w = choose|w: int| 0 <= w < ts.len() && (#[trigger] ts[w]).id == ts[i].dependencies@[j]
                    && ts[w].status == TaskStatus::Completed;
                if w != k {
                    if w < k {
                        assert(ts[w].id != ts[k].id);
                    } else {
                        assert(ts[k].id != ts[w].id);
                    }
                }
            }
        }
    }

    /// Every task that is queued or has started (running, completed or
    /// failed) has all of its dependencies completed; every dependency names
    /// an earlier task.
    pub proof fn lemma_graph_invariants(&self)
        requires
            self.wf(),
        ensures
            forall|i: int| 0 <= i < self.tasks().len() ==> {
                let st = (#[trigger] self.tasks()[i]).status;
                (st == TaskStatus::Ready || st == TaskStatus::Running || st == TaskStatus::Completed
                    || st == TaskStatus::Failed) ==> deps_completed(self.tasks(), self.tasks()[i])
            },
            forall|i: int, j: int| 0 <= i < self.tasks().len() && 0 <= j < self.tasks()[i].dependencies@.len()
                ==> exists|k: int| 0 <= k < i && (#[trigger] self.tasks()[k]).id == #[trigger] self.tasks()[i].dependencies@[j],
    {
        reveal(graph_shape);
        reveal(statuses_match);
        assert forall|i: int| 0 <= i < self.tasks().len() implies {
            let st = (#[trigger] self.tasks()[i]).status;
            (st == TaskStatus::Ready || st == TaskStatus::Running || st == TaskStatus::Completed
                || st == TaskStatus::Failed) ==> deps_completed(self.tasks(), self.tasks()[i])
        } by {
            self.lemma_deps_done_iff(i);
        }
        assert forall|i: int, j: int| 0 <= i < self.tasks().len() && 0 <= j < self.tasks()[i].dependencies@.len()
            implies exists|k: int| 0 <= k < i && (#[trigger] self.tasks()[k]).id == #[trigger] self.tasks()[i].dependencies@[j] by {
            let k = self.deps_idx@[i]@[j] as int;
            assert(self.tasks()[k].id == self.tasks()[i].dependencies@[j]);
        }
    }

    /// A task that has started or finished found every one of its
    /// dependencies in the completion set.
    pub proof fn law_started_tasks_have_completed_dependencies(&self, i: int)
        requires
            self.wf(),
            0 <= i < self.tasks().len(),
            self.tasks()[i].status == TaskStatus::Running || self.tasks()[i].status == TaskStatus::Completed
                || self.tasks()[i].status == TaskStatus::Failed,
        ensures
            deps_completed(self.tasks(), self.tasks()[i]),
    {
        self.lemma_graph_invariants();
        assert(self.tasks()[i] == self.tasks()[i]);
    }

    /// Two tasks of the graph with the same id are the same task.
    pub proof fn lemma_ids_unique(&self, a: int, b: int)
        requires
            self.wf(),
            0 <= a < self.tasks().len(),
            0 <= b < self.tasks().len(),
            self.tasks()[a].id == self.tasks()[b].id,
        ensures
            a == b,
    {
        self.lemma_unique_position(a, self.tasks()[a].id);
    }

    /// No graph holds a cycle: every dependency names a task added before,
    /// so the order of insertion is a topological order.
    pub proof fn law_graph_acyclic(&self, i: int, j: int)
        requires
            self.wf(),
            0 <= i < self.tasks().len(),
            0 <= j < self.tasks()[i].dependencies@.len(),
        ensures
            exists|k: int| 0 <= k < i && (#[trigger] self.tasks()[k]).id == self.tasks()[i].dependencies@[j],
    {
        reveal(graph_shape);
        let k = self.deps_idx@[i]@[j] as int;
        assert(self.tasks()[k].id == self.tasks()[i].dependencies@[j]);
    }

    /// An empty graph admitting at most `max_concurrent` running tasks.
    pub fn new(max_concurrent: usize) -> (r: Self)
        ensures
            r.wf(),
            r.tasks().len() == 0,
            r.ready_ids().len() == 0,
            r.max_concurrent() == max_concurrent,
    {
        let r = TaskGraph {
            tasks: Vec::new(),
            deps_idx: Vec::new(),
            dependents_idx: Vec::new(),
            ready_queue: Vec::new(),
            completed_count: 0,
            running_count: 0,
            max_concurrent,
        };
        assert(r.ready_ids() =~= Seq::<TaskId>::empty());
        reveal(graph_shape);
        reveal(back_links_in_range);
        reveal(back_links_complete);
        reveal(queue_matches);
        reveal(statuses_match);
        r
    }

    fn find_index(&self, id: TaskId) -> (r: Option<usize>)
        ensures
            r matches Some(i) ==> i < self.tasks@.len() && self.tasks@[i as int].id == id,
            r is None <==> !has_id(self.tasks@, id),
    {
        let n = self.tasks.len();
        let mut i: usize = 0;
        while i < n
            invariant
                n == self.tasks@.len(),
                0 <= i <= n,
                forall|k: int| 0 <= k < i ==> (#[trigger] self.tasks@[k]).id != id,
            decreases n - i,
        {
            if self.tasks[i].id == id {
                assert(self.tasks@[i as int].id == id);
                return Some(i);
            }
            i += 1;
        }
        None
    }

    pub fn get_task(&self, id: TaskId) -> (r: Option<&Task>)
        ensures
            r is None <==> !has_id(self.tasks(), id),
            r matches Some(t) ==> t.id == id && exists|k: int| 0 <= k < self.tasks().len()
                && #[trigger] self.tasks()[k] == *t,
    {
        match self.find_index(id) {
            Some(i) => {
                assert(self.tasks()[i as int] == self.tasks@[i as int]);
                Some(&self.tasks[i])
            },
            None => None,
        }
    }

    /// Whether every task has completed.
    pub fn is_complete(&self) -> (r: bool)
        requires
            self.wf(),
        ensures
            r == (count_status(self.tasks(), TaskStatus::Completed) == self.tasks().len()),
    {
        self.tasks.len() == self.completed_count
    }

    /// Number of tasks that have not completed.
    pub fn pending_count(&self) -> (r: usize)
        requires
            self.wf(),
        ensures
            r == self.tasks().len() - count_status(self.tasks(), TaskStatus::Completed),
    {
        proof {
            lemma_count_status_bound(self.tasks@, TaskStatus::Completed);
        }
        self.tasks.len() - self.completed_count
    }

    /// Whether `task` lists itself as a dependency.
    fn depends_on_itself(task: &Task) -> (r: bool)
        ensures
            r == task.dependencies@.contains(task.id),
    {
        let n = task.dependencies.len();
        let mut j: usize = 0;
        while j < n
            invariant
                n == task.dependencies@.len(),
                0 <= j <= n,
                forall|k: int| 0 <= k < j ==> task.dependencies@[k] != task.id,
            decreases n - j,
        {
            if task.dependencies[j] == task.id {
                assert(task.dependencies@[j as int] == task.id);
                return true;
            }
            j += 1;
        }
        false
    }

    /// The positions of the tasks named by `deps`, or `None` when one names
    /// no task.
    fn resolve(&self, deps: &Vec<TaskId>) -> (r: Option<Vec<usize>>)
        ensures
            r is None <==> exists|j: int| 0 <= j < deps@.len() && !has_id(self.tasks@, #[trigger] deps@[j]),
            r matches Some(idx) ==> idx@.len() == deps@.len() && forall|k: int| 0 <= k < deps@.len()
                ==> (#[trigger] idx@[k]) < self.tasks@.len() && self.tasks@[idx@[k] as int].id == deps@[k],
    {
        let n = deps.len();
        let mut idx: Vec<usize> = Vec::new();
        let mut j: usize = 0;
        while j < n
            invariant
                n == deps@.len(),
                0 <= j <= n,
                idx@.len() == j,
                forall|k: int| 0 <= k < j ==> (#[trigger] idx@[k]) < self.tasks@.len()
                    && self.tasks@[idx@[k] as int].id == deps@[k],
            decreases n - j,
        {
            match self.find_index(deps[j]) {
                Some(i) => idx.push(i),
                None => {
                    assert(!has_id(self.tasks@, deps@[j as int]));
                    return None;
                },
            }
            j += 1;
        }
        assert forall|j: int| 0 <= j < deps@.len() implies has_id(self.tasks@, #[trigger] deps@[j]) by {
            assert(self.tasks@[idx@[j] as int].id == deps@[j]);
        }
        Some(idx)
    }

    /// Whether every task at the positions `idx` has completed.
    fn all_completed(&self, idx: &Vec<usize>) -> (r: bool)
        requires
            forall|k: int| 0 <= k < idx@.len() ==> (#[trigger] idx@[k]) < self.tasks@.len(),
        ensures
            r == forall|k: int| 0 <= k < idx@.len()
                ==> self.tasks@[#[trigger] idx@[k] as int].status == TaskStatus::Completed,
    {
        let n = idx.len();
        let mut j: usize = 0;
        while j < n
            invariant
                n == idx@.len(),
                0 <= j <= n,
                forall|k: int| 0 <= k < n ==> (#[trigger] idx@[k]) < self.tasks@.len(),
                forall|k: int| 0 <= k < j ==> self.tasks@[#[trigger] idx@[k] as int].status == TaskStatus::Completed,
            decreases n - j,
        {
            if self.tasks[idx[j]].status != TaskStatus::Completed {
                return false;
            }
            j += 1;
        }
        true
    }

    proof fn lemma_resolved_completed(&self, task: Task, idx: Seq<usize>)
        requires
            self.wf(),
            idx.len() == task.dependencies@.len(),
            forall|k: int| 0 <= k < idx.len() ==> (#[trigger] idx[k]) < self.tasks@.len()
                && self.tasks@[idx[k] as int].id == task.dependencies@[k],
        ensures
            deps_completed(self.tasks@, task) == forall|k: int| 0 <= k < idx.len()
                ==> self.tasks@[#[trigger] idx[k] as int].status == TaskStatus::Completed,
    {
        reveal(graph_shape);
        let ts = self.tasks@;
        if forall|k: int| 0 <= k < idx.len() ==> ts[#[trigger] idx[k] as int].status == TaskStatus::Completed {
            assert forall|j: int| 0 <= j < task.dependencies@.len()
                implies id_completed(ts, #[trigger] task.dependencies@[j]) by {
                assert(ts[idx[j] as int].id == task.dependencies@[j]);
            }
        } else {
            let k = choose|k: int| 0 <= k < idx.len() && !(ts[#[trigger] idx[k] as int].status == TaskStatus::Completed);
            if id_completed(ts, task.dependencies@[k]) {
                let w = choose|w: int| 0 <= w < ts.len() && (#[trigger] ts[w]).id == task.dependencies@[k]
                    && ts[w].status == TaskStatus::Completed;
                let x = idx[k] as int;
                if w < x {
                    assert(ts[w].id != ts[x].id);
                } else if x < w {
                    assert(ts[x].id != ts[w].id);
                }
            }
        }
    }

    /// Appends a task whose dependencies were resolved to the positions
    /// `idx`; its back links are left to `link_dependents`.
    #[verifier::rlimit(100)]
    fn push_task(&mut self, t: Task, idx: Vec<usize>)
        requires
            old(self).wf(),
            old(self).tasks@.len() < usize::MAX,
            !has_id(old(self).tasks@, t.id),
            idx@.len() == t.dependencies@.len(),
            forall|k: int| 0 <= k < idx@.len() ==> (#[trigger] idx@[k]) < old(self).tasks@.len()
                && old(self).tasks@[idx@[k] as int].id == t.dependencies@[k],
            t.status == if (forall|k: int| 0 <= k < idx@.len()
                ==> old(self).tasks@[#[trigger] idx@[k] as int].status == TaskStatus::Completed) {
                TaskStatus::Ready
            } else {
                TaskStatus::Pending
            },
        ensures
            final(self).wf_but_links(),
            forall|i: int, j: int| 0 <= i < final(self).tasks@.len() - 1 && 0 <= j < final(self).deps_idx@[i]@.len()
                ==> final(self).dependents_idx@[#[trigger] final(self).deps_idx@[i]@[j] as int]@.contains(i as usize),
            final(self).tasks@ == old(self).tasks@.push(t),
            final(self).ready_queue@ == if t.status == TaskStatus::Ready {
                old(self).ready_queue@.push(old(self).tasks@.len() as usize)
            } else {
                old(self).ready_queue@
            },
            final(self).max_concurrent == old(self).max_concurrent,
            final(self).running_count == old(self).running_count,
    {
        let ghost old_tasks = self.tasks@;
        let ghost old_deps = self.deps_idx@;
        let ghost old_back = self.dependents_idx@;
        let ghost old_queue = self.ready_queue@;
        let new_i = self.tasks.len();
        let ready = t.status == TaskStatus::Ready;
        self.tasks.push(t);
        self.deps_idx.push(idx);
        self.dependents_idx.push(Vec::new());
        if ready {
            self.ready_queue.push(new_i);
        }
        proof {
            assert(self.tasks@ == old_tasks.push(t));
            assert(self.deps_idx@ == old_deps.push(idx));
            reveal(back_links_in_range);
            let e = self.dependents_idx@[new_i as int];
            assert(self.dependents_idx@ =~= old_back.push(e));
            lemma_shape_lens(old_tasks, old_deps);
            reveal(back_links_in_range);
            lemma_shape_push(old_tasks, old_deps, t, idx);
            lemma_back_range_push(old_back, new_i as int, e);
            lemma_back_complete_push(old_deps, old_back, idx, e, new_i as int);
            lemma_queue_push(old_tasks, old_queue, t);
            lemma_status_push(old_tasks, old_deps, t, idx);
            assert(self.tasks@.drop_last() =~= old_tasks);
        }
    }

    /// Records the back links of the dependency edges of the last task.
    fn link_dependents(&mut self)
        requires
            old(self).wf_but_links(),
            old(self).tasks@.len() > 0,
            forall|i: int, j: int| 0 <= i < old(self).tasks@.len() - 1 && 0 <= j < old(self).deps_idx@[i]@.len()
                ==> old(self).dependents_idx@[#[trigger] old(self).deps_idx@[i]@[j] as int]@.contains(i as usize),
        ensures
            final(self).wf(),
            final(self).tasks@ == old(self).tasks@,
            final(self).deps_idx@ == old(self).deps_idx@,
            final(self).ready_queue@ == old(self).ready_queue@,
            final(self).max_concurrent == old(self).max_concurrent,
            final(self).running_count == old(self).running_count,
    {
        let new_i = self.tasks.len() - 1;
        proof {
            reveal(graph_shape);
            reveal(back_links_in_range);
            lemma_shape_lens(self.tasks@, self.deps_idx@);
        }
        let n = self.deps_idx[new_i].len();
        let mut k: usize = 0;
        while k < n
            invariant
                self.running_count == old(self).running_count,
                self.wf_but_links(),
                self.deps_idx@.len() == self.tasks@.len(),
                self.dependents_idx@.len() == self.tasks@.len(),
                graph_shape_lens(self.deps_idx@, self.tasks@.len() as int),
                new_i == self.tasks@.len() - 1,
                n == self.deps_idx@[new_i as int]@.len(),
                forall|a: int| 0 <= a < n ==> (#[trigger] self.deps_idx@[new_i as int]@[a]) < new_i,
                0 <= k <= n,
                forall|i: int, j: int| 0 <= i < self.tasks@.len() && 0 <= j < self.deps_idx@[i]@.len()
                    && (i < new_i || j < k)
                    ==> self.dependents_idx@[#[trigger] self.deps_idx@[i]@[j] as int]@.contains(i as usize),
                self.tasks@ == old(self).tasks@,
                self.deps_idx@ == old(self).deps_idx@,
                self.ready_queue@ == old(self).ready_queue@,
                self.max_concurrent == old(self).max_concurrent,
            decreases n - k,
        {
            let x = self.deps_idx[new_i][k];
            let ghost before = self.dependents_idx@;
            let ghost deps_before = self.deps_idx@;
            assert(x < before.len());
            self.dependents_idx[x].push(new_i);
            proof {
                assert(self.deps_idx@ == deps_before);
                assert(self.dependents_idx@[x as int]@ == before[x as int]@.push(new_i));
                assert forall|z: int| 0 <= z < before.len() && z != x implies #[trigger] self.dependents_idx@[z] == before[z] by {}
                reveal(back_links_in_range);
                assert forall|i: int, j: int| 0 <= i < self.tasks@.len() && 0 <= j < self.deps_idx@[i]@.len()
                    && (i < new_i || j < k + 1)
                    implies self.dependents_idx@[#[trigger] self.deps_idx@[i]@[j] as int]@.contains(i as usize) by {
                    let y = self.deps_idx@[i]@[j] as int;
                    assert(deps_before[i]@[j] == self.deps_idx@[i]@[j]);
                    if i < new_i || j < k {
                        assert(before[deps_before[i]@[j] as int]@.contains(i as usize));
                        let w = choose|w: int| 0 <= w < before[y]@.len() && before[y]@[w] == i as usize;
                        assert(self.dependents_idx@[y]@[w] == i as usize);
                    } else {
                        assert(self.dependents_idx@[y]@[before[y]@.len() as int] == new_i);
                    }
                }
                assert forall|i: int, j: int| 0 <= i < self.tasks@.len() && 0 <= j < self.dependents_idx@[i]@.len()
                    implies i < (#[trigger] self.dependents_idx@[i]@[j]) < self.tasks@.len() by {
                    if i == x as int && j == before[i]@.len() {
                    } else {
                        assert(self.dependents_idx@[i]@[j] == before[i]@[j]);
                    }
                }
            }
            k += 1;
        }
        proof {
            reveal(back_links_complete);
        }
    }

    /// Adds a task. Its dependencies must name tasks already in the graph
    /// (so no cycle can form); it is queued at once when they have all
    /// completed, and is pending otherwise.
    #[verifier::rlimit(100)]
    pub fn add_task(&mut self, task: Task) -> (r: Result<(), GraphError>)
        requires
            old(self).wf(),
            old(self).tasks().len() < usize::MAX,
        ensures
            final(self).wf(),
            final(self).max_concurrent() == old(self).max_concurrent(),
            has_id(old(self).tasks(), task.id) ==> r == Err::<(), GraphError>(GraphError::DuplicateId),
            !has_id(old(self).tasks(), task.id) && task.dependencies@.contains(task.id)
                ==> r == Err::<(), GraphError>(GraphError::Cycle),
            !has_id(old(self).tasks(), task.id) && !task.dependencies@.contains(task.id)
                && (exists|j: int| 0 <= j < task.dependencies@.len()
                    && !has_id(old(self).tasks(), #[trigger] task.dependencies@[j]))
                ==> r == Err::<(), GraphError>(GraphError::UnknownDependency),
            !has_id(old(self).tasks(), task.id) && !task.dependencies@.contains(task.id)
                && (forall|j: int| 0 <= j < task.dependencies@.len()
                    ==> has_id(old(self).tasks(), #[trigger] task.dependencies@[j]))
                ==> r is Ok,
            r is Err ==> *final(self) == *old(self),
            r is Ok ==> final(self).tasks() == old(self).tasks().push(
                (Task {
                    status: if deps_completed(old(self).tasks(), task) {
                        TaskStatus::Ready
                    } else {
                        TaskStatus::Pending
                    },
                    ..task
                }),
            ),
            r is Ok ==> final(self).ready_ids() == if deps_completed(old(self).tasks(), task) {
                old(self).ready_ids().push(task.id)
            } else {
                old(self).ready_ids()
            },
            final(self).running() == old(self).running(),
    {
        if self.find_index(task.id).is_some() {
            return Err(GraphError::DuplicateId);
        }
        if Self::depends_on_itself(&task) {
            return Err(GraphError::Cycle);
        }
        let idx = match self.resolve(&task.dependencies) {
            Some(v) => v,
            None => {
                return Err(GraphError::UnknownDependency);
            },
        };
        let done = self.all_completed(&idx);
        proof {
            self.lemma_resolved_completed(task, idx@);
        }
        let status = if done { TaskStatus::Ready } else { TaskStatus::Pending };
        let ghost old_ids = self.ready_ids();
        let ghost old_tasks = self.tasks@;
        let ghost old_queue = self.ready_queue@;
        let id = task.id;
        proof {
            reveal(queue_matches);
        }
        self.push_task(Task { status, ..task }, idx);
        assert forall|k: int| 0 <= k < old_queue.len() implies self.tasks@[#[trigger] old_queue[k] as int] == old_tasks[old_queue[k] as int] by {
            assert(old_queue[k] < old_tasks.len());
        }
        assert(self.ready_ids() =~= if done { old_ids.push(id) } else { old_ids });
        self.link_dependents();
        Ok(())
    }

    /// Positions (into `tasks()`) of the ready queue, in queue order.
    pub closed spec fn ready_positions(&self) -> Seq<usize> {
        self.ready_queue@
    }

    pub proof fn lemma_ready_positions(&self)
        requires
            self.wf(),
        ensures
            self.ready_ids() == self.ready_positions().map_values(|i: usize| self.tasks()[i as int].id),
            forall|k: int| 0 <= k < self.ready_positions().len() ==> (#[trigger] self.ready_positions()[k]) < self.tasks().len()
                && self.tasks()[self.ready_positions()[k] as int].status == TaskStatus::Ready,
            forall|i: int| 0 <= i < self.tasks().len() && (#[trigger] self.tasks()[i]).status == TaskStatus::Ready
                ==> self.ready_positions().contains(i as usize),
            self.ready_positions().no_duplicates(),
    {
        reveal(queue_matches);
    }

    /// Takes the ready task of highest priority (the earliest queued among
    /// equals) and marks it running, unless nothing is ready. The limit on
    /// running tasks is the scheduler's to keep.
    pub fn get_ready_task(&mut self) -> (r: Option<TaskId>)
        requires
            old(self).wf(),
        ensures
            final(self).wf(),
            final(self).max_concurrent() == old(self).max_concurrent(),
            r is None <==> old(self).ready_positions().len() == 0,
            r is None ==> *final(self) == *old(self),
            r matches Some(id) ==> exists|b: int| {
                &&& best_ready(old(self).tasks(), old(self).ready_positions(), b)
                &&& #[trigger] old(self).ready_positions()[b] < old(self).tasks().len()
                &&& id == old(self).tasks()[old(self).ready_positions()[b] as int].id
                &&& final(self).ready_positions() == old(self).ready_positions().remove(b)
                &&& final(self).tasks() == old(self).tasks().update(
                    old(self).ready_positions()[b] as int,
                    with_status(old(self).tasks()[old(self).ready_positions()[b] as int], TaskStatus::Running),
                )
            },
            r is Some ==> final(self).running() == old(self).running() + 1,
            r matches Some(id) ==> exists|p: int| 0 <= p < final(self).tasks().len()
                && (#[trigger] final(self).tasks()[p]).id == id && final(self).tasks()[p].status == TaskStatus::Running,
    {
        if self.ready_queue.len() == 0 {
            return None;
        }
        proof {
            reveal(queue_matches);
        }
        let n = self.ready_queue.len();
        let mut b: usize = 0;
        let mut best: u8 = self.tasks[self.ready_queue[0]].priority.rank();
        let mut k: usize = 1;
        while k < n
            invariant
                self.wf(),
                *self == *old(self),
                n == self.ready_queue@.len(),
                forall|j: int| 0 <= j < n ==> (#[trigger] self.ready_queue@[j]) < self.tasks@.len(),
                1 <= k <= n,
                0 <= b < k,
                best == priority_rank(self.tasks@[self.ready_queue@[b as int] as int].priority),
                forall|j: int| 0 <= j < k ==> priority_rank(self.tasks@[#[trigger] self.ready_queue@[j] as int].priority) <= best,
                forall|j: int| 0 <= j < b ==> priority_rank(self.tasks@[#[trigger] self.ready_queue@[j] as int].priority) < best,
            decreases n - k,
        {
            let p = self.tasks[self.ready_queue[k]].priority.rank();
            if p > best {
                best = p;
                b = k;
            }
            k += 1;
        }
        let ghost old_tasks = self.tasks@;
        let ghost old_queue = self.ready_queue@;
        let len = self.tasks.len();
        let i = self.ready_queue.remove(b);
        self.tasks[i].status = TaskStatus::Running;
        let ghost t = self.tasks@[i as int];
        proof {
            assert(old_tasks[i as int].status == TaskStatus::Ready) by {
                reveal(queue_matches);
            }
            lemma_count_status_update(old_tasks, i as int, t, TaskStatus::Running);
            lemma_count_status_bound(self.tasks@, TaskStatus::Running);
        }
        self.running_count = self.running_count + 1;
        proof {
            assert(self.tasks@ == old_tasks.update(i as int, with_status(old_tasks[i as int], TaskStatus::Running)));
            lemma_queue_take(old_tasks, old_queue, b as int, TaskStatus::Running);
            lemma_shape_status(old_tasks, self.deps_idx@, i as int, TaskStatus::Running);
            lemma_shape_lens(old_tasks, self.deps_idx@);
            reveal(statuses_match);
            lemma_status_keep_completed(old_tasks, self.deps_idx@, i as int, TaskStatus::Running);
            lemma_count_status_update(old_tasks, i as int, t, TaskStatus::Running);
            lemma_count_status_update(old_tasks, i as int, t, TaskStatus::Completed);
            lemma_count_status_bound(self.tasks@, TaskStatus::Running);
            assert(best_ready(old_tasks, old_queue, b as int));
        }
        assert(self.tasks()[i as int].id == self.tasks@[i as int].id);
        Some(self.tasks[i].id)
    }

    /// Moves a running task to `st` (failed or cancelled).
    fn finish_running(&mut self, i: usize, st: TaskStatus)
        requires
            old(self).wf(),
            i < old(self).tasks@.len(),
            old(self).tasks@[i as int].status == TaskStatus::Running,
            st == TaskStatus::Failed || st == TaskStatus::Cancelled,
        ensures
            final(self).wf(),
            final(self).max_concurrent == old(self).max_concurrent,
            final(self).tasks@ == old(self).tasks@.update(i as int, with_status(old(self).tasks@[i as int], st)),
            final(self).ready_queue@ == old(self).ready_queue@,
            final(self).running_count <= old(self).running_count,
            final(self).running_count == count_status(final(self).tasks@, TaskStatus::Running),
    {
        let ghost old_tasks = self.tasks@;
        self.tasks[i].status = st;
        let ghost t = self.tasks@[i as int];
        proof {
            lemma_count_status_update(old_tasks, i as int, t, TaskStatus::Running);
            lemma_count_status_update(old_tasks, i as int, t, TaskStatus::Completed);
        }
        self.running_count = self.running_count - 1;
        proof {
            assert(self.tasks@ == old_tasks.update(i as int, with_status(old_tasks[i as int], st)));
            lemma_queue_keep(old_tasks, self.ready_queue@, i as int, st);
            lemma_shape_status(old_tasks, self.deps_idx@, i as int, st);
            lemma_shape_lens(old_tasks, self.deps_idx@);
            reveal(statuses_match);
            lemma_status_keep_completed(old_tasks, self.deps_idx@, i as int, st);
        }
    }

    /// Records that a running task failed. Its dependents never become ready.
    pub fn mark_failed(&mut self, id: TaskId) -> (r: Result<(), GraphError>)
        requires
            old(self).wf(),
        ensures
            final(self).wf(),
            final(self).max_concurrent() == old(self).max_concurrent(),
            !has_id(old(self).tasks(), id) ==> r == Err::<(), GraphError>(GraphError::UnknownTask),
            r is Err ==> *final(self) == *old(self),
            r is Ok <==> exists|p: int| 0 <= p < old(self).tasks().len() && (#[trigger] old(self).tasks()[p]).id == id
                && old(self).tasks()[p].status == TaskStatus::Running,
            r is Err && has_id(old(self).tasks(), id) ==> r == Err::<(), GraphError>(GraphError::NotRunning),
            r is Ok ==> exists|p: int| 0 <= p < old(self).tasks().len() && (#[trigger] old(self).tasks()[p]).id == id
                && final(self).tasks() == old(self).tasks().update(p, with_status(old(self).tasks()[p], TaskStatus::Failed)),
            final(self).ready_positions() == old(self).ready_positions(),
            final(self).running() <= old(self).running(),
    {
        self.finish_with(id, TaskStatus::Failed)
    }

    /// Records that a running task was cancelled.
    pub fn mark_cancelled(&mut self, id: TaskId) -> (r: Result<(), GraphError>)
        requires
            old(self).wf(),
        ensures
            final(self).wf(),
            final(self).max_concurrent() == old(self).max_concurrent(),
            !has_id(old(self).tasks(), id) ==> r == Err::<(), GraphError>(GraphError::UnknownTask),
            r is Err ==> *final(self) == *old(self),
            r is Ok <==> exists|p: int| 0 <= p < old(self).tasks().len() && (#[trigger] old(self).tasks()[p]).id == id
                && old(self).tasks()[p].status == TaskStatus::Running,
            r is Err && has_id(old(self).tasks(), id) ==> r == Err::<(), GraphError>(GraphError::NotRunning),
            r is Ok ==> exists|p: int| 0 <= p < old(self).tasks().len() && (#[trigger] old(self).tasks()[p]).id == id
                && final(self).tasks() == old(self).tasks().update(p, with_status(old(self).tasks()[p], TaskStatus::Cancelled)),
            final(self).ready_positions() == old(self).ready_positions(),
            final(self).running() <= old(self).running(),
    {
        self.finish_with(id, TaskStatus::Cancelled)
    }

    fn finish_with(&mut self, id: TaskId, st: TaskStatus) -> (r: Result<(), GraphError>)
        requires
            old(self).wf(),
            st == TaskStatus::Failed || st == TaskStatus::Cancelled,
        ensures
            final(self).wf(),
            final(self).max_concurrent() == old(self).max_concurrent(),
            !has_id(old(self).tasks(), id) ==> r == Err::<(), GraphError>(GraphError::UnknownTask),
            r is Err ==> *final(self) == *old(self),
            r is Ok <==> exists|p: int| 0 <= p < old(self).tasks().len() && (#[trigger] old(self).tasks()[p]).id == id
                && old(self).tasks()[p].status == TaskStatus::Running,
            r is Err && has_id(old(self).tasks(), id) ==> r == Err::<(), GraphError>(GraphError::NotRunning),
            r is Ok ==> exists|p: int| 0 <= p < old(self).tasks().len() && (#[trigger] old(self).tasks()[p]).id == id
                && final(self).tasks() == old(self).tasks().update(p, with_status(old(self).tasks()[p], st)),
            final(self).ready_positions() == old(self).ready_positions(),
            final(self).running() <= old(self).running(),
    {
        match self.find_index(id) {
            None => Err(GraphError::UnknownTask),
            Some(i) => {
                proof {
                    self.lemma_unique_position(i as int, id);
                }
                if self.tasks[i].status != TaskStatus::Running {
                    return Err(GraphError::NotRunning);
                }
                self.finish_running(i, st);
                Ok(())
            },
        }
    }

    proof fn lemma_unique_position(&self, i: int, id: TaskId)
        requires
            self.wf(),
            0 <= i < self.tasks@.len(),
            self.tasks@[i].id == id,
        ensures
            forall|p: int| 0 <= p < self.tasks@.len() && (#[trigger] self.tasks@[p]).id == id ==> p == i,
    {
        reveal(graph_shape);
        assert forall|p: int| 0 <= p < self.tasks@.len() && (#[trigger] self.tasks@[p]).id == id implies p == i by {
            if p < i {
                assert(self.tasks@[p].id != self.tasks@[i].id);
            } else if i < p {
                assert(self.tasks@[i].id != self.tasks@[p].id);
            }
        }
    }

    /// Drops every task that has not started: pending and ready tasks become
    /// cancelled and the ready queue empties. Running and finished tasks are
    /// unaffected.
    pub fn cancel_waiting(&mut self)
        requires
            old(self).wf(),
        ensures
            final(self).wf(),
            final(self).max_concurrent() == old(self).max_concurrent(),
            final(self).tasks().len() == old(self).tasks().len(),
            forall|p: int| 0 <= p < old(self).tasks().len() ==> #[trigger] final(self).tasks()[p] == {
                let t = old(self).tasks()[p];
                if t.status == TaskStatus::Pending || t.status == TaskStatus::Ready {
                    with_status(t, TaskStatus::Cancelled)
                } else {
                    t
                }
            },
            final(self).ready_positions().len() == 0,
            final(self).running() == old(self).running(),
    {
        let ghost orig = self.tasks@;
        self.ready_queue = Vec::new();
        let n = self.tasks.len();
        let mut k: usize = 0;
        proof {
            lemma_shape_lens(self.tasks@, self.deps_idx@);
        }
        while k < n
            invariant
                n == self.tasks@.len(),
                n == orig.len(),
                0 <= k <= n,
                graph_shape(self.tasks@, self.deps_idx@),
                graph_shape_lens(self.deps_idx@, n as int),
                self.deps_idx@.len() == n,
                back_links_in_range(self.dependents_idx@, n as int),
                back_links_complete(self.deps_idx@, self.dependents_idx@, n as int),
                statuses_match(self.tasks@, self.deps_idx@),
                self.completed_count == count_status(self.tasks@, TaskStatus::Completed),
                self.running_count == count_status(self.tasks@, TaskStatus::Running),
                self.max_concurrent == old(self).max_concurrent,
                self.running_count == old(self).running_count,
                self.ready_queue@.len() == 0,
                forall|p: int| 0 <= p < k ==> #[trigger] self.tasks@[p] == {
                    let t = orig[p];
                    if t.status == TaskStatus::Pending || t.status == TaskStatus::Ready {
                        with_status(t, TaskStatus::Cancelled)
                    } else {
                        t
                    }
                },
                forall|p: int| k <= p < n ==> #[trigger] self.tasks@[p] == orig[p],
            decreases n - k,
        {
            let st = self.tasks[k].status;
            if st == TaskStatus::Pending || st == TaskStatus::Ready {
                let ghost before = self.tasks@;
                self.tasks[k].status = TaskStatus::Cancelled;
                proof {
                    let t = self.tasks@[k as int];
                    assert(self.tasks@ == before.update(k as int, with_status(before[k as int], TaskStatus::Cancelled)));
                    lemma_count_status_update(before, k as int, t, TaskStatus::Running);
                    lemma_count_status_update(before, k as int, t, TaskStatus::Completed);
                    lemma_shape_status(before, self.deps_idx@, k as int, TaskStatus::Cancelled);
                    lemma_status_keep_completed(before, self.deps_idx@, k as int, TaskStatus::Cancelled);
                }
            }
            k += 1;
        }
        proof {
            reveal(queue_matches);
            assert forall|i: int| 0 <= i < self.tasks@.len() implies (#[trigger] self.tasks@[i]).status != TaskStatus::Ready by {
            }
        }
    }

    /// The status a task takes when the task at position `c` completes.
    pub open spec fn status_after_completion(ts: Seq<Task>, c: int, p: int) -> TaskStatus {
        let mid = ts.update(c, with_status(ts[c], TaskStatus::Completed));
        if p == c {
            TaskStatus::Completed
        } else if ts[p].status == TaskStatus::Pending && deps_completed(mid, ts[p]) {
            TaskStatus::Ready
        } else {
            ts[p].status
        }
    }

    /// Marks a running task completed and queues, in the order of its
    /// dependents, every pending task whose dependencies have now all
    /// completed. Marking a completed task again changes nothing.
    pub fn mark_completed(&mut self, id: TaskId) -> (r: Result<(), GraphError>)
        requires
            old(self).wf(),
        ensures
            final(self).wf(),
            final(self).max_concurrent() == old(self).max_concurrent(),
            !has_id(old(self).tasks(), id) ==> r == Err::<(), GraphError>(GraphError::UnknownTask),
            r is Err ==> *final(self) == *old(self),
            r is Ok <==> exists|p: int| 0 <= p < old(self).tasks().len() && (#[trigger] old(self).tasks()[p]).id == id
                && (old(self).tasks()[p].status == TaskStatus::Running || old(self).tasks()[p].status == TaskStatus::Completed),
            r is Err && has_id(old(self).tasks(), id) ==> r == Err::<(), GraphError>(GraphError::NotRunning),
            id_completed(old(self).tasks(), id) ==> *final(self) == *old(self),
            r is Ok ==> id_completed(final(self).tasks(), id),
            r is Ok && !id_completed(old(self).tasks(), id) ==> exists|c: int| {
                &&& 0 <= c < old(self).tasks().len()
                &&& (#[trigger] old(self).tasks()[c]).id == id
                &&& final(self).tasks().len() == old(self).tasks().len()
                &&& forall|p: int| 0 <= p < old(self).tasks().len() ==> #[trigger] final(self).tasks()[p]
                    == with_status(old(self).tasks()[p], Self::status_after_completion(old(self).tasks(), c, p))
            },
            final(self).ready_positions().len() >= old(self).ready_positions().len(),
            final(self).ready_positions().take(old(self).ready_positions().len() as int) == old(self).ready_positions(),
            final(self).running() <= old(self).running(),
            final(self).ready_positions().no_duplicates(),
    {
        let r = self.mark_completed_once(id);
        proof {
            self.lemma_ready_positions();
        }
        r
    }

    fn mark_completed_once(&mut self, id: TaskId) -> (r: Result<(), GraphError>)
        requires
            old(self).wf(),
        ensures
            final(self).wf(),
            final(self).max_concurrent() == old(self).max_concurrent(),
            !has_id(old(self).tasks(), id) ==> r == Err::<(), GraphError>(GraphError::UnknownTask),
            r is Err ==> *final(self) == *old(self),
            r is Ok <==> exists|p: int| 0 <= p < old(self).tasks().len() && (#[trigger] old(self).tasks()[p]).id == id
                && (old(self).tasks()[p].status == TaskStatus::Running || old(self).tasks()[p].status == TaskStatus::Completed),
            r is Err && has_id(old(self).tasks(), id) ==> r == Err::<(), GraphError>(GraphError::NotRunning),
            id_completed(old(self).tasks(), id) ==> *final(self) == *old(self),
            r is Ok ==> id_completed(final(self).tasks(), id),
            r is Ok && !id_completed(old(self).tasks(), id) ==> exists|c: int| {
                &&& 0 <= c < old(self).tasks().len()
                &&& (#[trigger] old(self).tasks()[c]).id == id
                &&& final(self).tasks().len() == old(self).tasks().len()
                &&& forall|p: int| 0 <= p < old(self).tasks().len() ==> #[trigger] final(self).tasks()[p]
                    == with_status(old(self).tasks()[p], Self::status_after_completion(old(self).tasks(), c, p))
            },
            final(self).ready_positions().len() >= old(self).ready_positions().len(),
            final(self).ready_positions().take(old(self).ready_positions().len() as int) == old(self).ready_positions(),
            final(self).running() <= old(self).running(),
    {
        match self.find_index(id) {
            None => Err(GraphError::UnknownTask),
            Some(i) => {
                proof {
                    self.lemma_unique_position(i as int, id);
                }
                if self.tasks[i].status == TaskStatus::Completed {
                    assert(self.ready_positions().take(self.ready_positions().len() as int) =~= self.ready_positions());
                    return Ok(());
                }
                if self.tasks[i].status != TaskStatus::Running {
                    proof {
                        if id_completed(self.tasks@, id) {
                            let w = choose|w: int| 0 <= w < self.tasks@.len() && (#[trigger] self.tasks@[w]).id == id
                                && self.tasks@[w].status == TaskStatus::Completed;
                        }
                    }
                    return Err(GraphError::NotRunning);
                }
                proof {
                    if id_completed(self.tasks@, id) {
                        let w = choose|w: int| 0 <= w < self.tasks@.len() && (#[trigger] self.tasks@[w]).id == id
                            && self.tasks@[w].status == TaskStatus::Completed;
                    }
                }
                self.complete_running(i);
                assert(self.tasks@[i as int].id == id);
                Ok(())
            },
        }
    }

    #[verifier::rlimit(60)]
    fn complete_running(&mut self, c: usize)
        requires
            old(self).wf(),
            c < old(self).tasks@.len(),
            old(self).tasks@[c as int].status == TaskStatus::Running,
        ensures
            final(self).wf(),
            final(self).max_concurrent == old(self).max_concurrent,
            final(self).tasks@.len() == old(self).tasks@.len(),
            forall|p: int| 0 <= p < old(self).tasks@.len() ==> #[trigger] final(self).tasks@[p]
                == with_status(old(self).tasks@[p], Self::status_after_completion(old(self).tasks@, c as int, p)),
            final(self).ready_queue@.len() >= old(self).ready_queue@.len(),
            final(self).ready_queue@.take(old(self).ready_queue@.len() as int) == old(self).ready_queue@,
            final(self).running_count <= old(self).running_count,
            final(self).running_count == count_status(final(self).tasks@, TaskStatus::Running),
    {
        let ghost orig = self.tasks@;
        let ghost deps = self.deps_idx@;
        let ghost q0 = self.ready_queue@;
        let ghost mid = orig.update(c as int, with_status(orig[c as int], TaskStatus::Completed));
        let len = self.tasks.len();
        self.tasks[c].status = TaskStatus::Completed;
        proof {
            let t = self.tasks@[c as int];
            assert(self.tasks@ == mid);
            lemma_count_status_update(orig, c as int, t, TaskStatus::Running);
            lemma_count_status_update(orig, c as int, t, TaskStatus::Completed);
            lemma_count_status_bound(mid, TaskStatus::Completed);
            lemma_queue_keep(orig, q0, c as int, TaskStatus::Completed);
            lemma_shape_status(orig, deps, c as int, TaskStatus::Completed);
            lemma_shape_lens(orig, deps);
            reveal(statuses_match);
            reveal(back_links_complete);
            reveal(back_links_in_range);
            assert forall|x: int| 0 <= x < orig.len() implies deps_done_at(orig, deps, x) ==> #[trigger] deps_done_at(mid, deps, x) by {
                if deps_done_at(orig, deps, x) {
                    assert forall|j: int| 0 <= j < deps[x]@.len() implies mid[#[trigger] deps[x]@[j] as int].status == TaskStatus::Completed by {
                        assert(orig[deps[x]@[j] as int].status == TaskStatus::Completed);
                    }
                }
            }
            assert forall|x: int| 0 <= x < orig.len() && (#[trigger] mid[x]).status == TaskStatus::Pending && deps_done_at(mid, deps, x)
                implies self.dependents_idx@[c as int]@.contains(x as usize) by {
                assert(orig[x].status == TaskStatus::Pending);
                assert(!deps_done_at(orig, deps, x));
                let j = choose|j: int| 0 <= j < deps[x]@.len() && !(orig[#[trigger] deps[x]@[j] as int].status == TaskStatus::Completed);
                assert(mid[deps[x]@[j] as int].status == TaskStatus::Completed);
                assert(deps[x]@[j] == c);
            }
            assert forall|p: int| 0 <= p < orig.len() implies deps_done_at(mid, deps, p) == deps_completed(mid, orig[p]) by {
                lemma_done_iff_completed(mid, deps, p);
                assert(mid[p].dependencies == orig[p].dependencies);
            }
        }
        self.completed_count = self.completed_count + 1;
        self.running_count = self.running_count - 1;
        let m = self.dependents_idx[c].len();
        let ghost back = self.dependents_idx@;
        let mut k: usize = 0;
        proof {
            assert(self.dependents_idx@[c as int]@.subrange(0, m as int) =~= self.dependents_idx@[c as int]@);
            assert(self.dependents_idx@[c as int]@.take(0) =~= Seq::<usize>::empty());
            assert forall|p: int| 0 <= p < orig.len() implies ((#[trigger] self.tasks@[p]).status == TaskStatus::Completed
                <==> mid[p].status == TaskStatus::Completed) by {}
            assert forall|x: int| 0 <= x < orig.len() && x != c && (#[trigger] orig[x]).status == TaskStatus::Pending
                && deps_done_at(mid, deps, x) implies back[c as int]@.contains(x as usize) by {
                assert(mid[x].status == TaskStatus::Pending);
            }
        }
        while k < m
            invariant
                self.running_count + 1 == old(self).running_count,
                0 <= k <= m,
                m == self.dependents_idx@[c as int]@.len(),
                self.tasks@.len() == orig.len(),
                len == orig.len(),
                self.deps_idx@ == deps,
                self.dependents_idx@ == back,
                forall|x: int| 0 <= x < orig.len() && x != c && (#[trigger] orig[x]).status == TaskStatus::Pending
                    && deps_done_at(mid, deps, x) ==> back[c as int]@.contains(x as usize),
                c < orig.len(),
                graph_shape(self.tasks@, deps),
                graph_shape_lens(deps, orig.len() as int),
                deps.len() == orig.len(),
                back_links_in_range(self.dependents_idx@, orig.len() as int),
                back_links_complete(deps, self.dependents_idx@, orig.len() as int),
                self.dependents_idx@.len() == orig.len(),
                forall|a: int, j: int| 0 <= a < orig.len() && 0 <= j < self.dependents_idx@[a]@.len()
                    ==> a < (#[trigger] self.dependents_idx@[a]@[j]) < orig.len(),
                queue_matches(self.tasks@, self.ready_queue@),
                self.ready_queue@.len() >= q0.len(),
                self.ready_queue@.take(q0.len() as int) == q0,
                self.completed_count == count_status(self.tasks@, TaskStatus::Completed),
                self.running_count == count_status(self.tasks@, TaskStatus::Running),
                self.max_concurrent == old(self).max_concurrent,
                forall|p: int| 0 <= p < orig.len() ==> ((#[trigger] self.tasks@[p]).status == TaskStatus::Completed
                    <==> mid[p].status == TaskStatus::Completed),
                forall|p: int| 0 <= p < orig.len() ==> deps_done_at(self.tasks@, deps, p) == #[trigger] deps_done_at(mid, deps, p),
                forall|x: int| 0 <= x < orig.len() ==> {
                    let st = (#[trigger] self.tasks@[x]).status;
                    (st == TaskStatus::Ready || st == TaskStatus::Running || st == TaskStatus::Completed
                        || st == TaskStatus::Failed) ==> deps_done_at(mid, deps, x)
                },
                forall|x: int| 0 <= x < orig.len() && (#[trigger] self.tasks@[x]).status == TaskStatus::Pending
                    && deps_done_at(mid, deps, x)
                    ==> self.dependents_idx@[c as int]@.subrange(k as int, m as int).contains(x as usize),
                forall|p: int| 0 <= p < orig.len() ==> #[trigger] self.tasks@[p] == with_status(orig[p],
                    if p == c {
                        TaskStatus::Completed
                    } else if orig[p].status == TaskStatus::Pending && deps_done_at(mid, deps, p)
                        && self.dependents_idx@[c as int]@.take(k as int).contains(p as usize) {
                        TaskStatus::Ready
                    } else {
                        orig[p].status
                    }),
            decreases m - k,
        {
            let d = self.dependents_idx[c][k];
            let ghost sub = self.dependents_idx@[c as int]@.subrange(k as int, m as int);
            let ghost sub1 = self.dependents_idx@[c as int]@.subrange(k + 1, m as int);
            assert(sub =~= seq![d].add(sub1));
            assert(sub[0] == d);
            let ghost tk = back[c as int]@.take(k as int);
            let ghost tk1 = back[c as int]@.take(k + 1);
            assert(tk1 =~= tk.push(d));
            assert(forall|p: int| 0 <= p < orig.len() && p != d ==> (#[trigger] tk1.contains(p as usize)) == tk.contains(p as usize)) by {
                assert forall|p: int| 0 <= p < orig.len() && p != d implies (#[trigger] tk1.contains(p as usize)) == tk.contains(p as usize) by {
                    if tk1.contains(p as usize) {
                        let w = choose|w: int| 0 <= w < tk1.len() && tk1[w] == p as usize;
                        if w == tk.len() {
                            assert(p as usize == d);
                        } else {
                            assert(tk[w] == p as usize);
                        }
                    }
                    if tk.contains(p as usize) {
                        let w = choose|w: int| 0 <= w < tk.len() && tk[w] == p as usize;
                        assert(tk1[w] == p as usize);
                    }
                }
            }
            assert(tk1.contains(d)) by {
                assert(tk1[tk.len() as int] == d);
            }
            if self.tasks[d].status == TaskStatus::Pending {
                proof {
                    lemma_shape_lens(self.tasks@, deps);
                }
                let done = self.all_completed(&self.deps_idx[d]);
                if done {
                    let ghost before = self.tasks@;
                    let ghost qb = self.ready_queue@;
                    self.tasks[d].status = TaskStatus::Ready;
                    self.ready_queue.push(d);
                    proof {
                        let t = self.tasks@[d as int];
                        assert(self.tasks@ == before.update(d as int, with_status(before[d as int], TaskStatus::Ready)));
                        lemma_count_status_update(before, d as int, t, TaskStatus::Running);
                        lemma_count_status_update(before, d as int, t, TaskStatus::Completed);
                        lemma_queue_enqueue(before, qb, d as int);
                        lemma_shape_status(before, deps, d as int, TaskStatus::Ready);
                        assert(self.ready_queue@.take(q0.len() as int) =~= qb.take(q0.len() as int));
                        assert forall|p: int| 0 <= p < orig.len() implies deps_done_at(self.tasks@, deps, p) == #[trigger] deps_done_at(mid, deps, p) by {
                            lemma_done_same_completed(self.tasks@, before, deps, p);
                        }
                        assert(deps_done_at(before, deps, d as int));
                    }
                }
            }
            proof {
                assert forall|x: int| 0 <= x < orig.len() && (#[trigger] self.tasks@[x]).status == TaskStatus::Pending
                    && deps_done_at(mid, deps, x)
                    implies sub1.contains(x as usize) by {
                    assert(sub.contains(x as usize));
                    let w = choose|w: int| 0 <= w < sub.len() && sub[w] == x as usize;
                    if w == 0 {
                        assert(x as usize == d);
                        assert(x == d as int);
                    } else {
                        assert(sub1[w - 1] == x as usize);
                    }
                }
                assert forall|p: int| 0 <= p < orig.len() && p != d implies
                    #[trigger] sub.contains(p as usize) == sub1.contains(p as usize) by {
                    if sub.contains(p as usize) {
                        let w = choose|w: int| 0 <= w < sub.len() && sub[w] == p as usize;
                        if w == 0 {
                            assert(p as usize == d);
                            assert(p == d as int);
                        }
                        assert(sub1[w - 1] == p as usize);
                    }
                    if sub1.contains(p as usize) {
                        let w = choose|w: int| 0 <= w < sub1.len() && sub1[w] == p as usize;
                        assert(sub[w + 1] == p as usize);
                    }
                }
                assert(sub.contains(d));
                assert(d != c);
            }
            k += 1;
        }
        proof {
            reveal(statuses_match);
            assert(self.dependents_idx@[c as int]@.subrange(m as int, m as int) =~= Seq::<usize>::empty());
            assert(back[c as int]@.take(m as int) =~= back[c as int]@);
            assert forall|p: int| 0 <= p < orig.len() implies #[trigger] self.tasks@[p]
                == with_status(orig[p], Self::status_after_completion(orig, c as int, p)) by {
                lemma_done_iff_completed(mid, deps, p);
                assert(mid[p].dependencies == orig[p].dependencies);
            }
            assert forall|x: int| 0 <= x < self.tasks@.len() && (#[trigger] self.tasks@[x]).status == TaskStatus::Pending
                implies !deps_done_at(self.tasks@, deps, x) by {
                assert(deps_done_at(self.tasks@, deps, x) == deps_done_at(mid, deps, x));
            }
            assert forall|x: int| 0 <= x < self.tasks@.len() implies {
                let st = (#[trigger] self.tasks@[x]).status;
                (st == TaskStatus::Ready || st == TaskStatus::Running || st == TaskStatus::Completed
                    || st == TaskStatus::Failed) ==> deps_done_at(self.tasks@, deps, x)
            } by {
                assert(deps_done_at(self.tasks@, deps, x) == deps_done_at(mid, deps, x));
            }
        }
    }

    pub fn tasks_len(&self) -> (r: usize)
        ensures
            r == self.tasks().len(),
    {
        self.tasks.len()
    }

    /// Whether the task with this id is running.
    pub fn is_running(&self, id: TaskId) -> (r: bool)
        ensures
            r <==> exists|p: int| 0 <= p < self.tasks().len() && (#[trigger] self.tasks()[p]).id == id
                && self.tasks()[p].status == TaskStatus::Running,
    {
        let n = self.tasks.len();
        let mut i: usize = 0;
        while i < n
            invariant
                n == self.tasks@.len(),
                0 <= i <= n,
                forall|k: int| 0 <= k < i ==> !((#[trigger] self.tasks@[k]).id == id && self.tasks@[k].status == TaskStatus::Running),
            decreases n - i,
        {
            if self.tasks[i].id == id && self.tasks[i].status == TaskStatus::Running {
                assert(self.tasks()[i as int].id == id);
                return true;
            }
            i += 1;
        }
        false
    }

    /// The context of the task with this id; it must be in the graph.
    pub fn context_of_running(&self, id: TaskId) -> (r: ComputeContext)
        requires
            self.wf(),
            has_id(self.tasks(), id),
        ensures
            forall|p: int| 0 <= p < self.tasks().len() && (#[trigger] self.tasks()[p]).id == id
                ==> self.tasks()[p].context == r,
    {
        match self.find_index(id) {
            Some(i) => {
                proof {
                    self.lemma_unique_position(i as int, id);
                }
                self.tasks[i].context
            },
            None => {
                proof {
                    assert(false);
                }
                ComputeContext { module_id: 0, timestep: 0, iteration: 0, rank: 0, size: 0 }
            },
        }
    }

    /// Contexts of all running tasks, in graph order.
    pub fn running_contexts(&self) -> (r: Vec<ComputeContext>)
        ensures
            forall|p: int| 0 <= p < self.tasks().len() && (#[trigger] self.tasks()[p]).status == TaskStatus::Running
                ==> r@.contains(self.tasks()[p].context),
            forall|k: int| 0 <= k < r@.len() ==> is_running_context(self.tasks(), #[trigger] r@[k]),
    {
        let n = self.tasks.len();
        let mut out: Vec<ComputeContext> = Vec::new();
        let mut i: usize = 0;
        while i < n
            invariant
                n == self.tasks@.len(),
                0 <= i <= n,
                forall|p: int| 0 <= p < i && (#[trigger] self.tasks@[p]).status == TaskStatus::Running
                    ==> out@.contains(self.tasks@[p].context),
                forall|k: int| 0 <= k < out@.len() ==> is_running_context(self.tasks@, #[trigger] out@[k]),
            decreases n - i,
        {
            if self.tasks[i].status == TaskStatus::Running {
                let ghost prev = out@;
                out.push(self.tasks[i].context);
                proof {
                    assert(out@[prev.len() as int] == self.tasks@[i as int].context);
                    assert forall|k: int| 0 <= k < out@.len() implies is_running_context(self.tasks@, #[trigger] out@[k]) by {
                        if k < prev.len() {
                            assert(out@[k] == prev[k]);
                        } else {
                            assert(self.tasks@[i as int].context == out@[k]);
                        }
                    }
                    assert forall|p: int| 0 <= p < i + 1 && (#[trigger] self.tasks@[p]).status == TaskStatus::Running
                        implies out@.contains(self.tasks@[p].context) by {
                        if p < i {
                            let w = choose|w: int| 0 <= w < prev.len() && prev[w] == self.tasks@[p].context;
                            assert(out@[w] == prev[w]);
                        }
                    }
                }
            }
            i += 1;
        }
        out
    }

    /// The limit on running tasks.
    pub fn max_limit(&self) -> (r: usize)
        ensures
            r == self.max_concurrent(),
    {
        self.max_concurrent
    }

    pub fn running_count(&self) -> (r: usize)
        requires
            self.wf(),
        ensures
            r == self.running(),
    {
        self.running_count
    }
}

} // verus!
