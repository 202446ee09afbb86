//! The scheduler's decisions as a state machine: the caller performs each
//! action (runs a module, waits) and reports each outcome back.

use vstd::prelude::*;

use crate::meta::ComputeContext;
use crate::object::ObjectId;
use crate::task::{
    id_completed, is_running_context, best_ready, deps_completed, has_id, with_status, GraphError, Task, TaskGraph, TaskId, TaskStatus,
};

verus! {

/// How a module's computation ended.
#[derive(Debug, Clone)]
pub enum TaskOutcome {
    /// It produced these objects.
    Success(Vec<ObjectId>),
    /// It failed with this message.
    Failure(String),
    /// It observed a cancellation request.
    Cancelled,
}

/// The record of one finished task.
#[derive(Debug, Clone)]
pub struct TaskResult {
    pub task_id: TaskId,
    pub success: bool,
    pub outputs: Vec<ObjectId>,
    pub error: Option<String>,
    /// Wall time of the computation, in nanoseconds.
    pub execution_time_ns: u64,
}

/// The status task `q` has after the running task `p` ends with `outcome`.
pub open spec fn outcome_status(ts: Seq<Task>, p: int, q: int, outcome: TaskOutcome) -> TaskStatus {
    match outcome {
        TaskOutcome::Success(_) => TaskGraph::status_after_completion(ts, p, q),
        TaskOutcome::Failure(_) => if q == p { TaskStatus::Failed } else { ts[q].status },
        TaskOutcome::Cancelled => if q == p { TaskStatus::Cancelled } else { ts[q].status },
    }
}

/// What the caller should do next.
#[derive(Debug, Clone, Copy, PartialEq, Eq, Structural)]
pub enum SchedulerAction {
    /// Compute the module named by the context; record the outcome
    /// afterwards.
    Start(TaskId, ComputeContext),
    /// Tasks are running and the concurrency limit or the queue allows nothing more:
    /// wait for one of them to be reported.
    Wait,
    /// Nothing runs and nothing can start: the run is over.
    Finished,
}

/// Runs the tasks of a graph under a bound on concurrency, recording one
/// result per finished task.
pub struct TaskExecutor {
    graph: TaskGraph,
    results: Vec<TaskResult>,
}

impl TaskExecutor {
    pub closed spec fn graph(&self) -> TaskGraph {
        self.graph
    }

    /// Results, in the order they were recorded.
    pub closed spec fn results(&self) -> Seq<TaskResult> {
        self.results@
    }

    /// The graph is well formed and running tasks stay within its limit.
    pub open spec fn wf(&self) -> bool {
        self.graph().wf() && self.graph().running() <= self.graph().max_concurrent()
    }

    /// At any moment the number of running tasks is at most the limit.
    pub proof fn law_running_within_limit(&self)
        requires
            self.wf(),
        ensures
            self.graph().running() <= self.graph().max_concurrent(),
    {
    }

    pub fn new(max_concurrent: usize) -> (r: Self)
        ensures
            r.wf(),
            r.graph().tasks().len() == 0,
            r.graph().max_concurrent() == max_concurrent,
            r.results().len() == 0,
    {
        TaskExecutor { graph: TaskGraph::new(max_concurrent), results: Vec::new() }
    }

    /// Adds a task to the graph; see `TaskGraph::add_task`.
    pub fn add_task(&mut self, task: Task) -> (r: Result<(), GraphError>)
        requires
            old(self).wf(),
        ensures
            final(self).wf(),
            final(self).results() == old(self).results(),
            final(self).graph().max_concurrent() == old(self).graph().max_concurrent(),
            old(self).graph().tasks().len() < usize::MAX ==> {
                &&& (has_id(old(self).graph().tasks(), task.id) ==> r == Err::<(), GraphError>(GraphError::DuplicateId))
                &&& (!has_id(old(self).graph().tasks(), task.id) && task.dependencies@.contains(task.id)
                    ==> r == Err::<(), GraphError>(GraphError::Cycle))
                &&& (!has_id(old(self).graph().tasks(), task.id) && !task.dependencies@.contains(task.id)
                    && (exists|j: int| 0 <= j < task.dependencies@.len()
                        && !has_id(old(self).graph().tasks(), #[trigger] task.dependencies@[j]))
                    ==> r == Err::<(), GraphError>(GraphError::UnknownDependency))
                &&& (!has_id(old(self).graph().tasks(), task.id) && !task.dependencies@.contains(task.id)
                    && (forall|j: int| 0 <= j < task.dependencies@.len()
                        ==> has_id(old(self).graph().tasks(), #[trigger] task.dependencies@[j])) ==> r is Ok)
                &&& (r is Ok ==> final(self).graph().tasks() == old(self).graph().tasks().push(
                    with_status(task, if deps_completed(old(self).graph().tasks(), task) {
                        TaskStatus::Ready
                    } else {
                        TaskStatus::Pending
                    }),
                ))
            },
            old(self).graph().tasks().len() == usize::MAX ==> r == Err::<(), GraphError>(GraphError::CapacityExceeded),
            r is Err ==> *final(self) == *old(self),
    {
        if self.graph.tasks_len() == usize::MAX {
            return Err(GraphError::CapacityExceeded);
        }
        let r = self.graph.add_task(task);
        proof {
            if r is Ok {
                assert(with_status(task, if deps_completed(old(self).graph().tasks(), task) {
                    TaskStatus::Ready
                } else {
                    TaskStatus::Pending
                }) == (Task {
                    status: if deps_completed(old(self).graph().tasks(), task) {
                        TaskStatus::Ready
                    } else {
                        TaskStatus::Pending
                    },
                    ..task
                }));
            }
        }
        r
    }

    /// The next step: start the best ready task when the concurrency limit
    /// allows it, wait while tasks run, or finish. On finishing, tasks that
    /// can never start (a dependency failed or was cancelled, or the limit
    /// admits nothing) are marked cancelled.
    pub fn next_action(&mut self) -> (r: SchedulerAction)
        requires
            old(self).wf(),
        ensures
            final(self).wf(),
            final(self).results() == old(self).results(),
            final(self).graph().max_concurrent() == old(self).graph().max_concurrent(),
            r matches SchedulerAction::Start(id, ctx) ==> exists|b: int| {
                &&& best_ready(old(self).graph().tasks(), old(self).graph().ready_positions(), b)
                &&& #[trigger] old(self).graph().ready_positions()[b] < old(self).graph().tasks().len()
                &&& id == old(self).graph().tasks()[old(self).graph().ready_positions()[b] as int].id
                &&& ctx == old(self).graph().tasks()[old(self).graph().ready_positions()[b] as int].context
                &&& deps_completed(old(self).graph().tasks(), old(self).graph().tasks()[old(self).graph().ready_positions()[b] as int])
                &&& final(self).graph().ready_positions() == old(self).graph().ready_positions().remove(b)
                &&& final(self).graph().tasks() == old(self).graph().tasks().update(
                    old(self).graph().ready_positions()[b] as int,
                    with_status(old(self).graph().tasks()[old(self).graph().ready_positions()[b] as int], TaskStatus::Running),
                )
            },
            r is Start <==> (old(self).graph().running() < old(self).graph().max_concurrent()
                && old(self).graph().ready_positions().len() > 0),
            r is Wait <==> ((old(self).graph().running() >= old(self).graph().max_concurrent()
                || old(self).graph().ready_positions().len() == 0) && old(self).graph().running() > 0),
            r is Wait ==> *final(self) == *old(self),
            r is Finished ==> old(self).graph().running() == 0,
            r is Finished ==> final(self).graph().ready_positions().len() == 0,
            r is Finished ==> final(self).graph().tasks().len() == old(self).graph().tasks().len(),
            r is Finished ==> forall|p: int| 0 <= p < old(self).graph().tasks().len() ==> #[trigger] final(self).graph().tasks()[p] == {
                let t = old(self).graph().tasks()[p];
                if t.status == TaskStatus::Pending || t.status == TaskStatus::Ready {
                    with_status(t, TaskStatus::Cancelled)
                } else {
                    t
                }
            },
    {
        let running = self.graph.running_count();
        if running < self.graph.max_limit() {
            let ghost before = self.graph;
            match self.graph.get_ready_task() {
                Some(id) => {
                    let ctx = self.graph.context_of_running(id);
                    proof {
                        let b = choose|b: int| {
                            &&& best_ready(before.tasks(), before.ready_positions(), b)
                            &&& #[trigger] before.ready_positions()[b] < before.tasks().len()
                            &&& id == before.tasks()[before.ready_positions()[b] as int].id
                            &&& self.graph.ready_positions() == before.ready_positions().remove(b)
                            &&& self.graph.tasks() == before.tasks().update(
                                before.ready_positions()[b] as int,
                                with_status(before.tasks()[before.ready_positions()[b] as int], TaskStatus::Running),
                            )
                        };
                        let q = before.ready_positions()[b] as int;
                        assert(self.graph.tasks()[q].id == id);
                        before.lemma_ready_positions();
                        assert(before.tasks()[q].status == TaskStatus::Ready);
                        before.lemma_graph_invariants();
                        assert(deps_completed(before.tasks(), before.tasks()[q]));
                    }
                    return SchedulerAction::Start(id, ctx);
                },
                None => {},
            }
        }
        if running > 0 {
            return SchedulerAction::Wait;
        }
        self.graph.cancel_waiting();
        SchedulerAction::Finished
    }

    /// Records how a running task ended: success completes it (and readies
    /// its dependents), failure fails it, cancellation cancels it. The task
    /// found every dependency completed when its result is recorded.
    pub fn record_result(&mut self, id: TaskId, outcome: TaskOutcome, execution_time_ns: u64) -> (r: Result<(), GraphError>)
        requires
            old(self).wf(),
        ensures
            final(self).wf(),
            final(self).graph().max_concurrent() == old(self).graph().max_concurrent(),
            r is Ok <==> exists|p: int| 0 <= p < old(self).graph().tasks().len()
                && (#[trigger] old(self).graph().tasks()[p]).id == id
                && old(self).graph().tasks()[p].status == TaskStatus::Running,
            r is Err ==> *final(self) == *old(self),
            r is Ok ==> exists|p: int| {
                &&& 0 <= p < old(self).graph().tasks().len()
                &&& (#[trigger] old(self).graph().tasks()[p]).id == id
                &&& old(self).graph().tasks()[p].status == TaskStatus::Running
                &&& deps_completed(old(self).graph().tasks(), old(self).graph().tasks()[p])
                &&& final(self).graph().tasks().len() == old(self).graph().tasks().len()
                &&& forall|q: int| 0 <= q < old(self).graph().tasks().len() ==> #[trigger] final(self).graph().tasks()[q]
                    == with_status(old(self).graph().tasks()[q], outcome_status(old(self).graph().tasks(), p, q, outcome))
            },
            r is Ok ==> final(self).results().len() == old(self).results().len() + 1,
            r is Ok ==> final(self).results().drop_last() == old(self).results(),
            r is Ok ==> final(self).results().last().task_id == id,
            r is Ok ==> final(self).results().last().success == (outcome is Success),
            r is Ok ==> final(self).results().last().execution_time_ns == execution_time_ns,
            r is Ok ==> (outcome matches TaskOutcome::Failure(e) ==> final(self).results().last().error == Some(e)),
            r is Ok ==> (outcome matches TaskOutcome::Success(o) ==> final(self).results().last().outputs@ == o@
                && final(self).results().last().error is None),
            r is Ok ==> (outcome is Failure ==> final(self).results().last().outputs@.len() == 0),
            r is Ok ==> (outcome is Cancelled ==> final(self).results().last().outputs@.len() == 0
                && (final(self).results().last().error matches Some(t) && t@ == "cancelled"@)),
    {
        if !self.graph.is_running(id) {
            return Err(GraphError::NotRunning);
        }
        let ghost g0 = self.graph;
        let ghost p = choose|p: int| 0 <= p < g0.tasks().len() && (#[trigger] g0.tasks()[p]).id == id
            && g0.tasks()[p].status == TaskStatus::Running;
        proof {
            g0.lemma_graph_invariants();
            assert(g0.tasks()[p].status == TaskStatus::Running);
            assert(!id_completed(g0.tasks(), id)) by {
                if id_completed(g0.tasks(), id) {
                    let w = choose|w: int| 0 <= w < g0.tasks().len() && (#[trigger] g0.tasks()[w]).id == id
                        && g0.tasks()[w].status == TaskStatus::Completed;
                    g0.lemma_ids_unique(w, p);
                }
            }
        }
        let ghost oc = outcome;
        let (success, outputs, error) = match outcome {
            TaskOutcome::Success(objs) => {
                let _ = self.graph.mark_completed(id);
                proof {
                    let c = choose|c: int| {
                        &&& 0 <= c < g0.tasks().len()
                        &&& (#[trigger] g0.tasks()[c]).id == id
                        &&& self.graph.tasks().len() == g0.tasks().len()
                        &&& forall|q: int| 0 <= q < g0.tasks().len() ==> #[trigger] self.graph.tasks()[q]
                            == with_status(g0.tasks()[q], TaskGraph::status_after_completion(g0.tasks(), c, q))
                    };
                    g0.lemma_ids_unique(c, p);
                }
                (true, objs, None)
            },
            TaskOutcome::Failure(e) => {
                let _ = self.graph.mark_failed(id);
                proof {
                    let c = choose|c: int| 0 <= c < g0.tasks().len() && (#[trigger] g0.tasks()[c]).id == id
                        && self.graph.tasks() == g0.tasks().update(c, with_status(g0.tasks()[c], TaskStatus::Failed));
                    g0.lemma_ids_unique(c, p);
                    assert forall|q: int| 0 <= q < g0.tasks().len() implies #[trigger] self.graph.tasks()[q]
                        == with_status(g0.tasks()[q], outcome_status(g0.tasks(), p, q, oc)) by {
                        if q != p {
                            assert(with_status(g0.tasks()[q], g0.tasks()[q].status) == g0.tasks()[q]);
                        }
                    }
                }
                (false, Vec::new(), Some(e))
            },
            TaskOutcome::Cancelled => {
                let _ = self.graph.mark_cancelled(id);
                proof {
                    let c = choose|c: int| 0 <= c < g0.tasks().len() && (#[trigger] g0.tasks()[c]).id == id
                        && self.graph.tasks() == g0.tasks().update(c, with_status(g0.tasks()[c], TaskStatus::Cancelled));
                    g0.lemma_ids_unique(c, p);
                    assert forall|q: int| 0 <= q < g0.tasks().len() implies #[trigger] self.graph.tasks()[q]
                        == with_status(g0.tasks()[q], outcome_status(g0.tasks(), p, q, oc)) by {
                        if q != p {
                            assert(with_status(g0.tasks()[q], g0.tasks()[q].status) == g0.tasks()[q]);
                        }
                    }
                }
                (false, Vec::new(), Some("cancelled".to_string()))
            },
        };

        let ghost old_results = self.results@;
        self.results.push(TaskResult { task_id: id, success, outputs, error, execution_time_ns });
        assert(self.results@.drop_last() =~= old_results);
        Ok(())
    }

    /// Cancels the run: tasks that have not started are dropped, and the
    /// contexts of the running tasks are returned so that their modules can
    /// be told to stop.
    pub fn cancel_all(&mut self) -> (r: Vec<ComputeContext>)
        requires
            old(self).wf(),
        ensures
            final(self).wf(),
            final(self).results() == old(self).results(),
            final(self).graph().ready_positions().len() == 0,
            final(self).graph().max_concurrent() == old(self).graph().max_concurrent(),
            final(self).graph().tasks().len() == old(self).graph().tasks().len(),
            forall|p: int| 0 <= p < old(self).graph().tasks().len() ==> #[trigger] final(self).graph().tasks()[p] == {
                let t = old(self).graph().tasks()[p];
                if t.status == TaskStatus::Pending || t.status == TaskStatus::Ready {
                    with_status(t, TaskStatus::Cancelled)
                } else {
                    t
                }
            },
            forall|p: int| 0 <= p < final(self).graph().tasks().len()
                && (#[trigger] final(self).graph().tasks()[p]).status == TaskStatus::Running
                ==> r@.contains(final(self).graph().tasks()[p].context),
            forall|k: int| 0 <= k < r@.len() ==> is_running_context(final(self).graph().tasks(), #[trigger] r@[k]),
    {
        self.graph.cancel_waiting();
        self.graph.running_contexts()
    }

    /// The results recorded so far.
    pub fn results_vec(&self) -> (r: &Vec<TaskResult>)
        ensures
            r@ == self.results(),
    {
        &self.results
    }

    /// Hands out the recorded results, leaving none.
    pub fn take_results(&mut self) -> (r: Vec<TaskResult>)
        ensures
            r@ == old(self).results(),
            final(self).results().len() == 0,
            final(self).graph() == old(self).graph(),
    {
        let mut r: Vec<TaskResult> = Vec::new();
        core::mem::swap(&mut r, &mut self.results);
        r
    }

    pub fn is_complete(&self) -> (r: bool)
        requires
            self.wf(),
        ensures
            r == (crate::task::count_status(self.graph().tasks(), TaskStatus::Completed) == self.graph().tasks().len()),
    {
        self.graph.is_complete()
    }

    pub fn pending_count(&self) -> (r: usize)
        requires
            self.wf(),
        ensures
            r == self.graph().tasks().len() - crate::task::count_status(self.graph().tasks(), TaskStatus::Completed),
    {
        self.graph.pending_count()
    }

    pub fn graph_ref(&self) -> (r: &TaskGraph)
        ensures
            *r == self.graph(),
    {
        &self.graph
    }
}

} // verus!
