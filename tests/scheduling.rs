use vistle::meta::ComputeContext;
use vistle::message::MessageType;
use vistle::object::ObjectId;
use vistle::scheduler::{SchedulerAction, TaskExecutor, TaskOutcome};
use vistle::task::{GraphError, Task, TaskGraph, TaskId, TaskPriority, TaskStatus};
use vistle::module::{DataReaderModule, IsoSurfaceModule, RendererModule};
use vistle::workflow::{
    create_sample_workflow, validate_workflow, ModuleSpec, WorkflowBuilder, WorkflowError, WorkflowExecutor, WorkflowSpec,
    WorkflowStatus,
};

fn task(id: u64, deps: Vec<u64>) -> Task {
    Task::new(TaskId::new(id), ComputeContext::new(id as u32, 0, 1))
        .with_dependencies(deps.into_iter().map(TaskId::new).collect())
}

#[test]
fn graph_queues_tasks_when_dependencies_complete() {
    let mut g = TaskGraph::new(8);
    assert_eq!(g.add_task(task(1, vec![])), Ok(()));
    assert_eq!(g.add_task(task(2, vec![1])), Ok(()));
    assert_eq!(g.get_task(TaskId::new(2)).unwrap().status, TaskStatus::Pending);
    assert_eq!(g.get_ready_task(), Some(TaskId::new(1)));
    assert_eq!(g.get_ready_task(), None);
    assert_eq!(g.mark_completed(TaskId::new(1)), Ok(()));
    // idempotent
    assert_eq!(g.mark_completed(TaskId::new(1)), Ok(()));
    assert_eq!(g.get_task(TaskId::new(2)).unwrap().status, TaskStatus::Ready);
    assert_eq!(g.get_ready_task(), Some(TaskId::new(2)));
    assert_eq!(g.mark_completed(TaskId::new(2)), Ok(()));
    assert!(g.is_complete());
    assert_eq!(g.pending_count(), 0);
}

#[test]
fn graph_rejects_bad_tasks() {
    let mut g = TaskGraph::new(2);
    assert_eq!(g.add_task(task(1, vec![])), Ok(()));
    assert_eq!(g.add_task(task(1, vec![])), Err(GraphError::DuplicateId));
    assert_eq!(g.add_task(task(2, vec![2])), Err(GraphError::Cycle));
    assert_eq!(g.add_task(task(3, vec![9])), Err(GraphError::UnknownDependency));
    assert_eq!(g.mark_completed(TaskId::new(42)), Err(GraphError::UnknownTask));
    assert_eq!(g.mark_completed(TaskId::new(1)), Err(GraphError::NotRunning));
}

#[test]
fn graph_pops_by_priority_then_fifo() {
    let mut g = TaskGraph::new(8);
    g.add_task(task(1, vec![]).with_priority(TaskPriority::Low)).unwrap();
    g.add_task(task(2, vec![]).with_priority(TaskPriority::High)).unwrap();
    g.add_task(task(3, vec![]).with_priority(TaskPriority::High)).unwrap();
    g.add_task(task(4, vec![]).with_priority(TaskPriority::Critical)).unwrap();
    assert_eq!(g.get_ready_task(), Some(TaskId::new(4)));
    assert_eq!(g.get_ready_task(), Some(TaskId::new(2)));
    assert_eq!(g.get_ready_task(), Some(TaskId::new(3)));
    assert_eq!(g.get_ready_task(), Some(TaskId::new(1)));
}

#[test]
fn graph_pops_whenever_queue_has_task() {
    let mut g = TaskGraph::new(1);
    g.add_task(task(1, vec![])).unwrap();
    g.add_task(task(2, vec![])).unwrap();
    assert!(g.get_ready_task().is_some());
    assert!(g.get_ready_task().is_some());
    assert_eq!(g.get_ready_task(), None);
}

#[test]
fn executor_respects_concurrency_limit() {
    let mut exec = TaskExecutor::new(2);
    for i in 1..=4 {
        exec.add_task(task(i, vec![])).unwrap();
    }
    assert!(matches!(exec.next_action(), SchedulerAction::Start(..)));
    assert!(matches!(exec.next_action(), SchedulerAction::Start(..)));
    assert_eq!(exec.graph_ref().running_count(), 2);
    assert_eq!(exec.next_action(), SchedulerAction::Wait);
    exec.record_result(TaskId::new(1), TaskOutcome::Success(vec![]), 1).unwrap();
    assert_eq!(exec.graph_ref().running_count(), 1);
    assert_eq!(exec.graph_ref().get_task(TaskId::new(1)).unwrap().status, TaskStatus::Completed);
    assert!(matches!(exec.next_action(), SchedulerAction::Start(..)));
    assert!(exec.graph_ref().running_count() <= 2);
    assert_eq!(exec.record_result(TaskId::new(4), TaskOutcome::Cancelled, 1).err(), Some(GraphError::NotRunning));
}

#[test]
fn built_tasks_carry_module_dependencies() {
    let spec = chain_spec().add_connection(vistle::workflow::ConnectionSpec {
        from_module: 1,
        from_port: "o".to_string(),
        to_module: 3,
        to_port: "i".to_string(),
    });
    let mut wx = WorkflowExecutor::new(8);
    let exec = wx.begin_workflow(&spec, 0).unwrap();
    let g = exec.graph_ref();
    assert_eq!(g.get_task(TaskId::new(1)).unwrap().status, TaskStatus::Ready);
    assert_eq!(g.get_task(TaskId::new(2)).unwrap().dependencies, vec![TaskId::new(1)]);
    assert_eq!(g.get_task(TaskId::new(3)).unwrap().dependencies, vec![TaskId::new(2), TaskId::new(1)]);
    assert_eq!(g.get_task(TaskId::new(3)).unwrap().status, TaskStatus::Pending);
    assert_eq!(g.get_task(TaskId::new(3)).unwrap().context, ComputeContext::new(3, 0, 1));
}

/// Drives an executor to the end; `fails` names the module whose task fails.
fn run(exec: &mut TaskExecutor, fails: Option<u32>) -> Vec<u32> {
    let mut started = Vec::new();
    let mut running = Vec::new();
    loop {
        match exec.next_action() {
            SchedulerAction::Start(id, ctx) => {
                started.push(ctx.module_id);
                running.push((id, ctx.module_id));
            }
            SchedulerAction::Wait => {
                let (id, m) = running.remove(0);
                let outcome = if Some(m) == fails {
                    TaskOutcome::Failure("x".to_string())
                } else {
                    TaskOutcome::Success(vec![ObjectId::from_u128(m as u128)])
                };
                exec.record_result(id, outcome, 1).unwrap();
            }
            SchedulerAction::Finished => break,
        }
    }
    started
}

fn chain_spec() -> WorkflowSpec {
    WorkflowSpec::new("w", "chain")
        .add_module(ModuleSpec::new(1, "source", "s"))
        .add_module(ModuleSpec::new(2, "filter", "f").depends_on(1))
        .add_module(ModuleSpec::new(3, "sink", "k").depends_on(2))
}

#[test]
fn single_module_success() {
    let spec = WorkflowSpec::new("s1", "single").add_module(ModuleSpec::new(1, "source", "s"));
    let mut wx = WorkflowExecutor::new(8);
    let mut exec = wx.begin_workflow(&spec, 0).unwrap();
    run(&mut exec, None);
    let result = wx.finish_workflow("s1", exec.take_results(), 5);
    assert!(result.success);
    assert_eq!(result.task_results.len(), 1);
    assert!(result.task_results.iter().all(|r| r.error.is_none()));
    assert_eq!(wx.workflow_status("s1"), Some(WorkflowStatus::Completed));
}

#[test]
fn linear_chain_runs_in_order() {
    let spec = chain_spec();
    let mut wx = WorkflowExecutor::new(8);
    let mut exec = wx.begin_workflow(&spec, 0).unwrap();
    let started = run(&mut exec, None);
    assert_eq!(started, vec![1, 2, 3]);
    let result = wx.finish_workflow("w", exec.take_results(), 5);
    assert!(result.success);
    assert_eq!(result.task_results.len(), 3);
}

#[test]
fn diamond_runs_join_last() {
    let spec = WorkflowSpec::new("d", "diamond")
        .add_module(ModuleSpec::new(1, "a", "a"))
        .add_module(ModuleSpec::new(2, "b", "b").depends_on(1))
        .add_module(ModuleSpec::new(3, "c", "c").depends_on(1))
        .add_module(ModuleSpec::new(4, "d", "d").depends_on(2).depends_on(3));
    let mut wx = WorkflowExecutor::new(8);
    let mut exec = wx.begin_workflow(&spec, 0).unwrap();
    // 2 and 3 run at the same time
    assert!(matches!(exec.next_action(), SchedulerAction::Start(_, c) if c.module_id == 1));
    exec.record_result(TaskId::new(1), TaskOutcome::Success(vec![]), 1).unwrap();
    let a = exec.next_action();
    let b = exec.next_action();
    assert!(matches!(a, SchedulerAction::Start(_, c) if c.module_id == 2));
    assert!(matches!(b, SchedulerAction::Start(_, c) if c.module_id == 3));
    assert_eq!(exec.next_action(), SchedulerAction::Wait);
    exec.record_result(TaskId::new(2), TaskOutcome::Success(vec![]), 1).unwrap();
    assert_eq!(exec.next_action(), SchedulerAction::Wait);
    exec.record_result(TaskId::new(3), TaskOutcome::Success(vec![]), 1).unwrap();
    assert!(matches!(exec.next_action(), SchedulerAction::Start(_, c) if c.module_id == 4));
    exec.record_result(TaskId::new(4), TaskOutcome::Success(vec![]), 1).unwrap();
    assert_eq!(exec.next_action(), SchedulerAction::Finished);
    assert!(wx.finish_workflow("d", exec.take_results(), 1).success);
}

#[test]
fn failing_middle_node() {
    let spec = chain_spec();
    let mut wx = WorkflowExecutor::new(8);
    let mut exec = wx.begin_workflow(&spec, 0).unwrap();
    let started = run(&mut exec, Some(2));
    assert_eq!(started, vec![1, 2]);
    let t3 = exec.graph_ref().get_task(TaskId::new(3)).unwrap().status;
    assert_eq!(t3, TaskStatus::Cancelled);
    let result = wx.finish_workflow("w", exec.take_results(), 5);
    assert!(!result.success);
    assert!(result.task_results[0].success);
    assert!(!result.task_results[1].success);
    assert_eq!(result.task_results[1].error, Some("x".to_string()));
    assert_eq!(result.task_results.len(), 2);
    assert_eq!(wx.workflow_status("w"), Some(WorkflowStatus::Failed));
}

#[test]
fn timeout_cancels_running_module() {
    let spec = WorkflowSpec::new("t", "slow").add_module(ModuleSpec::new(1, "source", "s"));
    let mut wx = WorkflowExecutor::new(8);
    let mut exec = wx.begin_workflow(&spec, 0).unwrap();
    let id = match exec.next_action() {
        SchedulerAction::Start(id, _) => id,
        other => panic!("unexpected {:?}", other),
    };
    assert!(wx.time_out_workflow("t"));
    let to_cancel = exec.cancel_all();
    assert_eq!(to_cancel.len(), 1);
    assert_eq!(to_cancel[0].module_id, 1);
    exec.record_result(id, TaskOutcome::Cancelled, 10_000_000).unwrap();
    let result = wx.finish_workflow("t", exec.take_results(), 10_000_000);
    assert!(!result.success);
    assert_eq!(result.error, Some(WorkflowError::Timeout));
    assert_eq!(result.task_results[0].error, Some("cancelled".to_string()));
    assert_eq!(result.task_results.len(), 1);
    assert!(!result.task_results[0].success);
    assert_eq!(wx.workflow_status("t"), Some(WorkflowStatus::Failed));
}

#[test]
fn cancel_terminal_workflow_is_noop() {
    let spec = WorkflowSpec::new("c", "x").add_module(ModuleSpec::new(1, "source", "s"));
    let mut wx = WorkflowExecutor::new(8);
    let mut exec = wx.begin_workflow(&spec, 0).unwrap();
    run(&mut exec, None);
    wx.finish_workflow("c", exec.take_results(), 1);
    assert_eq!(wx.cancel_workflow("c"), Ok(()));
    assert_eq!(wx.workflow_status("c"), Some(WorkflowStatus::Completed));
    assert_eq!(wx.cancel_workflow("c"), Ok(()));
    assert_eq!(wx.cancel_workflow("unknown"), Ok(()));
    assert!(wx.remove_workflow("c"));
    assert_eq!(wx.workflow_status("c"), None);
}

#[test]
fn cancel_running_workflow() {
    let spec = WorkflowSpec::new("r", "x").add_module(ModuleSpec::new(1, "source", "s"));
    let mut wx = WorkflowExecutor::new(8);
    let _exec = wx.begin_workflow(&spec, 0).unwrap();
    assert_eq!(wx.active_workflows(), vec!["r".to_string()]);
    assert_eq!(wx.cancel_workflow("r"), Ok(()));
    assert_eq!(wx.workflow_status("r"), Some(WorkflowStatus::Cancelled));
}

#[test]
fn validation_errors() {
    let dup = WorkflowSpec::new("a", "a")
        .add_module(ModuleSpec::new(1, "x", "x"))
        .add_module(ModuleSpec::new(1, "y", "y"));
    assert_eq!(validate_workflow(&dup), Err(WorkflowError::DuplicateModule(1)));
    let unknown = WorkflowSpec::new("a", "a").add_module(ModuleSpec::new(1, "x", "x").depends_on(5));
    assert_eq!(validate_workflow(&unknown), Err(WorkflowError::UnknownDependency(5)));
    let cyc = WorkflowSpec::new("a", "a")
        .add_module(ModuleSpec::new(1, "x", "x").depends_on(2))
        .add_module(ModuleSpec::new(2, "y", "y").depends_on(1));
    assert_eq!(validate_workflow(&cyc), Err(WorkflowError::Cycle));
    let mut wx = WorkflowExecutor::new(8);
    assert!(wx.begin_workflow(&cyc, 0).is_err());
    assert_eq!(wx.workflow_status("a"), None);
    let self_loop = WorkflowSpec::new("a", "a").add_module(ModuleSpec::new(1, "x", "x").depends_on(1));
    assert_eq!(validate_workflow(&self_loop), Err(WorkflowError::Cycle));
}

#[test]
fn forward_dependencies_are_ordered() {
    let spec = WorkflowSpec::new("f", "fwd")
        .add_module(ModuleSpec::new(1, "x", "x").depends_on(2))
        .add_module(ModuleSpec::new(2, "y", "y"));
    assert_eq!(validate_workflow(&spec), Ok(vec![1, 0]));
}

#[test]
fn builder_numbers_modules_and_connects() {
    let spec = WorkflowBuilder::new("sample", "Sample")
        .description("demo")
        .add_module("DataReader", "Load")
        .parameter("filename", "a.vtk")
        .add_module("IsoSurface", "Extract")
        .parameter("iso_value", "0.5")
        .depends_on(1)
        .add_module("Renderer", "Render")
        .depends_on(2)
        .connect(1, "data_out", 2, "data_in")
        .connect(2, "surface_out", 3, "geometry_in")
        .build();
    assert_eq!(spec.modules.len(), 3);
    assert_eq!(spec.modules[1].id, 2);
    assert_eq!(spec.modules[1].dependencies, vec![1]);
    assert_eq!(spec.modules[0].parameters, vec![("filename".to_string(), "a.vtk".to_string())]);
    assert_eq!(spec.connections.len(), 2);
    assert_eq!(spec.description, "demo");
    assert_eq!(validate_workflow(&spec), Ok(vec![0, 1, 2]));
}

#[test]
fn sample_workflow_is_valid_and_runs() {
    let spec = create_sample_workflow();
    assert_eq!(spec.modules.len(), 3);
    assert_eq!(spec.modules[0].module_type, "DataReader");
    assert_eq!(spec.modules[2].dependencies, vec![2]);
    assert_eq!(validate_workflow(&spec), Ok(vec![0, 1, 2]));
    let mut wx = WorkflowExecutor::new(8);
    let mut exec = wx.begin_workflow(&spec, 0).unwrap();
    assert_eq!(run(&mut exec, None), vec![1, 2, 3]);
    assert!(wx.finish_workflow("sample_workflow", exec.take_results(), 1).success);
}

#[test]
fn example_modules_declare_ports_and_parameters() {
    let r = DataReaderModule::new(1);
    assert!(r.ports.get("data").is_some());
    assert!(r.parameters.get("filename").is_some());
    let f = IsoSurfaceModule::new(2);
    assert_eq!(f.ports.inputs().len(), 1);
    assert_eq!(f.ports.outputs().len(), 1);
    let v = RendererModule::new(3);
    assert_eq!(v.ports.inputs()[0].name, "geometry_in");
    assert_eq!(v.parameters.names(), vec!["background_color".to_string()]);
}

#[test]
fn success_records_no_error_and_counts() {
    let spec = chain_spec();
    let mut wx = WorkflowExecutor::new(8);
    let mut exec = wx.begin_workflow(&spec, 0).unwrap();
    run(&mut exec, None);
    let results = exec.take_results();
    assert!(results.iter().all(|r| r.error.is_none() && r.success));
    let r = wx.finish_workflow("w", results, 1);
    assert_eq!(r.error, None);
    assert!(r.success);
}

#[test]
fn failed_workflow_stays_failed() {
    let spec = WorkflowSpec::new("f", "x").add_module(ModuleSpec::new(1, "source", "s"));
    let mut wx = WorkflowExecutor::new(8);
    let mut exec = wx.begin_workflow(&spec, 0).unwrap();
    run(&mut exec, None);
    assert!(wx.fail_workflow("f"));
    let r = wx.finish_workflow("f", exec.take_results(), 1);
    assert!(!r.success);
    assert_eq!(r.error, None);
    assert_eq!(wx.workflow_status("f"), Some(WorkflowStatus::Failed));
}

#[test]
fn outputs_reach_downstream_ports() {
    let spec = create_sample_workflow();
    assert_eq!(spec.connections[0].from_port, "data_out");
    assert_eq!(spec.connections[1].to_port, "geometry_in");
    let outs = vec![("data_out".to_string(), vec![ObjectId::from_u128(7), ObjectId::from_u128(8)]), ("other".to_string(), vec![ObjectId::from_u128(9)])];
    let msgs = vistle::workflow::add_object_messages(&spec.connections, 1, &outs, 5);
    assert_eq!(msgs.len(), 2);
    for (m, id) in msgs.iter().zip([7u128, 8]) {
        assert_eq!((m.sender, m.recipient), (1, 2));
        assert!(matches!(&m.message_type, MessageType::AddObject { object_id, port_name } if object_id.as_u128() == id && port_name == "data_in"));
    }
    assert!(vistle::workflow::add_object_messages(&spec.connections, 3, &outs, 5).is_empty());
}
