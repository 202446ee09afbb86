use std::sync::Arc;

use vistle::codec::{decode_envelope, encode_envelope, CodecError};
use vistle::distributed::{DataPartitioner, LoadBalancer, MpiMessageChannel, MpiUniverse};
use vistle::message::{
    Message, MessageEnvelope, MessageId, MessagePayload, MessageRouter, MessageType, Priority, Route,
    RouteError,
};
use vistle::meta::{ComputeContext, ExecutionStats, ModuleInfo, ModuleStatus};
use vistle::module::{ModuleError, ModuleState};
use vistle::task::{BuildError, TaskBuilder, TaskId, TaskPriority, TaskStatus};
use vistle::object::{ObjectId, ObjectMeta, ObjectPayload, ObjectType, VistleObject};
use vistle::parameter::{
    Parameter, ParameterError, ParameterSet, ParameterType, ParameterValue, Port, PortSet, PortType,
};
use vistle::registry::{ObjectRegistry, RegistryError};
use vistle::ui::{Application, StatusDisplay, StatusLevel, UiBackend};
use vistle::util::{MemoryTracker, PerformanceMonitor, Timer};

#[test]
fn registry_store_get_and_duplicates() {
    let mut reg = ObjectRegistry::new();
    let obj = VistleObject::new(ObjectType::Points);
    let id = obj.id();
    let shared = Arc::new(obj.clone());
    assert_eq!(reg.store(shared.clone()), Ok(id));
    assert_eq!(*reg.get(id).unwrap(), obj);
    assert_eq!(reg.store(Arc::new(obj.clone())), Err(RegistryError::AlreadyExists));
    // a shared reference is still held here
    assert_eq!(reg.remove(id), Err(RegistryError::InUse));
    drop(shared);
    assert_eq!(reg.iter().len(), 1);
    assert_eq!(reg.remove(id), Ok(true));
    assert_eq!(reg.remove(id), Ok(false));
    assert!(reg.get(id).is_none());
}

#[test]
fn object_attributes_and_names() {
    let mut o = VistleObject::with_data(ObjectType::UnstructuredGrid, ObjectPayload::Custom(vec![1, 2, 3]));
    assert_eq!(o.get_attribute("k"), None);
    o.set_attribute("k".to_string(), "v".to_string());
    o.set_attribute("k".to_string(), "w".to_string());
    o.set_attribute("z".to_string(), "1".to_string());
    assert_eq!(o.get_attribute("k"), Some("w".to_string()));
    assert_eq!(o.attributes.len(), 2);
    assert!(o.is_complete());
    assert!(o.references().is_empty());
    assert_eq!(ObjectType::Triangles.as_str(), "Triangles");
    assert_eq!(ObjectType::Vec.code(), 100);
    assert_eq!(ObjectType::from_code(28), Some(ObjectType::Quads));
    assert_eq!(ObjectType::from_code(2), None);
    let a = ObjectId::new();
    let b = ObjectId::new();
    assert_ne!(a, b);
    assert_eq!((a.as_u128() >> 76) & 0xf, 4);
}

fn sample_envelopes() -> Vec<MessageEnvelope> {
    let kinds = vec![
        MessageType::Execute { module_id: 3, timestep: -2 },
        MessageType::CancelExecute { module_id: 4 },
        MessageType::Quit,
        MessageType::AddObject { object_id: ObjectId::from_u128(0xabcdef), port_name: "data_in".to_string() },
        MessageType::RemoveObject { object_id: ObjectId::from_u128(u128::MAX) },
        MessageType::SetParameter {
            module_id: 1,
            param_name: "iso".to_string(),
            value: ParameterValue::VecFloat(vec![0.5f32.to_bits(), 1.5f32.to_bits()]),
        },
        MessageType::SetParameter { module_id: 1, param_name: "s".to_string(), value: ParameterValue::VecString(vec!["ä".to_string(), "".to_string()]) },
        MessageType::SetParameter { module_id: 1, param_name: "b".to_string(), value: ParameterValue::Bool(true) },
        MessageType::AddParameter {
            module_id: 2,
            param_name: "n".to_string(),
            param_type: ParameterType::VectorInt { min: Some(-1), max: None },
        },
        MessageType::ConnectPorts { from_module: 1, from_port: "o".to_string(), to_module: 2, to_port: "i".to_string() },
        MessageType::DisconnectPorts { from_module: 1, from_port: "o".to_string(), to_module: 2, to_port: "i".to_string() },
        MessageType::ModuleReady { module_id: 9 },
        MessageType::ComputationComplete { module_id: 5, objects_created: vec![ObjectId::from_u128(1), ObjectId::from_u128(2)] },
        MessageType::Error { module_id: 6, message: "boom".to_string() },
        MessageType::Custom { type_id: 77, data: vec![0, 255, 7] },
    ];
    let payloads = vec![
        MessagePayload::Empty,
        MessagePayload::ObjectData(vec![1, 2, 3]),
        MessagePayload::ParameterData(vec![]),
        MessagePayload::Custom(vec![9]),
    ];
    let mut out = Vec::new();
    for (i, k) in kinds.into_iter().enumerate() {
        let m = Message {
            id: MessageId(0x1122_3344_5566_7788_99aa_bbcc_ddee_ff00 + i as u128),
            sender: 0,
            recipient: i as u32,
            priority: Priority::Critical,
            message_type: k,
            timestamp_ns: 1_700_000_000_000_000_000 + i as u64,
        };
        out.push(MessageEnvelope { message: m, payload: payloads[i % 4].clone() });
    }
    out
}

#[test]
fn envelope_round_trip() {
    for e in sample_envelopes() {
        let bytes = encode_envelope(&e);
        let d = decode_envelope(&bytes).unwrap();
        assert_eq!(format!("{:?}", d), format!("{:?}", e));
        assert_eq!(encode_envelope(&d), bytes);
    }
}

#[test]
fn envelope_layout() {
    let m = Message {
        id: MessageId(1),
        sender: 2,
        recipient: 3,
        priority: Priority::High,
        message_type: MessageType::Quit,
        timestamp_ns: 5,
    };
    let bytes = encode_envelope(&MessageEnvelope { message: m, payload: MessagePayload::ObjectData(vec![7, 8]) });
    let mut expected = vec![1u8];
    expected.extend_from_slice(&[0; 15]);
    expected.extend_from_slice(&[2, 0, 0, 0, 3, 0, 0, 0, 2, 2]);
    expected.extend_from_slice(&[5, 0, 0, 0, 0, 0, 0, 0]);
    expected.push(1);
    expected.extend_from_slice(&[2, 0, 0, 0, 0, 0, 0, 0, 7, 8]);
    assert_eq!(bytes, expected);
}

#[test]
fn envelope_decode_errors() {
    let e = &sample_envelopes()[2];
    let mut bytes = encode_envelope(e);
    assert_eq!(decode_envelope(&bytes[..bytes.len() - 1]).err(), Some(CodecError::Truncated));
    bytes.push(0);
    assert_eq!(decode_envelope(&bytes).err(), Some(CodecError::TrailingBytes));
    let mut bad = encode_envelope(e);
    bad[25] = 200; // the kind tag
    assert_eq!(decode_envelope(&bad).err(), Some(CodecError::UnknownTag(200)));
    let s = &sample_envelopes()[13];
    let mut utf = encode_envelope(s);
    let n = utf.len();
    // the last byte of "boom" precedes the timestamp (8 bytes) and the
    // payload: kind (1), length (8) and three bytes
    utf[n - 21] = 0xff;
    assert_eq!(decode_envelope(&utf).err(), Some(CodecError::InvalidUtf8));
}

#[test]
fn message_basics() {
    let m = Message::new(1, 0, MessageType::Quit, 3).with_priority(Priority::Low);
    assert!(m.is_broadcast());
    assert_eq!(m.priority, Priority::Low);
    assert_ne!(Message::new(1, 2, MessageType::Quit, 3).id, Message::new(1, 2, MessageType::Quit, 3).id);
}

#[test]
fn router_decisions() {
    let mut r = MessageRouter::new();
    r.register_module(5);
    r.register_module(5);
    assert!(r.is_local(5));
    assert_eq!(r.route(5), Ok(Route::Local(5)));
    assert_eq!(r.route(6), Err(RouteError::NoRoute));
    assert_eq!(r.route(0), Err(RouteError::NoRoute));
    let u = MpiUniverse::new(1, 3).unwrap();
    let r = r.with_mpi(MpiMessageChannel::new(&u));
    assert_eq!(r.route(6), Ok(Route::Remote(6)));
    assert_eq!(r.route(0), Ok(Route::Broadcast { ranks: vec![0, 2], local_modules: vec![5] }));
}

#[test]
fn partitioning() {
    assert_eq!(DataPartitioner::partition_1d(10, 0, 3), (0, 4));
    assert_eq!(DataPartitioner::partition_1d(10, 1, 3), (4, 3));
    assert_eq!(DataPartitioner::partition_1d(10, 2, 3), (7, 3));
    assert_eq!(DataPartitioner::partition_2d(5, 7, 1, 2), ((3, 0), (2, 7)));
    assert_eq!(DataPartitioner::global_index(2, 7), 9);
    assert!(DataPartitioner::owns_index(2, 3));
    assert!(!DataPartitioner::owns_index(3, 3));
    assert_eq!(LoadBalancer::balance_workload(7, 3), vec![(0, 3), (3, 2), (5, 2)]);
    assert!(LoadBalancer::balance_workload(7, 0).is_empty());
    assert!(MpiUniverse::new(3, 3).is_none());
    let u = MpiUniverse::single();
    assert_eq!((u.rank(), u.size()), (0, 1));
    assert_eq!(vistle::distributed::reduce_sum(1, &vec![2, 3]), Some(6));
    assert_eq!(vistle::distributed::reduce_sum(i64::MAX, &vec![1]), None);
    // a non-associative operation shows the left-to-right order
    assert_eq!(vistle::distributed::reduce_fold(100, &vec![10, 3], |a, b| a - b), 87);
}

#[test]
fn parameters_enforce_kind_and_bounds() {
    let mut ps = ParameterSet::new();
    ps.add(Parameter::new("n", "count", ParameterValue::Int(1)).with_type(ParameterType::Int { min: Some(0), max: Some(10) }));
    ps.add(Parameter::new("x", "scale", ParameterValue::Float(1.0f32.to_bits())).with_type(ParameterType::Float {
        min: Some((-1.0f32).to_bits()),
        max: Some(2.0f32.to_bits()),
    }));
    assert_eq!(ps.set_value("n", ParameterValue::Int(5)), Ok(()));
    assert_eq!(ps.get("n").unwrap().value, ParameterValue::Int(5));
    assert_eq!(ps.set_value("n", ParameterValue::Int(11)), Err(ParameterError::OutOfRange));
    assert_eq!(ps.set_value("n", ParameterValue::Bool(true)), Err(ParameterError::TypeMismatch));
    assert_eq!(ps.set_value("m", ParameterValue::Int(1)), Err(ParameterError::NotFound));
    assert_eq!(ps.set_value("x", ParameterValue::Float((-0.5f32).to_bits())), Ok(()));
    assert_eq!(ps.set_value("x", ParameterValue::Float((-1.5f32).to_bits())), Err(ParameterError::OutOfRange));
    assert_eq!(ps.set_value("x", ParameterValue::Float(f32::NAN.to_bits())), Err(ParameterError::OutOfRange));
    assert_eq!(ps.names().len(), 2);
    assert_eq!(ps.get("n").unwrap().value, ParameterValue::Int(5));
}

#[test]
fn ports_by_name_and_direction() {
    let mut ports = PortSet::new();
    ports.add(Port::new_input("in", "input"));
    ports.add(Port::new_output("out", "output").optional());
    assert_eq!(ports.get("in").unwrap().port_type, PortType::Input);
    assert!(ports.get("out").unwrap().optional);
    assert!(ports.get("none").is_none());
    assert_eq!(ports.inputs().len(), 1);
    assert_eq!(ports.outputs()[0].name, "out");
    assert_eq!(ports.names(), vec!["in".to_string(), "out".to_string()]);
}

#[test]
fn meta_and_stats() {
    let info = ModuleInfo::new(3, "Reader", 0, 1);
    assert_eq!(info.category, "General");
    assert_eq!(info.status, ModuleStatus::Initializing);
    let ctx = ComputeContext::new(3, 0, 1).with_timestep(4).with_iteration(2);
    assert_eq!((ctx.timestep, ctx.iteration), (4, 2));
    let mut st = ExecutionStats::new(3, 100);
    st.increment_created();
    st.increment_processed();
    st.add_error("e".to_string());
    assert_eq!(st.duration(), None);
    let st = st.complete(350);
    assert_eq!(st.duration(), Some(250));
    assert_eq!((st.objects_created, st.objects_processed, st.errors.len()), (1, 1, 1));
}

#[test]
fn monitoring_utilities() {
    let mut pm = PerformanceMonitor::new();
    assert_eq!(pm.get_average("a"), None);
    pm.record_timing("a".to_string(), 10);
    pm.record_timing("a".to_string(), 20);
    pm.record_timing("b".to_string(), 5);
    assert_eq!(pm.get_average("a"), Some(15));
    let s = pm.get_stats("a").unwrap();
    assert_eq!((s.count, s.average, s.min, s.max), (2, 15, 10, 20));
    pm.clear();
    assert!(pm.get_stats("a").is_none());
    let t: Timer = pm.start_timer("t", 100);
    assert_eq!(t.elapsed(130), 30);
    assert_eq!(t.elapsed(50), 0);
    let mut mt = MemoryTracker::new(10);
    mt.update(30);
    mt.update(20);
    assert_eq!((mt.initial_usage(), mt.current_usage(), mt.peak_usage()), (10, 20, 30));
    mt.reset_peak(5);
    assert_eq!(mt.peak_usage(), 5);
}

#[test]
fn status_display_keeps_latest() {
    let mut sd = StatusDisplay::new(2);
    sd.add_message("a".to_string(), StatusLevel::Info);
    sd.add_message("b".to_string(), StatusLevel::Warning);
    sd.add_message("c".to_string(), StatusLevel::Error);
    let msgs: Vec<&str> = sd.messages().iter().map(|m| m.0.as_str()).collect();
    assert_eq!(msgs, vec!["b", "c"]);
    sd.clear();
    assert!(sd.messages().is_empty());
    let app = Application::new("t", (3, 4)).with_backend(UiBackend::Web);
    assert_eq!((app.width, app.height), (3, 4));
    assert!(!app.supported());
}

#[test]
fn meta_merge_takes_latest() {
    let mut a = ObjectMeta::new().with_generation(2).with_iteration(5).with_real_time(1.0f64.to_bits());
    let b = ObjectMeta::new().with_generation(3).with_iteration(1).with_real_time(2.5f64.to_bits()).with_block(1, 4);
    a.merge(&b);
    assert_eq!((a.generation, a.iteration), (3, 5));
    assert_eq!(f64::from_bits(a.real_time_bits), 2.5);
    assert_eq!((a.block, a.num_blocks), (0, 1));
    let c = ObjectMeta::new().with_real_time(f64::NAN.to_bits());
    a.merge(&c);
    assert_eq!(f64::from_bits(a.real_time_bits), 2.5);
    assert_eq!(a.transform_bits[0], 1.0f32.to_bits());
    assert_eq!(a.transform_bits[1], 0);
}

#[test]
fn module_lifecycle() {
    let mut ports = PortSet::new();
    ports.add(Port::new_input("in", "input"));
    ports.add(Port::new_output("out", "output"));
    let mut m = ModuleState::new(7, 0);
    assert_eq!(m.status_now(), ModuleStatus::Initializing);
    assert_eq!(m.begin_execute(), Err(ModuleError::NotReady));
    assert_eq!(m.make_ready(), Ok(()));
    assert_eq!(m.set_input(&ports, "in".to_string(), vec![ObjectId::from_u128(1)]), Ok(()));
    assert_eq!(m.set_input(&ports, "out".to_string(), vec![]), Err(ModuleError::UnknownPort));
    assert_eq!(m.set_input(&ports, "x".to_string(), vec![]), Err(ModuleError::UnknownPort));
    assert_eq!(m.begin_execute(), Ok(()));
    assert_eq!(m.begin_execute(), Err(ModuleError::AlreadyExecuting));
    assert_eq!(m.finish_execute(Ok(vec![ObjectId::from_u128(2), ObjectId::from_u128(3)]), 9), Ok(()));
    assert_eq!(m.status_now(), ModuleStatus::Completed);
    assert_eq!(m.statistics().objects_created, 2);
    assert_eq!(m.statistics().duration(), Some(9));
    assert_eq!(m.finish_execute(Ok(vec![]), 10), Err(ModuleError::NotExecuting));
    m.make_ready().unwrap();
    m.begin_execute().unwrap();
    m.cancel();
    m.cancel();
    m.finish_execute(Ok(vec![]), 11).unwrap();
    assert_eq!(m.status_now(), ModuleStatus::Cancelled);
    m.make_ready().unwrap();
    m.begin_execute().unwrap();
    m.finish_execute(Err("x".to_string()), 12).unwrap();
    assert_eq!(m.status_now(), ModuleStatus::Error);
    assert_eq!(m.statistics().errors, vec!["x".to_string()]);
}

#[test]
fn task_builder_requires_id_and_context() {
    assert_eq!(TaskBuilder::new().build().err(), Some(BuildError::MissingId));
    assert_eq!(TaskBuilder::new().id(TaskId::new(1)).build().err(), Some(BuildError::MissingContext));
    let t = TaskBuilder::new()
        .id(TaskId::new(4))
        .context(ComputeContext::new(4, 0, 1))
        .depends_on(TaskId::new(1))
        .priority(TaskPriority::High)
        .build()
        .unwrap();
    assert_eq!(t.id.as_u64(), 4);
    assert_eq!(t.dependencies, vec![TaskId::new(1)]);
    assert_eq!(t.priority, TaskPriority::High);
    assert_eq!(t.status, TaskStatus::Pending);
    assert_eq!(t.module_id(), 4);
    assert!(t.dependencies_satisfied(&[TaskId::new(1), TaskId::new(9)]));
    assert!(!t.dependencies_satisfied(&[TaskId::new(9)]));
}

#[test]
fn module_and_codec_messages() {
    let m = vistle::module::execute_started_message(4, 7, 9);
    assert!(matches!(m.message_type, MessageType::Execute { module_id: 4, timestep: 7 }));
    assert_eq!((m.sender, m.recipient, m.timestamp_ns), (4, 0, 9));
    let ok: Result<Vec<ObjectId>, String> = Ok(vec![ObjectId::from_u128(5)]);
    let done = vistle::module::execute_finished_message(4, &ok, 10);
    assert!(matches!(done.message_type, MessageType::ComputationComplete { module_id: 4, ref objects_created } if objects_created == &vec![ObjectId::from_u128(5)]));
    let bad: Result<Vec<ObjectId>, String> = Err("x".to_string());
    let err = vistle::module::execute_finished_message(4, &bad, 11);
    assert!(matches!(err.message_type, MessageType::Error { module_id: 4, ref message } if message == "x"));
    let u = vistle::codec::undecodable_message(CodecError::UnknownTag(99), 12);
    assert!(matches!(u.message_type, MessageType::Error { module_id: 0, ref message } if message == "unknown message kind or tag"));
    assert!(vistle::registry::may_remove(2));
    assert!(!vistle::registry::may_remove(3));
}
