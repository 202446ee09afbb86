//! The lifecycle of a module instance: `initializing -> ready -> executing
//! -> {completed | error | cancelled}`, at most one computation at a time,
//! inputs only on declared input ports, and its counters.

use vstd::prelude::*;

use crate::message::{Message, MessageType};
use crate::meta::{ExecutionStats, ModuleStatus};
use crate::object::ObjectId;
use crate::parameter::{Parameter, ParameterSet, ParameterValue, Port, PortSet, PortType};

verus! {

/// Why a module refused a request.
#[derive(Debug, Clone, Copy, PartialEq, Eq, Structural)]
pub enum ModuleError {
    /// No input port of that name is declared.
    UnknownPort,
    /// A computation is already running.
    AlreadyExecuting,
    /// The module is not executing.
    NotExecuting,
    /// The module has not been made ready.
    NotReady,
}

/// The status and counters of one module instance, and the inputs it has
/// been given, by port.
pub struct ModuleState {
    status: ModuleStatus,
    stats: ExecutionStats,
    inputs: Vec<(String, Vec<ObjectId>)>,
    cancel_requested: bool,
}

impl ModuleState {
    pub closed spec fn status(&self) -> ModuleStatus {
        self.status
    }

    pub closed spec fn stats(&self) -> ExecutionStats {
        self.stats
    }

    pub closed spec fn cancel_requested(&self) -> bool {
        self.cancel_requested
    }

    /// The inputs received so far, in order.
    pub closed spec fn inputs(&self) -> Seq<(String, Vec<ObjectId>)> {
        self.inputs@
    }

    pub fn new(module_id: u32, now_ns: u64) -> (r: Self)
        ensures
            r.status() == ModuleStatus::Initializing,
            r.stats().module_id == module_id,
            r.stats().objects_created == 0 && r.stats().objects_processed == 0,
            r.inputs().len() == 0,
            !r.cancel_requested(),
    {
        ModuleState {
            status: ModuleStatus::Initializing,
            stats: ExecutionStats::new(module_id, now_ns),
            inputs: Vec::new(),
            cancel_requested: false,
        }
    }

    pub fn status_now(&self) -> (r: ModuleStatus)
        ensures
            r == self.status(),
    {
        self.status
    }

    pub fn statistics(&self) -> (r: &ExecutionStats)
        ensures
            *r == self.stats(),
    {
        &self.stats
    }

    /// Initialization is over; also a finished module becomes ready again.
    pub fn make_ready(&mut self) -> (r: Result<(), ModuleError>)
        ensures
            old(self).status() == ModuleStatus::Executing ==> r == Err::<(), ModuleError>(ModuleError::AlreadyExecuting)
                && *final(self) == *old(self),
            old(self).status() != ModuleStatus::Executing ==> r is Ok && final(self).status() == ModuleStatus::Ready
                && !final(self).cancel_requested() && final(self).stats() == old(self).stats(),
    {
        if self.status == ModuleStatus::Executing {
            return Err(ModuleError::AlreadyExecuting);
        }
        self.status = ModuleStatus::Ready;
        self.cancel_requested = false;
        Ok(())
    }

    /// Accepts objects on a declared input port.
    pub fn set_input(&mut self, ports: &PortSet, port: String, objects: Vec<ObjectId>) -> (r: Result<(), ModuleError>)
        requires
            ports.wf(),
        ensures
            r is Ok <==> (ports.lookup(port@) matches Some(p) && p.port_type == PortType::Input),
            r is Err ==> r == Err::<(), ModuleError>(ModuleError::UnknownPort) && *final(self) == *old(self),
            r is Ok ==> final(self).inputs() == old(self).inputs().push((port, objects)),
            final(self).status() == old(self).status(),
            final(self).stats() == old(self).stats(),
    {
        match ports.get(port.as_str()) {
            Some(p) => {
                if p.port_type != PortType::Input {
                    return Err(ModuleError::UnknownPort);
                }
            },
            None => {
                return Err(ModuleError::UnknownPort);
            },
        }
        self.inputs.push((port, objects));
        Ok(())
    }

    /// Starts a computation: only a ready module may start, and never one
    /// that is already executing.
    pub fn begin_execute(&mut self) -> (r: Result<(), ModuleError>)
        ensures
            old(self).status() == ModuleStatus::Executing ==> r == Err::<(), ModuleError>(ModuleError::AlreadyExecuting),
            old(self).status() != ModuleStatus::Executing && old(self).status() != ModuleStatus::Ready
                ==> r == Err::<(), ModuleError>(ModuleError::NotReady),
            old(self).status() == ModuleStatus::Ready ==> r is Ok && final(self).status() == ModuleStatus::Executing,
            r is Err ==> *final(self) == *old(self),
            final(self).stats() == old(self).stats(),
            final(self).cancel_requested() == old(self).cancel_requested(),
            final(self).inputs() == old(self).inputs(),
    {
        if self.status == ModuleStatus::Executing {
            return Err(ModuleError::AlreadyExecuting);
        }
        if self.status != ModuleStatus::Ready {
            return Err(ModuleError::NotReady);
        }
        self.status = ModuleStatus::Executing;
        Ok(())
    }

    /// Ends a computation: with the objects it created, with an error, or
    /// because it observed a cancellation.
    pub fn finish_execute(&mut self, outcome: Result<Vec<ObjectId>, String>, now_ns: u64) -> (r: Result<(), ModuleError>)
        ensures
            old(self).status() != ModuleStatus::Executing ==> r == Err::<(), ModuleError>(ModuleError::NotExecuting)
                && *final(self) == *old(self),
            old(self).status() == ModuleStatus::Executing ==> r is Ok,
            r is Ok ==> final(self).status() == match outcome {
                Ok(_) => if old(self).cancel_requested() { ModuleStatus::Cancelled } else { ModuleStatus::Completed },
                Err(_) => ModuleStatus::Error,
            },
            r is Ok ==> final(self).stats().end_time_ns == Some(now_ns),
            r is Ok ==> (outcome matches Ok(objs) ==> final(self).stats().objects_processed
                == if old(self).stats().objects_processed == usize::MAX { usize::MAX as int } else { old(self).stats().objects_processed + 1 }
                && final(self).stats().objects_created == if old(self).stats().objects_created + objs@.len() > usize::MAX {
                    usize::MAX as int
                } else {
                    old(self).stats().objects_created + objs@.len()
                }),
            r is Ok ==> (outcome matches Err(e) ==> final(self).stats().errors@ == old(self).stats().errors@.push(e)),
    {
        if self.status != ModuleStatus::Executing {
            return Err(ModuleError::NotExecuting);
        }
        match outcome {
            Ok(objs) => {
                self.stats.increment_processed();
                self.stats.objects_created = self.stats.objects_created.saturating_add(objs.len());
                self.status = if self.cancel_requested { ModuleStatus::Cancelled } else { ModuleStatus::Completed };
            },
            Err(e) => {
                self.stats.add_error(e);
                self.status = ModuleStatus::Error;
            },
        }
        self.stats.end_time_ns = Some(now_ns);
        Ok(())
    }

    /// Asks a running computation to stop; asking again changes nothing.
    pub fn cancel(&mut self)
        ensures
            final(self).cancel_requested() == (old(self).cancel_requested() || old(self).status() == ModuleStatus::Executing),
            final(self).status() == old(self).status(),
            final(self).stats() == old(self).stats(),
            old(self).cancel_requested() ==> *final(self) == *old(self),
    {
        if self.status == ModuleStatus::Executing {
            self.cancel_requested = true;
        }
    }
}

/// The broadcast a module sends as it starts computing: `Execute` with its
/// id and the timestep.
pub fn execute_started_message(module_id: u32, timestep: i32, now_ns: u64) -> (r: Message)
    ensures
        r.sender == module_id && r.recipient == 0 && r.timestamp_ns == now_ns,
        r.message_type == (MessageType::Execute { module_id, timestep }),
{
    Message::new(module_id, 0, MessageType::Execute { module_id, timestep }, now_ns)
}

/// The broadcast a module sends when its computation ends:
/// `ComputationComplete` with the ids of the objects it created, or `Error`
/// with the failure's text.
pub fn execute_finished_message(module_id: u32, outcome: &Result<Vec<ObjectId>, String>, now_ns: u64) -> (r: Message)
    ensures
        r.sender == module_id && r.recipient == 0 && r.timestamp_ns == now_ns,
        outcome matches Ok(objs) ==> (r.message_type matches MessageType::ComputationComplete { module_id: m, objects_created: o }
            && m == module_id && o@ == objs@),
        outcome matches Err(e) ==> (r.message_type matches MessageType::Error { module_id: m, message: t }
            && m == module_id && t@ == e@),
{
    let kind = match outcome {
        Ok(objs) => {
            let mut ids: Vec<ObjectId> = Vec::new();
            let n = objs.len();
            let mut i: usize = 0;
            while i < n
                invariant
                    n == objs@.len(),
                    0 <= i <= n,
                    ids@ == objs@.take(i as int),
                decreases n - i,
            {
                ids.push(objs[i]);
                assert(objs@.take(i + 1) =~= objs@.take(i as int).push(objs@[i as int]));
                i += 1;
            }
            assert(objs@.take(n as int) =~= objs@);
            MessageType::ComputationComplete { module_id, objects_created: ids }
        },
        Err(e) => MessageType::Error { module_id, message: e.clone() },
    };
    Message::new(module_id, 0, kind, now_ns)
}

/// Bits of `0.5f32`.
pub const F32_HALF_BITS: u32 = 0x3f00_0000;

/// Bits of `1.0f32`.
pub const F32_ONE_BITS: u32 = 0x3f80_0000;

/// A reader of data files: parameters `filename` and `format`, output
/// port `data`.
pub struct DataReaderModule {
    pub id: u32,
    pub parameters: ParameterSet,
    pub ports: PortSet,
}

impl DataReaderModule {
    pub fn new(id: u32) -> (r: Self)
        ensures
            r.id == id,
            r.parameters.wf() && r.ports.wf(),
            r.parameters.lookup("filename"@) matches Some(p) && p.value matches ParameterValue::String(v) && v@ == "data.vtk"@,
            r.parameters.lookup("format"@) matches Some(p) && p.value matches ParameterValue::String(v) && v@ == "VTK"@,
            r.ports.lookup("data"@) matches Some(p) && p.port_type == PortType::Output,
    {
        let mut params = ParameterSet::new();
        proof {
            reveal_strlit("filename");
            reveal_strlit("format");
            assert("filename"@ != "format"@) by {
                assert("filename"@.len() != "format"@.len());
            }
        }
        params.add(Parameter::new("filename", "Input filename", ParameterValue::String("data.vtk".to_string())));
        params.add(Parameter::new("format", "File format", ParameterValue::String("VTK".to_string())));
        let mut ports = PortSet::new();
        ports.add(Port::new_output("data", "Output data"));
        DataReaderModule { id, parameters: params, ports }
    }
}

/// An isosurface filter: parameter `iso_value` (0.5), input `data_in`,
/// output `surface_out`.
pub struct IsoSurfaceModule {
    pub id: u32,
    pub parameters: ParameterSet,
    pub ports: PortSet,
}

impl IsoSurfaceModule {
    pub fn new(id: u32) -> (r: Self)
        ensures
            r.id == id,
            r.parameters.wf() && r.ports.wf(),
            r.parameters.lookup("iso_value"@) matches Some(p) && p.value == ParameterValue::Float(F32_HALF_BITS),
            r.ports.lookup("data_in"@) matches Some(p) && p.port_type == PortType::Input,
            r.ports.lookup("surface_out"@) matches Some(p) && p.port_type == PortType::Output,
    {
        let mut params = ParameterSet::new();
        params.add(Parameter::new("iso_value", "Isosurface value", ParameterValue::Float(F32_HALF_BITS)));
        let mut ports = PortSet::new();
        proof {
            reveal_strlit("data_in");
            reveal_strlit("surface_out");
            assert("data_in"@ != "surface_out"@) by {
                assert("data_in"@.len() != "surface_out"@.len());
            }
        }
        ports.add(Port::new_input("data_in", "Input data"));
        ports.add(Port::new_output("surface_out", "Output surface"));
        IsoSurfaceModule { id, parameters: params, ports }
    }
}

/// A renderer: parameter `background_color` (opaque black), input
/// `geometry_in`.
pub struct RendererModule {
    pub id: u32,
    pub parameters: ParameterSet,
    pub ports: PortSet,
}

impl RendererModule {
    pub fn new(id: u32) -> (r: Self)
        ensures
            r.id == id,
            r.parameters.wf() && r.ports.wf(),
            r.parameters.lookup("background_color"@) matches Some(p)
                && p.value matches ParameterValue::VecFloat(c) && c@ == seq![0u32, 0u32, 0u32, F32_ONE_BITS],
            r.ports.lookup("geometry_in"@) matches Some(p) && p.port_type == PortType::Input,
    {
        let mut color: Vec<u32> = Vec::new();
        color.push(0);
        color.push(0);
        color.push(0);
        color.push(F32_ONE_BITS);
        assert(color@ =~= seq![0u32, 0u32, 0u32, F32_ONE_BITS]);
        let mut params = ParameterSet::new();
        params.add(Parameter::new("background_color", "Background color", ParameterValue::VecFloat(color)));
        let mut ports = PortSet::new();
        ports.add(Port::new_input("geometry_in", "Input geometry"));
        RendererModule { id, parameters: params, ports }
    }
}

} // verus!
