//! Messages between modules, their envelopes, and where the router sends
//! them.

use dashmap::DashMap;
use vstd::prelude::*;

use crate::distributed::MpiMessageChannel;
use crate::object::{random_v4_u128, ObjectId};
use crate::parameter::{ParameterType, ParameterValue};

verus! {

/// Unique 128-bit id of an envelope.
#[derive(Debug, Clone, Copy, PartialEq, Eq, Hash, Structural)]
pub struct MessageId(pub u128);

impl MessageId {
    /// A fresh random id.
    pub fn new() -> (r: Self)
        ensures
            (r.0 >> 76u128) & 0xfu128 == 4u128,
    {
        MessageId(random_v4_u128())
    }
}

/// Delivery priority.
#[derive(Debug, Clone, Copy, PartialEq, Eq, Structural)]
pub enum Priority {
    Low,
    Normal,
    High,
    Critical,
}

/// What a message says.
#[derive(Debug, Clone)]
pub enum MessageType {
    Execute { module_id: u32, timestep: i32 },
    CancelExecute { module_id: u32 },
    Quit,
    AddObject { object_id: ObjectId, port_name: String },
    RemoveObject { object_id: ObjectId },
    SetParameter { module_id: u32, param_name: String, value: ParameterValue },
    AddParameter { module_id: u32, param_name: String, param_type: ParameterType },
    ConnectPorts { from_module: u32, from_port: String, to_module: u32, to_port: String },
    DisconnectPorts { from_module: u32, from_port: String, to_module: u32, to_port: String },
    ModuleReady { module_id: u32 },
    ComputationComplete { module_id: u32, objects_created: Vec<ObjectId> },
    Error { module_id: u32, message: String },
    Custom { type_id: u32, data: Vec<u8> },
}

/// A message: sender and recipient module ids (0 is the system as sender
/// and everyone as recipient), priority, content and origin time in
/// nanoseconds since the epoch.
#[derive(Debug, Clone)]
pub struct Message {
    pub id: MessageId,
    pub sender: u32,
    pub recipient: u32,
    pub priority: Priority,
    pub message_type: MessageType,
    pub timestamp_ns: u64,
}

impl Message {
    /// A message of normal priority with a fresh id.
    pub fn new(sender: u32, recipient: u32, message_type: MessageType, timestamp_ns: u64) -> (r: Self)
        ensures
            r.sender == sender && r.recipient == recipient,
            r.priority == Priority::Normal,
            r.message_type == message_type,
            r.timestamp_ns == timestamp_ns,
    {
        Message { id: MessageId::new(), sender, recipient, priority: Priority::Normal, message_type, timestamp_ns }
    }

    pub fn with_priority(self, priority: Priority) -> (r: Self)
        ensures
            r.priority == priority,
            r.id == self.id && r.sender == self.sender && r.recipient == self.recipient,
            r.message_type == self.message_type && r.timestamp_ns == self.timestamp_ns,
    {
        Message { priority, ..self }
    }

    pub fn is_broadcast(&self) -> (r: bool)
        ensures
            r == (self.recipient == 0),
    {
        self.recipient == 0
    }
}

/// Bulk data travelling with a message.
#[derive(Debug, Clone)]
pub enum MessagePayload {
    /// No payload.
    Empty,
    ObjectData(Vec<u8>),
    ParameterData(Vec<u8>),
    Custom(Vec<u8>),
}

/// A message and its payload.
#[derive(Debug, Clone)]
pub struct MessageEnvelope {
    pub message: Message,
    pub payload: MessagePayload,
}

/// Where an envelope goes.
#[derive(Debug, Clone, PartialEq, Eq)]
pub enum Route {
    /// To the queue of this local module.
    Local(u32),
    /// Over the cluster transport, to this recipient.
    Remote(u32),
    /// Serialized once and sent to these ranks, and published to these
    /// local modules.
    Broadcast { ranks: Vec<i32>, local_modules: Vec<u32> },
}

/// Why an envelope could not be routed.
#[derive(Debug, Clone, Copy, PartialEq, Eq, Structural)]
pub enum RouteError {
    NoRoute,
}

/// A concurrent set of module ids: the keys of a map to unit.
pub type ModuleSet = DashMap<u32, ()>;

/// The module ids a set holds.
pub uninterp spec fn set_members(m: ModuleSet) -> Set<u32>;

/// Relies on `DashMap::new`: a new map is empty.
#[verifier::external_body]
fn set_new() -> (r: ModuleSet)
    ensures
        set_members(r) == Set::<u32>::empty(),
{
    DashMap::new()
}

/// Relies on `DashMap::insert`: afterwards the key is present and the
/// other keys are unchanged.
#[verifier::external_body]
fn set_insert(m: &mut ModuleSet, k: u32)
    ensures
        set_members(*final(m)) == set_members(*old(m)).insert(k),
{
    m.insert(k, ());
}

/// Relies on `DashMap::contains_key`.
#[verifier::external_body]
fn set_contains(m: &ModuleSet, k: u32) -> (r: bool)
    ensures
        r == set_members(*m).contains(k),
{
    m.contains_key(&k)
}

/// Relies on `DashMap::iter`: every key once, in no particular order.
#[verifier::external_body]
fn set_keys(m: &ModuleSet) -> (r: Vec<u32>)
    ensures
        forall|k: u32| r@.contains(k) <==> set_members(*m).contains(k),
        r@.no_duplicates(),
{
    m.iter().map(|e| *e.key()).collect()
}

/// The router's knowledge: modules with a local queue, and the cluster
/// transport, if attached.
pub struct MessageRouter {
    local_modules: ModuleSet,
    channel: Option<MpiMessageChannel>,
}

impl MessageRouter {
    /// Ids of the modules with a local queue.
    pub closed spec fn locals(&self) -> Set<u32> {
        set_members(self.local_modules)
    }

    pub closed spec fn channel(&self) -> Option<MpiMessageChannel> {
        self.channel
    }

    pub open spec fn wf(&self) -> bool {
        self.channel() matches Some(c) ==> 0 <= c.rank_spec()
    }

    /// A router without local queues or cluster transport.
    pub fn new() -> (r: Self)
        ensures
            r.wf(),
            r.locals() == Set::<u32>::empty(),
            r.channel() is None,
    {
        MessageRouter { local_modules: set_new(), channel: None }
    }

    /// The same router sending through a cluster transport.
    pub fn with_mpi(self, channel: MpiMessageChannel) -> (r: Self)
        requires
            0 <= channel.rank_spec(),
        ensures
            r.wf(),
            r.locals() == self.locals(),
            r.channel() == Some(channel),
    {
        MessageRouter { local_modules: self.local_modules, channel: Some(channel) }
    }

    /// Gives a module a local queue.
    pub fn register_module(&mut self, module_id: u32)
        ensures
            final(self).channel() == old(self).channel(),
            final(self).locals() == old(self).locals().insert(module_id),
    {
        set_insert(&mut self.local_modules, module_id);
    }

    /// Whether a module has a local queue.
    pub fn is_local(&self, module_id: u32) -> (r: bool)
        ensures
            r == self.locals().contains(module_id),
    {
        set_contains(&self.local_modules, module_id)
    }

    /// `rt` broadcasts to every other rank and every local queue, once each.
    pub open spec fn broadcast_route(&self, rt: Route) -> bool {
        match rt {
            Route::Broadcast { ranks, local_modules } => {
                let c = self.channel().unwrap();
                &&& forall|x: u32| local_modules@.contains(x) <==> self.locals().contains(x)
                &&& local_modules@.no_duplicates()
                &&& forall|k: int| 0 <= k < ranks@.len() ==> 0 <= #[trigger] ranks@[k] < c.size_spec() && ranks@[k] != c.rank_spec()
                &&& forall|x: i32| 0 <= x < c.size_spec() && x != c.rank_spec() ==> ranks@.contains(x)
            },
            _ => false,
        }
    }

    /// Where an envelope for `recipient` goes: a local queue if the module
    /// has one; otherwise over the transport to a nonzero recipient, or, for
    /// a broadcast, to every other rank and every local queue; with no
    /// transport attached, nowhere.
    pub fn route(&self, recipient: u32) -> (r: Result<Route, RouteError>)
        requires
            self.wf(),
        ensures
            self.locals().contains(recipient) ==> r == Ok::<Route, RouteError>(Route::Local(recipient)),
            !self.locals().contains(recipient) && recipient != 0 && self.channel() is Some
                ==> r == Ok::<Route, RouteError>(Route::Remote(recipient)),
            !self.locals().contains(recipient) && recipient == 0 && self.channel() is Some
                ==> (r matches Ok(rt) && self.broadcast_route(rt)),
            !self.locals().contains(recipient) && self.channel() is None
                ==> r == Err::<Route, RouteError>(RouteError::NoRoute),
    {
        if self.is_local(recipient) {
            return Ok(Route::Local(recipient));
        }
        match &self.channel {
            Some(c) => {
                if recipient != 0 {
                    Ok(Route::Remote(recipient))
                } else {
                    let ranks = c.broadcast_targets();
                    let locals = set_keys(&self.local_modules);
                    Ok(Route::Broadcast { ranks, local_modules: locals })
                }
            },
            None => Err(RouteError::NoRoute),
        }
    }

    /// Ids of the modules with a local queue, each once, in no particular
    /// order.
    pub fn local_modules(&self) -> (r: Vec<u32>)
        ensures
            forall|x: u32| r@.contains(x) <==> self.locals().contains(x),
            r@.no_duplicates(),
    {
        set_keys(&self.local_modules)
    }
}

} // verus!
