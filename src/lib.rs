//! Execution core of a distributed scientific visualization pipeline:
//! object registry, shared arena bookkeeping, message codec and routing,
//! task graph scheduling and workflow validation.

pub mod arena;
pub mod object;
pub mod meta;
pub mod task;
pub mod scheduler;
pub mod workflow;
pub mod parameter;
pub mod registry;
pub mod distributed;
pub mod util;
pub mod ui;
pub mod message;
pub mod codec;
pub mod module;
