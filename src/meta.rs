//! Module descriptions, compute contexts and execution counters.

use vstd::prelude::*;

pub use crate::object::ObjectMeta as Meta;

verus! {

/// Lifecycle state of a module instance.
#[derive(Debug, Clone, Copy, PartialEq, Eq, Structural)]
pub enum ModuleStatus {
    Initializing,
    Ready,
    Executing,
    Completed,
    Error,
    Cancelled,
}

/// Static description of a module instance.
#[derive(Debug, Clone)]
pub struct ModuleInfo {
    pub id: u32,
    pub name: String,
    pub description: String,
    pub category: String,
    pub rank: i32,
    pub size: i32,
    pub status: ModuleStatus,
}

impl ModuleInfo {
    /// A module in category "General", still initializing.
    pub fn new(id: u32, name: &str, rank: i32, size: i32) -> (r: Self)
        ensures
            r.id == id && r.name@ == name@ && r.description@.len() == 0,
            r.category@ == "General"@,
            r.rank == rank && r.size == size,
            r.status == ModuleStatus::Initializing,
    {
        ModuleInfo {
            id,
            name: name.to_string(),
            description: String::new(),
            category: "General".to_string(),
            rank,
            size,
            status: ModuleStatus::Initializing,
        }
    }
}

/// What a module is told when it computes.
#[derive(Debug, Clone, Copy, PartialEq, Eq, Structural)]
pub struct ComputeContext {
    pub module_id: u32,
    pub timestep: i32,
    pub iteration: i32,
    pub rank: i32,
    pub size: i32,
}

impl ComputeContext {
    pub fn new(module_id: u32, rank: i32, size: i32) -> (r: Self)
        ensures
            r == (ComputeContext { module_id, timestep: 0, iteration: 0, rank, size }),
    {
        ComputeContext { module_id, timestep: 0, iteration: 0, rank, size }
    }

    pub fn with_timestep(self, timestep: i32) -> (r: Self)
        ensures
            r == (ComputeContext { timestep, ..self }),
    {
        ComputeContext { timestep, ..self }
    }

    pub fn with_iteration(self, iteration: i32) -> (r: Self)
        ensures
            r == (ComputeContext { iteration, ..self }),
    {
        ComputeContext { iteration, ..self }
    }
}

/// Monotonic counters of one module. Times are nanoseconds since the epoch.
#[derive(Debug, Clone)]
pub struct ExecutionStats {
    pub module_id: u32,
    pub start_time_ns: u64,
    pub end_time_ns: Option<u64>,
    pub objects_created: usize,
    pub objects_processed: usize,
    pub errors: Vec<String>,
}

impl ExecutionStats {
    pub fn new(module_id: u32, start_time_ns: u64) -> (r: Self)
        ensures
            r.module_id == module_id && r.start_time_ns == start_time_ns,
            r.end_time_ns is None,
            r.objects_created == 0 && r.objects_processed == 0,
            r.errors@.len() == 0,
    {
        ExecutionStats {
            module_id,
            start_time_ns,
            end_time_ns: None,
            objects_created: 0,
            objects_processed: 0,
            errors: Vec::new(),
        }
    }

    /// Records the end time.
    pub fn complete(self, end_time_ns: u64) -> (r: Self)
        ensures
            r.end_time_ns == Some(end_time_ns),
            r.module_id == self.module_id && r.start_time_ns == self.start_time_ns,
            r.objects_created == self.objects_created,
            r.objects_processed == self.objects_processed,
            r.errors@ == self.errors@,
    {
        ExecutionStats { end_time_ns: Some(end_time_ns), ..self }
    }

    /// Nanoseconds from start to end; `None` before completion or when the
    /// end lies before the start.
    pub fn duration(&self) -> (r: Option<u64>)
        ensures
            r == match self.end_time_ns {
                Some(e) => if e >= self.start_time_ns {
                    Some((e - self.start_time_ns) as u64)
                } else {
                    None
                },
                None => None,
            },
    {
        match self.end_time_ns {
            Some(e) => if e >= self.start_time_ns {
                Some(e - self.start_time_ns)
            } else {
                None
            },
            None => None,
        }
    }

    pub fn add_error(&mut self, error: String)
        ensures
            final(self).errors@ == old(self).errors@.push(error),
            final(self).objects_created == old(self).objects_created,
            final(self).objects_processed == old(self).objects_processed,
            final(self).module_id == old(self).module_id,
            final(self).start_time_ns == old(self).start_time_ns && final(self).end_time_ns == old(self).end_time_ns,
    {
        self.errors.push(error);
    }

    /// Counts one more created object; the counter saturates.
    pub fn increment_created(&mut self)
        ensures
            final(self).objects_created == if old(self).objects_created == usize::MAX {
                usize::MAX as int
            } else {
                old(self).objects_created + 1
            },
            final(self).objects_processed == old(self).objects_processed,
            final(self).errors@ == old(self).errors@,
            final(self).module_id == old(self).module_id,
            final(self).start_time_ns == old(self).start_time_ns && final(self).end_time_ns == old(self).end_time_ns,
    {
        self.objects_created = self.objects_created.saturating_add(1);
    }

    /// Counts one more processed input; the counter saturates.
    pub fn increment_processed(&mut self)
        ensures
            final(self).objects_processed == if old(self).objects_processed == usize::MAX {
                usize::MAX as int
            } else {
                old(self).objects_processed + 1
            },
            final(self).objects_created == old(self).objects_created,
            final(self).errors@ == old(self).errors@,
            final(self).module_id == old(self).module_id,
            final(self).start_time_ns == old(self).start_time_ns && final(self).end_time_ns == old(self).end_time_ns,
    {
        self.objects_processed = self.objects_processed.saturating_add(1);
    }
}

} // verus!
