//! The state behind the workflow editor and status display; drawing is
//! left to the front end.

use vstd::prelude::*;

verus! {

/// Front ends an application can run on.
#[derive(Debug, Clone, Copy, PartialEq, Eq, Structural)]
pub enum UiBackend {
    Egui,
    Web,
    Native,
}

/// Main window settings.
#[derive(Debug, Clone)]
pub struct Application {
    pub backend: UiBackend,
    pub title: String,
    pub width: u32,
    pub height: u32,
}

impl Application {
    pub fn new(title: &str, size: (u32, u32)) -> (r: Self)
        ensures
            r.backend == UiBackend::Egui && r.title@ == title@ && r.width == size.0 && r.height == size.1,
    {
        Application { backend: UiBackend::Egui, title: title.to_string(), width: size.0, height: size.1 }
    }

    pub fn with_backend(self, backend: UiBackend) -> (r: Self)
        ensures
            r.backend == backend && r.title == self.title && r.width == self.width && r.height == self.height,
    {
        Application { backend, ..self }
    }

    /// Whether this backend can be run.
    pub fn supported(&self) -> (r: bool)
        ensures
            r == (self.backend == UiBackend::Egui),
    {
        match self.backend {
            UiBackend::Egui => true,
            _ => false,
        }
    }
}

/// An edge between two nodes of the editor.
#[derive(Debug, Clone)]
pub struct Connection {
    pub from_node: usize,
    pub from_port: String,
    pub to_node: usize,
    pub to_port: String,
}

/// Severity of a status line.
#[derive(Debug, Clone, Copy, PartialEq, Eq, Structural)]
pub enum StatusLevel {
    Info,
    Warning,
    Error,
    Success,
}

/// The most recent status lines, at most `max_messages` of them.
pub struct StatusDisplay {
    messages: Vec<(String, StatusLevel)>,
    max_messages: usize,
}

impl StatusDisplay {
    pub closed spec fn lines(&self) -> Seq<(String, StatusLevel)> {
        self.messages@
    }

    pub closed spec fn capacity(&self) -> usize {
        self.max_messages
    }

    pub open spec fn wf(&self) -> bool {
        self.lines().len() <= self.capacity()
    }

    pub fn new(max_messages: usize) -> (r: Self)
        ensures
            r.wf(),
            r.lines().len() == 0,
            r.capacity() == max_messages,
    {
        StatusDisplay { messages: Vec::new(), max_messages }
    }

    /// Appends a line, dropping the oldest when over capacity.
    pub fn add_message(&mut self, message: String, level: StatusLevel)
        requires
            old(self).wf(),
        ensures
            final(self).wf(),
            final(self).capacity() == old(self).capacity(),
            final(self).lines() == if old(self).lines().len() + 1 > old(self).capacity() {
                old(self).lines().push((message, level)).drop_first()
            } else {
                old(self).lines().push((message, level))
            },
    {
        self.messages.push((message, level));
        if self.messages.len() > self.max_messages {
            let ghost pushed = self.messages@;
            self.messages.remove(0);
            assert(self.messages@ =~= pushed.drop_first());
        }
    }

    pub fn clear(&mut self)
        ensures
            final(self).lines().len() == 0,
            final(self).capacity() == old(self).capacity(),
    {
        self.messages.clear();
    }

    /// The lines, oldest first.
    pub fn messages(&self) -> (r: &Vec<(String, StatusLevel)>)
        ensures
            r@ == self.lines(),
    {
        &self.messages
    }
}

/// Rendering backends.
#[derive(Debug, Clone, Copy, PartialEq, Eq, Structural)]
pub enum RenderBackend {
    Wgpu,
    Cpu,
    Hybrid,
}

/// Kinds of light source.
#[derive(Debug, Clone, Copy, PartialEq, Eq, Structural)]
pub enum LightType {
    Directional,
    Point,
    Spot,
}

} // verus!
