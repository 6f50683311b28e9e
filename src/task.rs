//! Tasks and the wiring of their ports.
use vstd::prelude::*;

use crate::execution::Execution;
use crate::node::NodeId;

verus! {

/// A unit of work. `exec` runs once in each run, after every task it
/// depends on; it receives the values bound to its input ports (`None` for a
/// port with no binding) and returns the values of its output ports.
pub trait ExecutableTask<V>: Sized {
    fn exec(&mut self, inputs: &Vec<Option<&V>>) -> Vec<V>;
}

/// The binding of an input port: which task produces its value, and at
/// which of that task's output ports.
#[derive(Clone, Copy, Debug, PartialEq, Eq, Structural)]
pub struct TaskInputHandle {
    pub source_task_id: NodeId,
    pub output_port: usize,
}

impl TaskInputHandle {
    pub fn new(id: NodeId, port: usize) -> (r: Self)
        ensures
            r == (TaskInputHandle { source_task_id: id, output_port: port }),
    {
        TaskInputHandle { source_task_id: id, output_port: port }
    }

    pub fn set(&mut self, id: NodeId, port: usize)
        ensures
            *final(self) == (TaskInputHandle { source_task_id: id, output_port: port }),
    {
        self.source_task_id = id;
        self.output_port = port;
    }

    /// The value this binding reads in a run: the producer's output at the
    /// bound port, once the producer has run.
    pub fn get_value<'a, T, V>(&self, exec: &'a Execution<T, V>) -> (r: Option<&'a V>)
        requires
            exec.shape_ok(),
            self.source_task_id < exec.graph().len(),
        ensures
            crate::execution::deref_opt(r) == exec.output_at(self.source_task_id, self.output_port),
    {
        exec.get_task_output(self.source_task_id, self.output_port)
    }

    pub fn source(&self) -> (r: NodeId)
        ensures
            r == self.source_task_id,
    {
        self.source_task_id
    }

    pub fn port(&self) -> (r: usize)
        ensures
            r == self.output_port,
    {
        self.output_port
    }
}

} // verus!
