//! One run of a flow: the tasks' own copies, a completion record per task,
//! and the outputs of the tasks that have run.
use vstd::prelude::*;

use crate::flow::TaskHandle;
use crate::graph::{graph_wf, is_edge, DepGraph};
use crate::idset::insert_once;
use crate::node::NodeId;
use crate::task::{ExecutableTask, TaskInputHandle};

verus! {

pub struct Execution<T, V> {
    tasks: Vec<T>,
    dependencies: Vec<Vec<NodeId>>,
    /// `inputs[v][k]` binds input port `k` of task `v`.
    inputs: Vec<Vec<Option<TaskInputHandle>>>,
    /// the output values of each task that has run
    outputs: Vec<Option<Vec<V>>>,
    completed: Vec<bool>,
    /// the tasks to resume when a task completes
    waiters: Vec<Vec<NodeId>>,
}

impl<T, V> Execution<T, V> {
    pub closed spec fn graph(&self) -> DepGraph {
        Seq::new(self.dependencies@.len(), |v: int| self.dependencies@[v]@.to_set())
    }

    pub closed spec fn tasks(&self) -> Seq<T> {
        self.tasks@
    }

    /// The bindings of each task's input ports.
    pub closed spec fn bindings(&self) -> Seq<Seq<Option<TaskInputHandle>>> {
        Seq::new(self.inputs@.len(), |v: int| self.inputs@[v]@)
    }

    /// The tasks that have run.
    pub closed spec fn completed(&self) -> Set<NodeId> {
        Set::new(|v: NodeId| v < self.completed@.len() && self.completed@[v as int])
    }

    /// The output values of each task, once it has run.
    pub closed spec fn outputs(&self) -> Seq<Option<Seq<V>>> {
        outputs_view(self.outputs@)
    }

    /// The tasks waiting for `v` to complete.
    pub closed spec fn waiting_on(&self, v: NodeId) -> Set<NodeId> {
        self.waiters@[v as int]@.to_set()
    }

    pub closed spec fn shape_ok(&self) -> bool {
        let n = self.dependencies@.len();
        &&& self.tasks@.len() == n
        &&& self.inputs@.len() == n
        &&& self.outputs@.len() == n
        &&& self.completed@.len() == n
        &&& self.waiters@.len() == n
        &&& forall|v: int| 0 <= v < n ==> #[trigger] self.dependencies@[v]@.no_duplicates()
        &&& forall|v: int| 0 <= v < n ==> #[trigger] self.waiters@[v]@.no_duplicates()
        &&& forall|v: int| 0 <= v < n ==> (self.completed@[v] <==> #[trigger] self.outputs@[v] is Some)
    }

    /// Every binding reads from a dependency, and a task completes only
    /// after all its dependencies.
    pub open spec fn wf(&self) -> bool {
        let g = self.graph();
        &&& self.shape_ok()
        &&& graph_wf(g)
        &&& forall|v: NodeId| #[trigger]
            self.completed().contains(v) ==> v < g.len() && g[v as int].subset_of(
                self.completed(),
            )
        &&& forall|v: NodeId| v < g.len() ==> (#[trigger] self.completed().contains(v) <==> self.outputs()[v as int] is Some)
        &&& forall|v: int, k: int|
            0 <= v < g.len() && 0 <= k < self.bindings()[v].len() && #[trigger] self.bindings()[v][k] is Some
                ==> is_edge(g, self.bindings()[v][k]->0.source_task_id, v as NodeId)
    }

    /// A run about to start: no task has run.
    pub(crate) fn new(
        tasks: Vec<T>,
        dependencies: Vec<Vec<NodeId>>,
        inputs: Vec<Vec<Option<TaskInputHandle>>>,
    ) -> (r: Self)
        requires
            tasks@.len() == dependencies@.len(),
            inputs@.len() == dependencies@.len(),
            forall|v: int| 0 <= v < dependencies@.len() ==> #[trigger] dependencies@[v]@.no_duplicates(),
        ensures
            r.shape_ok(),
            r.tasks() == tasks@,
            r.graph() == Seq::new(dependencies@.len(), |v: int| dependencies@[v]@.to_set()),
            r.bindings() == Seq::new(inputs@.len(), |v: int| inputs@[v]@),
            r.completed() == Set::<NodeId>::empty(),
            r.outputs().len() == dependencies@.len(),
            forall|v: int| 0 <= v < r.outputs().len() ==> #[trigger] r.outputs()[v] is None,
    {
        let n = tasks.len();
        let mut outputs: Vec<Option<Vec<V>>> = Vec::new();
        let mut completed: Vec<bool> = Vec::new();
        let mut waiters: Vec<Vec<NodeId>> = Vec::new();
        let mut i: usize = 0;
        while i < n
            invariant
                i <= n,
                outputs@.len() == i,
                completed@.len() == i,
                waiters@.len() == i,
                forall|v: int| 0 <= v < i ==> #[trigger] outputs@[v] is None,
                forall|v: int| 0 <= v < i ==> !#[trigger] completed@[v],
                forall|v: int| 0 <= v < i ==> #[trigger] waiters@[v]@ == Seq::<NodeId>::empty(),
            decreases n - i,
        {
            outputs.push(None);
            completed.push(false);
            waiters.push(Vec::new());
            i = i + 1;
        }
        let r = Execution { tasks, dependencies, inputs, outputs, completed, waiters };
        proof {
            assert(r.completed() =~= Set::<NodeId>::empty());
            assert(r.graph() =~= Seq::new(r.dependencies@.len(), |v: int| r.dependencies@[v]@.to_set()));
            assert(r.bindings() =~= Seq::new(r.inputs@.len(), |v: int| r.inputs@[v]@));
        }
        r
    }

    pub fn get_num_tasks(&self) -> (r: usize)
        requires
            self.shape_ok(),
        ensures
            r == self.graph().len(),
    {
        self.dependencies.len()
    }

    /// Whether task `node_id` has run.
    pub fn is_completed(&self, node_id: NodeId) -> (r: bool)
        requires
            self.shape_ok(),
            node_id < self.graph().len(),
        ensures
            r == self.completed().contains(node_id),
    {
        self.completed[node_id]
    }

    /// The decision that suspends or releases task `node_id`: `None` when
    /// all its dependencies have completed, so that it may run now; else some
    /// dependency that has not, on whose completion the task is registered
    /// to be resumed.
    pub fn poll_node(&mut self, node_id: NodeId) -> (r: Option<NodeId>)
        requires
            old(self).wf(),
            node_id < old(self).graph().len(),
        ensures
            final(self).wf(),
            final(self).graph() == old(self).graph(),
            final(self).tasks() == old(self).tasks(),
            final(self).bindings() == old(self).bindings(),
            final(self).completed() == old(self).completed(),
            final(self).outputs() == old(self).outputs(),
            r is None <==> old(self).graph()[node_id as int].subset_of(old(self).completed()),
            r matches Some(d) ==> {
                &&& old(self).graph()[node_id as int].contains(d)
                &&& !old(self).completed().contains(d)
                &&& final(self).waiting_on(d) == old(self).waiting_on(d).insert(node_id)
            },
    {
        let ghost g = self.graph();
        let n = self.dependencies.len();
        let mut k: usize = 0;
        while k < self.dependencies[node_id].len()
            invariant
                self == old(self),
                g == self.graph(),
                n == g.len(),
                self.wf(),
                node_id < n,
                k <= self.dependencies@[node_id as int]@.len(),
                forall|j: int| 0 <= j < k ==> self.completed().contains(#[trigger] self.dependencies@[node_id as int]@[j]),
            decreases self.dependencies@[node_id as int]@.len() - k,
        {
            let d = self.dependencies[node_id][k];
            proof {
                assert(g[node_id as int].contains(d));
            }
            if !self.completed[d] {
                let ghost before = *self;
                insert_once(&mut self.waiters[d], node_id);
                proof {
                    assert(self.graph() =~= before.graph());
                    assert(self.completed() =~= before.completed());
                    assert(self.outputs() =~= before.outputs());
                    assert(self.bindings() =~= before.bindings());
                    assert(!before.completed().contains(d));
                }
                return Some(d);
            }
            k = k + 1;
        }
        proof {
            assert forall|u: NodeId| g[node_id as int].contains(u) implies self.completed().contains(u) by {
                let j = self.dependencies@[node_id as int]@.index_of(u);
            }
        }
        None
    }

    /// The values bound to the input ports of task `node_id`, read from the
    /// outputs of its dependencies, which have all completed; `None` for an
    /// unbound port or a port its producer does not have.
    pub fn input_values(&self, node_id: NodeId) -> (r: Vec<Option<&V>>)
        requires
            self.wf(),
            node_id < self.graph().len(),
            self.graph()[node_id as int].subset_of(self.completed()),
        ensures
            r@.len() == self.bindings()[node_id as int].len(),
            forall|k: int| 0 <= k < r@.len() ==> #[trigger] deref_opt(r@[k]) == match self.bindings()[node_id as int][k] {
                Some(h) => self.output_at(h.source_task_id, h.output_port),
                None => None,
            },
    {
        proof {
            assert forall|k: int| 0 <= k < self.inputs@[node_id as int]@.len() && #[trigger] self.inputs@[node_id as int]@[k] is Some
                implies self.inputs@[node_id as int]@[k]->0.source_task_id < self.outputs@.len() by {
                assert(self.bindings()[node_id as int][k] is Some);
            }
        }
        resolve_inputs(&self.inputs[node_id], &self.outputs)
    }

    /// The value at output port `port` of task `node_id`, if it has run.
    pub open spec fn output_at(&self, node_id: NodeId, port: usize) -> Option<V> {
        output_of(self.outputs(), node_id, port)
    }

    /// The value at output port `port` of task `node_id`, if the task has run
    /// and has that port.
    pub fn get_task_output(&self, node_id: NodeId, port: usize) -> (r: Option<&V>)
        requires
            self.shape_ok(),
            node_id < self.graph().len(),
        ensures
            deref_opt(r) == self.output_at(node_id, port),
    {
        lookup_output(&self.outputs, node_id, port)
    }

    /// Output port 0 of the task behind `task_handle`.
    pub fn get_task_output0(&self, task_handle: &TaskHandle) -> (r: Option<&V>)
        requires
            self.shape_ok(),
            task_handle.id_spec() < self.graph().len(),
        ensures
            deref_opt(r) == self.output_at(task_handle.id_spec(), 0),
    {
        self.get_task_output(task_handle.id(), 0)
    }

    /// Output port 1 of the task behind `task_handle`.
    pub fn get_task_output1(&self, task_handle: &TaskHandle) -> (r: Option<&V>)
        requires
            self.shape_ok(),
            task_handle.id_spec() < self.graph().len(),
        ensures
            deref_opt(r) == self.output_at(task_handle.id_spec(), 1),
    {
        self.get_task_output(task_handle.id(), 1)
    }

    /// This run's copy of the task behind `task_handle`.
    pub fn get_task(&self, task_handle: &TaskHandle) -> (r: &T)
        requires
            self.shape_ok(),
            task_handle.id_spec() < self.graph().len(),
        ensures
            *r == self.tasks()[task_handle.id_spec() as int],
    {
        &self.tasks[task_handle.id()]
    }

    /// Puts `task` in place of this run's task `node_id`, and returns the
    /// task it replaces.
    pub fn replace_task(&mut self, node_id: NodeId, task: T) -> (r: T)
        requires
            old(self).wf(),
            node_id < old(self).graph().len(),
        ensures
            final(self).wf(),
            r == old(self).tasks()[node_id as int],
            final(self).tasks() == old(self).tasks().update(node_id as int, task),
            final(self).graph() == old(self).graph(),
            final(self).bindings() == old(self).bindings(),
            final(self).completed() == old(self).completed(),
            final(self).outputs() == old(self).outputs(),
    {
        let ghost before = *self;
        let mut task = task;
        std::mem::swap(&mut task, &mut self.tasks[node_id]);
        proof {
            assert(self.graph() =~= before.graph());
            assert(self.bindings() =~= before.bindings());
            assert(self.completed() =~= before.completed());
            assert(self.outputs() =~= before.outputs());
        }
        task
    }

    /// Records that task `node_id` has run with these outputs. Its
    /// dependencies have all completed; it had not. Returns the tasks that
    /// were waiting for it, which are no longer registered.
    pub fn finish_node(&mut self, node_id: NodeId, outputs: Vec<V>) -> (woken: Vec<NodeId>)
        requires
            old(self).wf(),
            node_id < old(self).graph().len(),
            old(self).graph()[node_id as int].subset_of(old(self).completed()),
            !old(self).completed().contains(node_id),
        ensures
            final(self).wf(),
            final(self).graph() == old(self).graph(),
            final(self).tasks() == old(self).tasks(),
            final(self).bindings() == old(self).bindings(),
            final(self).completed() == old(self).completed().insert(node_id),
            final(self).outputs() == old(self).outputs().update(node_id as int, Some(outputs@)),
            woken@.to_set() == old(self).waiting_on(node_id),
            final(self).waiting_on(node_id) == Set::<NodeId>::empty(),
    {
        let ghost before = *self;
        self.outputs.set(node_id, Some(outputs));
        self.completed.set(node_id, true);
        let mut woken: Vec<NodeId> = Vec::new();
        std::mem::swap(&mut woken, &mut self.waiters[node_id]);
        proof {
            assert(self.graph() =~= before.graph());
            assert(self.bindings() =~= before.bindings());
            assert(self.completed() =~= before.completed().insert(node_id));
            assert(self.outputs() =~= before.outputs().update(node_id as int, Some(outputs@)));
            assert(Seq::<NodeId>::empty().to_set() =~= Set::<NodeId>::empty());
        }
        woken
    }
}

impl<T: ExecutableTask<V>, V> Execution<T, V> {
    /// Runs task `node_id`: hands it the values bound to its inputs, keeps
    /// its outputs, and marks it completed. Returns the tasks waiting for it.
    pub fn run_node(&mut self, node_id: NodeId) -> (woken: Vec<NodeId>)
        requires
            old(self).wf(),
            node_id < old(self).graph().len(),
            old(self).graph()[node_id as int].subset_of(old(self).completed()),
            !old(self).completed().contains(node_id),
        ensures
            final(self).wf(),
            final(self).graph() == old(self).graph(),
            final(self).bindings() == old(self).bindings(),
            final(self).completed() == old(self).completed().insert(node_id),
            final(self).tasks().len() == old(self).tasks().len(),
            final(self).outputs()[node_id as int] is Some,
            forall|v: int| 0 <= v < final(self).graph().len() && v != node_id ==> #[trigger] final(self).outputs()[v] == old(self).outputs()[v],
            woken@.to_set() == old(self).waiting_on(node_id),
    {
        proof {
            assert forall|k: int| 0 <= k < self.inputs@[node_id as int]@.len() && #[trigger] self.inputs@[node_id as int]@[k] is Some
                implies self.inputs@[node_id as int]@[k]->0.source_task_id < self.outputs@.len() by {
                assert(self.bindings()[node_id as int][k] is Some);
            }
        }
        let inputs = resolve_inputs(&self.inputs[node_id], &self.outputs);
        let outputs = self.tasks[node_id].exec(&inputs);
        let ghost mid = *self;
        proof {
            assert(mid.graph() =~= old(self).graph());
            assert(mid.completed() =~= old(self).completed());
            assert(mid.outputs() =~= old(self).outputs());
            assert(mid.bindings() =~= old(self).bindings());
        }
        self.finish_node(node_id, outputs)
    }
}

/// A task completes only after every task it depends on: for each edge
/// `a -> b`, if `b` has completed then so has `a`.
pub proof fn lemma_completion_order<T, V>(e: &Execution<T, V>, a: NodeId, b: NodeId)
    requires
        e.wf(),
        is_edge(e.graph(), a, b),
        e.completed().contains(b),
    ensures
        e.completed().contains(a),
{
    assert(e.graph()[b as int].subset_of(e.completed()));
}

/// The value behind an optional reference.
pub open spec fn deref_opt<V>(o: Option<&V>) -> Option<V> {
    match o {
        Some(x) => Some(*x),
        None => None,
    }
}

/// The outputs of each task as sequences.
pub open spec fn outputs_view<V>(outs: Seq<Option<Vec<V>>>) -> Seq<Option<Seq<V>>> {
    Seq::new(
        outs.len(),
        |v: int|
            match outs[v] {
                Some(o) => Some(o@),
                None => None,
            },
    )
}

/// The value at output port `port` of task `node_id`, if the task has run
/// and has that port.
pub open spec fn output_of<V>(outs: Seq<Option<Seq<V>>>, node_id: NodeId, port: usize) -> Option<V> {
    match outs[node_id as int] {
        Some(o) => if port < o.len() {
            Some(o[port as int])
        } else {
            None
        },
        None => None,
    }
}

fn lookup_output<V>(outputs: &Vec<Option<Vec<V>>>, node_id: NodeId, port: usize) -> (r: Option<&V>)
    requires
        node_id < outputs@.len(),
    ensures
        deref_opt(r) == output_of(outputs_view(outputs@), node_id, port),
{
    match &outputs[node_id] {
        Some(o) => if port < o.len() {
            Some(&o[port])
        } else {
            None
        },
        None => None,
    }
}

/// The value bound to each input port.
fn resolve_inputs<'a, V>(
    bindings: &Vec<Option<TaskInputHandle>>,
    outputs: &'a Vec<Option<Vec<V>>>,
) -> (r: Vec<Option<&'a V>>)
    requires
        forall|k: int| 0 <= k < bindings@.len() && #[trigger] bindings@[k] is Some ==> bindings@[k]->0.source_task_id < outputs@.len(),
    ensures
        r@.len() == bindings@.len(),
        forall|k: int| 0 <= k < r@.len() ==> #[trigger] deref_opt(r@[k]) == match bindings@[k] {
            Some(h) => output_of(outputs_view(outputs@), h.source_task_id, h.output_port),
            None => None,
        },
{
    let mut r: Vec<Option<&V>> = Vec::new();
    let mut k: usize = 0;
    while k < bindings.len()
        invariant
            k <= bindings@.len(),
            r@.len() == k,
            forall|k: int| 0 <= k < bindings@.len() && #[trigger] bindings@[k] is Some ==> bindings@[k]->0.source_task_id < outputs@.len(),
            forall|j: int| 0 <= j < k ==> #[trigger] deref_opt(r@[j]) == match bindings@[j] {
                Some(h) => output_of(outputs_view(outputs@), h.source_task_id, h.output_port),
                None => None,
            },
        decreases bindings@.len() - k,
    {
        match bindings[k] {
            Some(h) => {
                r.push(lookup_output(outputs, h.source(), h.port()));
            },
            None => {
                r.push(None);
            },
        }
        k = k + 1;
    }
    r
}

} // verus!
