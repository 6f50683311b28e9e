//! The facade: add tasks, wire an output port of one task to an input port
//! of another (which also orders them), and run the whole graph.
use vstd::prelude::*;

use crate::dag::Dag;
use crate::execution::Execution;
use crate::graph::{acyclic, is_edge, validation, with_edge, DepGraph};
use crate::node::NodeId;
use crate::task::{ExecutableTask, TaskInputHandle};
use crate::visit::GraphError;

verus! {

/// Names a task of a flow.
#[derive(Clone, Copy, Debug, PartialEq, Eq, Structural)]
pub struct TaskHandle {
    task_id: NodeId,
}

impl TaskHandle {
    pub closed spec fn id_spec(&self) -> NodeId {
        self.task_id
    }

    pub fn id(&self) -> (r: NodeId)
        ensures
            r == self.id_spec(),
    {
        self.task_id
    }
}

pub struct Flow<T> {
    dag: Dag<T>,
    /// `inputs[v][k]` binds input port `k` of task `v`.
    inputs: Vec<Vec<Option<TaskInputHandle>>>,
}

impl<T> Flow<T> {
    /// The ordering between tasks.
    pub closed spec fn graph(&self) -> DepGraph {
        self.dag.deps()
    }

    /// The tasks, in the order they were added.
    pub closed spec fn tasks(&self) -> Seq<T> {
        Seq::new(self.dag.nodes().len(), |v: int| self.dag.nodes()[v]@.1)
    }

    /// The bindings of each task's input ports.
    pub closed spec fn bindings(&self) -> Seq<Seq<Option<TaskInputHandle>>> {
        Seq::new(self.inputs@.len(), |v: int| self.inputs@[v]@)
    }

    /// Each binding reads from a task that is ordered before its reader.
    pub closed spec fn wf(&self) -> bool {
        &&& self.dag.wf()
        &&& self.inputs@.len() == self.dag.nodes().len()
        &&& forall|v: int, k: int|
            0 <= v < self.inputs@.len() && 0 <= k < self.inputs@[v]@.len()
                && #[trigger] self.inputs@[v]@[k] is Some ==> is_edge(
                self.dag.deps(),
                self.inputs@[v]@[k]->0.source_task_id,
                v as NodeId,
            )
    }

    pub proof fn lemma_wf(&self)
        requires
            self.wf(),
        ensures
            self.tasks().len() == self.graph().len(),
            self.bindings().len() == self.graph().len(),
            forall|v: int, k: int|
                0 <= v < self.graph().len() && 0 <= k < self.bindings()[v].len()
                    && #[trigger] self.bindings()[v][k] is Some ==> is_edge(
                    self.graph(),
                    self.bindings()[v][k]->0.source_task_id,
                    v as NodeId,
                ),
    {
        self.dag.lemma_wf();
    }

    pub fn new() -> (r: Self)
        ensures
            r.wf(),
            r.tasks() == Seq::<T>::empty(),
            r.graph() == DepGraph::empty(),
    {
        let r = Flow { dag: Dag::new(), inputs: Vec::new() };
        proof {
            assert(r.tasks() =~= Seq::<T>::empty());
        }
        r
    }

    /// Adds a task with no dependency and no binding.
    pub fn add_new_task(&mut self, new_task: T) -> (r: TaskHandle)
        requires
            old(self).wf(),
        ensures
            final(self).wf(),
            r.id_spec() == old(self).tasks().len(),
            final(self).tasks() == old(self).tasks().push(new_task),
            final(self).graph() == old(self).graph().push(Set::<NodeId>::empty()),
            final(self).bindings() == old(self).bindings().push(Seq::empty()),
    {
        let id = self.dag.add_node(new_task);
        self.inputs.push(Vec::new());
        proof {
            let old_nodes = old(self).dag.nodes();
            assert forall|v: int| 0 <= v < id implies #[trigger] self.dag.nodes()[v] == old_nodes[v] by {
                assert(self.dag.nodes().subrange(0, id as int)[v] == self.dag.nodes()[v]);
            }
            assert(self.tasks() =~= old(self).tasks().push(new_task));
            assert(self.bindings() =~= old(self).bindings().push(Seq::empty()));
            assert forall|v: int, k: int|
                0 <= v < self.inputs@.len() && 0 <= k < self.inputs@[v]@.len()
                    && #[trigger] self.inputs@[v]@[k] is Some implies is_edge(
                    self.dag.deps(),
                    self.inputs@[v]@[k]->0.source_task_id,
                    v as NodeId,
                ) by {
                assert(self.inputs@[v] == old(self).inputs@[v]);
                assert(self.dag.deps()[v] == old(self).dag.deps()[v]);
            }
        }
        TaskHandle { task_id: id }
    }

    /// Adds a task; the same as `add_new_task`.
    pub fn new_task(&mut self, new_task: T) -> (r: TaskHandle)
        requires
            old(self).wf(),
        ensures
            final(self).wf(),
            r.id_spec() == old(self).tasks().len(),
            final(self).tasks() == old(self).tasks().push(new_task),
            final(self).graph() == old(self).graph().push(Set::<NodeId>::empty()),
            final(self).bindings() == old(self).bindings().push(Seq::empty()),
    {
        self.add_new_task(new_task)
    }

    pub fn get_task_by_id(&self, task_id: NodeId) -> (r: &T)
        requires
            self.wf(),
            task_id < self.tasks().len(),
        ensures
            *r == self.tasks()[task_id as int],
    {
        self.dag.get_node(task_id).get_value()
    }

    pub fn get_task(&self, task_handle: &TaskHandle) -> (r: &T)
        requires
            self.wf(),
            task_handle.id_spec() < self.tasks().len(),
        ensures
            *r == self.tasks()[task_handle.id_spec() as int],
    {
        self.get_task_by_id(task_handle.id())
    }

    pub fn get_mut_task(&mut self, task_handle: &TaskHandle) -> (r: &mut T)
        requires
            old(self).wf(),
            task_handle.id_spec() < old(self).tasks().len(),
        ensures
            *r == old(self).tasks()[task_handle.id_spec() as int],
            final(self).wf(),
            final(self).tasks() == old(self).tasks().update(task_handle.id_spec() as int, *final(r)),
            final(self).graph() == old(self).graph(),
            final(self).bindings() == old(self).bindings(),
    {
        proof {
            self.dag.lemma_wf();
        }
        let node = self.dag.get_mut_node(task_handle.id());
        let r = node.get_mut_value();
        r
    }

    /// Binds input port `input_port` of the task behind `task2_handle` to
    /// output port `output_port` of the task behind `task1_handle`, and
    /// orders the first task before the second.
    pub fn connect(
        &mut self,
        task1_handle: &TaskHandle,
        output_port: usize,
        task2_handle: &TaskHandle,
        input_port: usize,
    )
        requires
            old(self).wf(),
            task1_handle.id_spec() < old(self).tasks().len(),
            task2_handle.id_spec() < old(self).tasks().len(),
            input_port < usize::MAX,
        ensures
            final(self).wf(),
            final(self).tasks() == old(self).tasks(),
            final(self).graph() == with_edge(
                old(self).graph(),
                task1_handle.id_spec(),
                task2_handle.id_spec(),
            ),
            final(self).bindings() == old(self).bindings().update(
                task2_handle.id_spec() as int,
                bind_port(
                    old(self).bindings()[task2_handle.id_spec() as int],
                    input_port,
                    TaskInputHandle { source_task_id: task1_handle.id_spec(), output_port: output_port },
                ),
            ),
    {
        let from = task1_handle.id();
        let to = task2_handle.id();
        let ghost old_ports = self.inputs@[to as int]@;
        let num_tasks = self.inputs.len();
        self.dag.connect(from, to);
        let ports = &mut self.inputs[to];
        while ports.len() <= input_port
            invariant
                input_port < usize::MAX,
                ports@.len() >= old_ports.len(),
                ports@.len() <= if old_ports.len() > input_port {
                    old_ports.len() as int
                } else {
                    input_port + 1
                },
                ports@.subrange(0, old_ports.len() as int) == old_ports,
                forall|k: int| old_ports.len() <= k < ports@.len() ==> #[trigger] ports@[k] is None,
            decreases input_port + 1 - ports@.len(),
        {
            ports.push(None);
        }
        ports.set(input_port, Some(TaskInputHandle::new(from, output_port)));
        proof {
            let h = TaskInputHandle { source_task_id: from, output_port: output_port };
            let newp = self.inputs@[to as int]@;
            assert forall|k: int| 0 <= k < old_ports.len() && k != input_port implies newp[k] == old_ports[k] by {
                assert(newp.subrange(0, old_ports.len() as int)[k] == newp[k]);
            }
            assert(newp =~= bind_port(old_ports, input_port, h));
            assert(self.bindings() =~= old(self).bindings().update(to as int, bind_port(old_ports, input_port, h)));
            let g0 = old(self).dag.deps();
            let g1 = self.dag.deps();
            old(self).dag.lemma_wf();
            self.dag.lemma_wf();
            assert(g1 == with_edge(g0, from, to));
            assert forall|v: int, k: int|
                0 <= v < self.inputs@.len() && 0 <= k < self.inputs@[v]@.len()
                    && #[trigger] self.inputs@[v]@[k] is Some implies is_edge(
                    g1,
                    self.inputs@[v]@[k]->0.source_task_id,
                    v as NodeId,
                ) by {
                assert(v < num_tasks);
                assert(v as NodeId as int == v);
                if v == to && k == input_port {
                    assert(g1[to as int].contains(from));
                } else {
                    assert(self.inputs@[v]@[k] == old(self).inputs@[v]@[k]);
                    let u = old(self).inputs@[v]@[k]->0.source_task_id;
                    assert(is_edge(g0, u, v as NodeId));
                    assert(g1[v].contains(u));
                }
            }
        }
    }

    pub fn connect_output0_to_input0(&mut self, task1_handle: &TaskHandle, task2_handle: &TaskHandle)
        requires
            old(self).wf(),
            task1_handle.id_spec() < old(self).tasks().len(),
            task2_handle.id_spec() < old(self).tasks().len(),
        ensures
            final(self).wf(),
            final(self).tasks() == old(self).tasks(),
            final(self).graph() == with_edge(old(self).graph(), task1_handle.id_spec(), task2_handle.id_spec()),
            final(self).bindings() == old(self).bindings().update(
                task2_handle.id_spec() as int,
                bind_port(old(self).bindings()[task2_handle.id_spec() as int], 0, TaskInputHandle { source_task_id: task1_handle.id_spec(), output_port: 0 }),
            ),
    {
        self.connect(task1_handle, 0, task2_handle, 0);
    }

    pub fn connect_output0_to_input1(&mut self, task1_handle: &TaskHandle, task2_handle: &TaskHandle)
        requires
            old(self).wf(),
            task1_handle.id_spec() < old(self).tasks().len(),
            task2_handle.id_spec() < old(self).tasks().len(),
        ensures
            final(self).wf(),
            final(self).tasks() == old(self).tasks(),
            final(self).graph() == with_edge(old(self).graph(), task1_handle.id_spec(), task2_handle.id_spec()),
            final(self).bindings() == old(self).bindings().update(
                task2_handle.id_spec() as int,
                bind_port(old(self).bindings()[task2_handle.id_spec() as int], 1, TaskInputHandle { source_task_id: task1_handle.id_spec(), output_port: 0 }),
            ),
    {
        self.connect(task1_handle, 0, task2_handle, 1);
    }

    pub fn connect_output1_to_input0(&mut self, task1_handle: &TaskHandle, task2_handle: &TaskHandle)
        requires
            old(self).wf(),
            task1_handle.id_spec() < old(self).tasks().len(),
            task2_handle.id_spec() < old(self).tasks().len(),
        ensures
            final(self).wf(),
            final(self).tasks() == old(self).tasks(),
            final(self).graph() == with_edge(old(self).graph(), task1_handle.id_spec(), task2_handle.id_spec()),
            final(self).bindings() == old(self).bindings().update(
                task2_handle.id_spec() as int,
                bind_port(old(self).bindings()[task2_handle.id_spec() as int], 0, TaskInputHandle { source_task_id: task1_handle.id_spec(), output_port: 1 }),
            ),
    {
        self.connect(task1_handle, 1, task2_handle, 0);
    }

    pub fn connect_output1_to_input1(&mut self, task1_handle: &TaskHandle, task2_handle: &TaskHandle)
        requires
            old(self).wf(),
            task1_handle.id_spec() < old(self).tasks().len(),
            task2_handle.id_spec() < old(self).tasks().len(),
        ensures
            final(self).wf(),
            final(self).tasks() == old(self).tasks(),
            final(self).graph() == with_edge(old(self).graph(), task1_handle.id_spec(), task2_handle.id_spec()),
            final(self).bindings() == old(self).bindings().update(
                task2_handle.id_spec() as int,
                bind_port(old(self).bindings()[task2_handle.id_spec() as int], 1, TaskInputHandle { source_task_id: task1_handle.id_spec(), output_port: 1 }),
            ),
    {
        self.connect(task1_handle, 1, task2_handle, 1);
    }

    pub fn get_num_tasks(&self) -> (r: usize)
        requires
            self.wf(),
        ensures
            r == self.tasks().len(),
    {
        self.dag.get_num_nodes()
    }

    pub fn get_flow_graph(&self) -> (r: &Dag<T>)
        ensures
            r.deps() == self.graph(),
    {
        &self.dag
    }
}

impl<T: Clone> Flow<T> {
    /// Checks the graph and prepares a run on copies of the tasks, in which
    /// no task has run yet. Fails when the graph has no root or holds a
    /// cycle.
    pub fn new_execution<V>(&self) -> (r: Result<Execution<T, V>, GraphError>)
        where
            T: ExecutableTask<V>,
        requires
            self.wf(),
        ensures
            match r {
                Ok(e) => {
                    &&& validation(self.graph()) == Ok::<(), GraphError>(())
                    &&& e.wf()
                    &&& e.graph() == self.graph()
                    &&& e.bindings() == self.bindings()
                    &&& e.tasks().len() == self.tasks().len()
                    &&& e.completed() == Set::<NodeId>::empty()
                },
                Err(err) => validation(self.graph()) == Err::<(), GraphError>(err),
            },
    {
        let ghost g = self.graph();
        proof {
            self.lemma_wf();
            self.dag.lemma_wf();
        }
        if let Err(e) = self.dag.build_bfs() {
            return Err(e);
        }
        let n = self.dag.get_num_nodes();
        let mut tasks: Vec<T> = Vec::new();
        let mut dependencies: Vec<Vec<NodeId>> = Vec::new();
        let mut inputs: Vec<Vec<Option<TaskInputHandle>>> = Vec::new();
        let mut i: usize = 0;
        while i < n
            invariant
                self.wf(),
                g == self.graph(),
                n == g.len(),
                n == self.inputs@.len(),
                i <= n,
                tasks@.len() == i,
                dependencies@.len() == i,
                inputs@.len() == i,
                forall|v: int| 0 <= v < i ==> #[trigger] dependencies@[v]@.no_duplicates(),
                forall|v: int| 0 <= v < i ==> #[trigger] dependencies@[v]@.to_set() == g[v],
                forall|v: int| 0 <= v < i ==> #[trigger] inputs@[v]@ == self.inputs@[v]@,
            decreases n - i,
        {
            tasks.push(self.dag.get_node(i).get_value().clone());
            dependencies.push(copy_ids(self.dag.get_dependencies(i)));
            inputs.push(copy_bindings(&self.inputs[i]));
            i = i + 1;
        }
        let mut exec: Execution<T, V> = Execution::new(tasks, dependencies, inputs);
        proof {
            assert(exec.graph() =~= g);
            assert(exec.bindings() =~= self.bindings());
            assert forall|v: NodeId| #[trigger] exec.completed().contains(v) implies v < g.len()
                && g[v as int].subset_of(exec.completed()) by {}
            assert(Seq::<NodeId>::empty().to_set() =~= Set::<NodeId>::empty());
            assert(exec.wf());
        }
        Ok(exec)
    }

    /// Runs every task once, each after all of its dependencies, on copies
    /// of the tasks: the flow itself is left as it was, so that it can run
    /// again. Fails, running nothing, when the graph has no root or holds a
    /// cycle.
    pub fn execute<V>(&self) -> (r: Result<Execution<T, V>, GraphError>)
        where
            T: ExecutableTask<V>,
        requires
            self.wf(),
        ensures
            match r {
                Ok(e) => {
                    &&& validation(self.graph()) == Ok::<(), GraphError>(())
                    &&& e.wf()
                    &&& e.graph() == self.graph()
                    &&& e.bindings() == self.bindings()
                    &&& e.tasks().len() == self.tasks().len()
                    &&& e.completed() == Set::new(|v: NodeId| v < self.tasks().len())
                },
                Err(err) => validation(self.graph()) == Err::<(), GraphError>(err),
            },
    {
        let ghost g = self.graph();
        proof {
            self.lemma_wf();
            self.dag.lemma_wf();
        }
        let mut exec = match self.new_execution() {
            Ok(e) => e,
            Err(e) => {
                return Err(e);
            },
        };
        let mut bfs = match self.dag.build_bfs() {
            Ok(b) => b,
            Err(e) => {
                return Err(e);
            },
        };
        let order = bfs.visit_all();
        let n = self.dag.get_num_nodes();
        proof {
            assert(order@.subrange(0, 0).to_set() =~= Set::<NodeId>::empty());
        }
        let mut k: usize = 0;
        while k < order.len()
            invariant
                exec.wf(),
                exec.graph() == g,
                exec.bindings() == self.bindings(),
                exec.tasks().len() == n,
                n == g.len(),
                k <= order@.len(),
                order@.no_duplicates(),
                forall|i: int| 0 <= i < order@.len() ==> #[trigger] order@[i] < n,
                forall|i: int|
                    0 <= i < order@.len() ==> #[trigger] g[order@[i] as int].subset_of(
                        order@.subrange(0, i).to_set(),
                    ),
                exec.completed() == order@.subrange(0, k as int).to_set(),
            decreases order@.len() - k,
        {
            let id = order[k];
            proof {
                assert(g[order@[k as int] as int].subset_of(order@.subrange(0, k as int).to_set()));
                if order@.subrange(0, k as int).contains(id) {
                    let j = order@.subrange(0, k as int).index_of(id);
                    assert(order@[j] == order@[k as int]);
                }
                assert(order@.subrange(0, k + 1) =~= order@.subrange(0, k as int).push(id));
                order@.subrange(0, k as int).lemma_push_to_set_commute(id);
            }
            exec.run_node(id);
            k = k + 1;
        }
        proof {
            assert(order@.subrange(0, k as int) =~= order@);
            assert(acyclic(g));
            {
                crate::graph::lemma_covers_all(order@, n as nat);
                assert forall|v: NodeId| exec.completed().contains(v) <==> v < n by {
                    if v < n {
                        assert(order@.contains(v));
                    }
                    if exec.completed().contains(v) {
                        let j = order@.index_of(v);
                    }
                }
                assert(exec.completed() =~= Set::new(|v: NodeId| v < n));
            }
        }
        Ok(exec)
    }
}

impl<T> Default for Flow<T> {
    fn default() -> (r: Self)
        ensures
            r.wf(),
            r.tasks() == Seq::<T>::empty(),
            r.graph() == DepGraph::empty(),
    {
        Self::new()
    }
}

/// A copy of a list of node ids.
fn copy_ids(v: &Vec<NodeId>) -> (r: Vec<NodeId>)
    ensures
        r@ == v@,
{
    let mut r: Vec<NodeId> = Vec::new();
    let mut k: usize = 0;
    while k < v.len()
        invariant
            k <= v@.len(),
            r@ == v@.subrange(0, k as int),
        decreases v@.len() - k,
    {
        r.push(v[k]);
        k = k + 1;
        proof {
            assert(r@ =~= v@.subrange(0, k as int));
        }
    }
    proof {
        assert(v@.subrange(0, k as int) =~= v@);
    }
    r
}

/// A copy of the bindings of a task's input ports.
fn copy_bindings(v: &Vec<Option<TaskInputHandle>>) -> (r: Vec<Option<TaskInputHandle>>)
    ensures
        r@ == v@,
{
    let mut r: Vec<Option<TaskInputHandle>> = Vec::new();
    let mut k: usize = 0;
    while k < v.len()
        invariant
            k <= v@.len(),
            r@ == v@.subrange(0, k as int),
        decreases v@.len() - k,
    {
        r.push(v[k]);
        k = k + 1;
        proof {
            assert(r@ =~= v@.subrange(0, k as int));
        }
    }
    proof {
        assert(v@.subrange(0, k as int) =~= v@);
    }
    r
}

/// The bindings of a task after binding input port `port` to `h`; ports
/// beyond the old end are added unbound.
pub open spec fn bind_port(
    ports: Seq<Option<TaskInputHandle>>,
    port: usize,
    h: TaskInputHandle,
) -> Seq<Option<TaskInputHandle>> {
    let len: int = if port < ports.len() {
        ports.len() as int
    } else {
        port + 1
    };
    Seq::new(
        len as nat,
        |k: int|
            if k == port {
                Some(h)
            } else if k < ports.len() {
                ports[k]
            } else {
                None
            },
    )
}

} // verus!
