//! The graph store: nodes in the order they were added, and for each node
//! the set of its dependencies.
use vstd::prelude::*;

use crate::graph::{
    acyclic, graph_wf, has_root, is_cycle, is_edge, is_root,
    lemma_acyclic_has_root, lemma_rootless_has_cycle, validation, with_edge, DepGraph,
};
use crate::idset::insert_once;
use crate::node::{Node, NodeId};
use crate::visit::{DagVisitationInfo, GraphError};

verus! {

pub struct Dag<T> {
    nodes: Vec<Node<T>>,
    /// `dependencies[v]` lists, without repetition, the nodes that `v` depends on.
    dependencies: Vec<Vec<NodeId>>,
}

impl<T> Dag<T> {
    /// The nodes, in the order of their ids.
    pub closed spec fn nodes(&self) -> Seq<Node<T>> {
        self.nodes@
    }

    /// The dependency relation.
    pub closed spec fn deps(&self) -> DepGraph {
        Seq::new(self.dependencies@.len(), |v: int| self.dependencies@[v]@.to_set())
    }

    pub closed spec fn wf(&self) -> bool {
        &&& self.nodes@.len() == self.dependencies@.len()
        &&& forall|i: int| 0 <= i < self.nodes@.len() ==> #[trigger] self.nodes@[i]@.0 == i
        &&& forall|v: int|
            0 <= v < self.dependencies@.len() ==> #[trigger] self.dependencies@[v]@.no_duplicates()
        &&& forall|v: int, k: int|
            0 <= v < self.dependencies@.len() && 0 <= k < self.dependencies@[v]@.len()
                ==> #[trigger] self.dependencies@[v]@[k] < self.dependencies@.len()
    }

    pub proof fn lemma_wf(&self)
        requires
            self.wf(),
        ensures
            graph_wf(self.deps()),
            self.deps().len() == self.nodes().len(),
            forall|i: int| 0 <= i < self.nodes().len() ==> #[trigger] self.nodes()[i]@.0 == i,
    {
        let g = self.deps();
        assert forall|v: int| 0 <= v < g.len() implies #[trigger] g[v].finite() by {
            self.dependencies@[v]@.lemma_cardinality_of_set();
        }
        assert forall|v: int, u: NodeId| 0 <= v < g.len() && #[trigger] g[v].contains(u) implies u
            < g.len() by {
            let k = self.dependencies@[v]@.index_of(u);
            assert(self.dependencies@[v]@[k] == u);
        }
    }

    pub fn new() -> (r: Self)
        ensures
            r.wf(),
            r.nodes() == Seq::<Node<T>>::empty(),
            r.deps() == DepGraph::empty(),
    {
        let r = Dag { nodes: Vec::new(), dependencies: Vec::new() };
        assert(r.deps() =~= DepGraph::empty());
        r
    }

    /// Appends a node with no dependency; its id is the number of nodes before.
    pub fn add_node(&mut self, value: T) -> (id: NodeId)
        requires
            old(self).wf(),
        ensures
            final(self).wf(),
            id == old(self).nodes().len(),
            final(self).nodes().len() == old(self).nodes().len() + 1,
            final(self).nodes().subrange(0, id as int) == old(self).nodes(),
            final(self).nodes()[id as int]@ == (id, value),
            final(self).deps() == old(self).deps().push(Set::<NodeId>::empty()),
    {
        let id = self.nodes.len();
        self.nodes.push(Node::new(id, value));
        self.dependencies.push(Vec::new());
        proof {
            let s = Seq::<NodeId>::empty();
            assert(s.to_set() =~= Set::<NodeId>::empty());
            assert(self.dependencies@[id as int]@ == s);
            assert(final(self).nodes().subrange(0, id as int) =~= old(self).nodes());
            assert(final(self).deps() =~= old(self).deps().push(Set::<NodeId>::empty()));
        }
        id
    }

    /// Records `from_node_id` as a dependency of `to_node_id`. Connecting the
    /// same pair again changes nothing.
    pub fn connect(&mut self, from_node_id: NodeId, to_node_id: NodeId)
        requires
            old(self).wf(),
            from_node_id < old(self).nodes().len(),
            to_node_id < old(self).nodes().len(),
        ensures
            final(self).wf(),
            final(self).nodes() == old(self).nodes(),
            final(self).deps() == with_edge(old(self).deps(), from_node_id, to_node_id),
    {
        let ghost g = self.deps();
        let ghost before = self.dependencies@[to_node_id as int]@;
        insert_once(&mut self.dependencies[to_node_id], from_node_id);
        proof {
            let after = self.dependencies@[to_node_id as int]@;
            assert forall|v: int|
                0 <= v < self.dependencies@.len() implies #[trigger] self.dependencies@[v]@.no_duplicates() by {
                if v != to_node_id {
                    assert(self.dependencies@[v] == old(self).dependencies@[v]);
                }
            }
            assert forall|v: int, k: int|
                0 <= v < self.dependencies@.len() && 0 <= k < self.dependencies@[v]@.len()
                    implies #[trigger] self.dependencies@[v]@[k] < self.dependencies@.len() by {
                if v == to_node_id {
                    let x = after[k];
                    assert(after.contains(x));
                    if before.contains(x) {
                        let j = before.index_of(x);
                    }
                } else {
                    assert(self.dependencies@[v] == old(self).dependencies@[v]);
                }
            }
            assert(self.deps() =~= with_edge(g, from_node_id, to_node_id));
        }
    }

    pub fn get_num_nodes(&self) -> (r: usize)
        requires
            self.wf(),
        ensures
            r == self.nodes().len(),
            r == self.deps().len(),
    {
        self.nodes.len()
    }

    pub fn get_node(&self, node_id: NodeId) -> (r: &Node<T>)
        requires
            node_id < self.nodes().len(),
        ensures
            *r == self.nodes()[node_id as int],
    {
        &self.nodes[node_id]
    }

    pub fn get_mut_node(&mut self, node_id: NodeId) -> (r: &mut Node<T>)
        requires
            node_id < old(self).nodes().len(),
        ensures
            *r == old(self).nodes()[node_id as int],
            final(self).nodes() == old(self).nodes().update(node_id as int, *final(r)),
            final(self).deps() == old(self).deps(),
            old(self).wf() ==> (final(self).wf() <==> final(r)@.0 == node_id),
    {
        &mut self.nodes[node_id]
    }

    /// Builds the frontier tracker for one traversal: records every edge in
    /// both directions, puts the nodes without dependencies on the frontier,
    /// and checks the graph for a cycle.
    pub fn build_bfs(&self) -> (r: Result<DagVisitationInfo<'_, T>, GraphError>)
        requires
            self.wf(),
        ensures
            match r {
                Ok(info) => {
                    &&& info.wf()
                    &&& info.frontier_exact()
                    &&& info.dag() == self
                    &&& info.visited() == Set::<NodeId>::empty()
                    &&& info.roots() == Set::new(|v: NodeId| is_root(self.deps(), v))
                    &&& validation(self.deps()) == Ok::<(), GraphError>(())
                },
                Err(e) => validation(self.deps()) == Err::<(), GraphError>(e),
            },
    {
        let ghost g = self.deps();
        proof {
            self.lemma_wf();
        }
        let mut bfs = DagVisitationInfo::new(self);
        let n = self.get_num_nodes();
        let mut to_node_id: usize = 0;
        while to_node_id < n
            invariant
                self.wf(),
                g == self.deps(),
                graph_wf(g),
                n == g.len(),
                to_node_id <= n,
                bfs.shape_ok(),
                bfs.dag() == self,
                bfs.visited() == Set::<NodeId>::empty(),
                bfs.roots() == Set::<NodeId>::empty(),
                bfs.remaining().len() == n,
                bfs.downstream().len() == n,
                forall|v: int|
                    0 <= v < n ==> #[trigger] bfs.remaining()[v] == if v < to_node_id {
                        g[v]
                    } else {
                        Set::<NodeId>::empty()
                    },
                forall|u: NodeId, v: NodeId|
                    u < n ==> (#[trigger] bfs.downstream()[u as int].contains(v) <==> v < n
                        && bfs.remaining()[v as int].contains(u)),
            decreases n - to_node_id,
        {
            let deps = self.get_dependencies(to_node_id);
            let mut k: usize = 0;
            while k < deps.len()
                invariant
                    self.wf(),
                    g == self.deps(),
                    n == g.len(),
                    to_node_id < n,
                    k <= deps@.len(),
                    deps@.to_set() == g[to_node_id as int],
                    deps@.no_duplicates(),
                    forall|j: int| 0 <= j < deps@.len() ==> #[trigger] deps@[j] < n,
                    bfs.shape_ok(),
                    bfs.dag() == self,
                    bfs.visited() == Set::<NodeId>::empty(),
                    bfs.roots() == Set::<NodeId>::empty(),
                    bfs.remaining().len() == n,
                    bfs.downstream().len() == n,
                    forall|v: int|
                        0 <= v < n ==> #[trigger] bfs.remaining()[v] == if v < to_node_id {
                            g[v]
                        } else if v == to_node_id {
                            deps@.subrange(0, k as int).to_set()
                        } else {
                            Set::<NodeId>::empty()
                        },
                    forall|u: NodeId, v: NodeId|
                        u < n ==> (#[trigger] bfs.downstream()[u as int].contains(v) <==> v < n
                            && bfs.remaining()[v as int].contains(u)),
                decreases deps@.len() - k,
            {
                let from_node_id = deps[k];
                let ghost before = bfs;
                bfs.add_relationship(from_node_id, to_node_id);
                proof {
                    assert(deps@.subrange(0, k + 1) =~= deps@.subrange(0, k as int).push(
                        from_node_id,
                    ));
                    deps@.subrange(0, k as int).lemma_push_to_set_commute(from_node_id);
                    assert forall|u: NodeId, v: NodeId|
                        u < n implies (#[trigger] bfs.downstream()[u as int].contains(v) <==> v < n
                        && bfs.remaining()[v as int].contains(u)) by {
                        assert(before.downstream()[u as int].contains(v) <==> v < n
                            && before.remaining()[v as int].contains(u));
                    }
                }
                k = k + 1;
            }
            proof {
                assert(deps@.subrange(0, k as int) =~= deps@);
            }
            to_node_id = to_node_id + 1;
        }
        let mut i: usize = 0;
        while i < n
            invariant
                self.wf(),
                g == self.deps(),
                graph_wf(g),
                n == g.len(),
                i <= n,
                bfs.shape_ok(),
                bfs.dag() == self,
                bfs.visited() == Set::<NodeId>::empty(),
                bfs.remaining().len() == n,
                bfs.downstream().len() == n,
                forall|v: int| 0 <= v < n ==> #[trigger] bfs.remaining()[v] == g[v],
                forall|u: NodeId, v: NodeId|
                    u < n ==> (#[trigger] bfs.downstream()[u as int].contains(v) <==> v < n
                        && bfs.remaining()[v as int].contains(u)),
                forall|v: NodeId| #[trigger]
                    bfs.roots().contains(v) <==> v < i && g[v as int] == Set::<NodeId>::empty(),
            decreases n - i,
        {
            let is_root_node = bfs.get_dependencies(i).is_empty();
            proof {
                let l = bfs.get_dependencies_spec(i);
                if l.len() == 0 {
                    assert(l.to_set() =~= Set::<NodeId>::empty());
                } else {
                    assert(l.to_set().contains(l[0]));
                }
            }
            if is_root_node {
                bfs.add_root_node(i);
            }
            i = i + 1;
        }
        proof {
            assert forall|u: NodeId, v: NodeId| u < g.len() implies (
            #[trigger] bfs.downstream()[u as int].contains(v) <==> is_edge(g, u, v)) by {
                if v < n {
                    assert(bfs.remaining()[v as int] == g[v as int]);
                }
            }
            assert forall|v: int| 0 <= v < g.len() implies #[trigger] bfs.remaining()[v]
                == g[v].difference(bfs.visited()) by {
                assert(g[v].difference(Set::<NodeId>::empty()) =~= g[v]);
            }
            assert(bfs.wf());
            assert(bfs.frontier_exact());
            assert(bfs.roots() =~= Set::new(|v: NodeId| is_root(g, v)));
        }
        bfs.check()
    }

    /// The dependencies of `node_id`, each once.
    pub fn get_dependencies(&self, node_id: NodeId) -> (r: &Vec<NodeId>)
        requires
            self.wf(),
            node_id < self.nodes().len(),
        ensures
            r@.to_set() == self.deps()[node_id as int],
            r@.no_duplicates(),
            forall|k: int| 0 <= k < r@.len() ==> #[trigger] r@[k] < self.nodes().len(),
    {
        &self.dependencies[node_id]
    }
}

impl<T> Default for Dag<T> {
    fn default() -> (r: Self)
        ensures
            r.wf(),
            r.nodes() == Seq::<Node<T>>::empty(),
            r.deps() == DepGraph::empty(),
    {
        Self::new()
    }
}

/// Connecting the same pair twice leaves the same dependencies as
/// connecting it once.
pub proof fn lemma_connect_idempotent(g: DepGraph, from: NodeId, to: NodeId)
    requires
        to < g.len(),
    ensures
        with_edge(with_edge(g, from, to), from, to) == with_edge(g, from, to),
{
    let g1 = with_edge(g, from, to);
    assert(g1[to as int] == g[to as int].insert(from));
    assert(g1[to as int].insert(from) =~= g1[to as int]);
    assert(with_edge(g1, from, to) =~= g1);
}

/// A graph with at least one node and no cycle passes validation.
pub proof fn lemma_acyclic_validates(g: DepGraph)
    requires
        graph_wf(g),
        g.len() >= 1,
        acyclic(g),
    ensures
        validation(g) == Ok::<(), GraphError>(()),
{
    lemma_acyclic_has_root(g);
}

/// A graph that holds a cycle fails validation: with `CycleDetected`
/// when it has a root, whether or not a root reaches the cycle.
pub proof fn lemma_cycle_detected(g: DepGraph, p: Seq<NodeId>)
    requires
        is_cycle(g, p),
        has_root(g),
    ensures
        validation(g) == Err::<(), GraphError>(GraphError::CycleDetected),
{
}

/// A graph with nodes in which every node has a dependency fails validation
/// with `NoRoots`, and such a graph always holds a cycle.
pub proof fn lemma_all_dependent_no_roots(g: DepGraph)
    requires
        graph_wf(g),
        g.len() >= 1,
        forall|v: int| 0 <= v < g.len() ==> #[trigger] g[v] != Set::<NodeId>::empty(),
    ensures
        validation(g) == Err::<(), GraphError>(GraphError::NoRoots),
        !acyclic(g),
{
    assert(!has_root(g)) by {
        if has_root(g) {
            let v = choose|v: NodeId| is_root(g, v);
            assert(g[v as int] != Set::<NodeId>::empty());
        }
    }
    lemma_rootless_has_cycle(g);
}

} // verus!
