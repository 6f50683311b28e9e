//! The dependency-frontier tracker: built from a graph for one traversal, it
//! checks the graph for cycles and then hands out, one at a time, the nodes
//! whose dependencies have all been visited.
use vstd::prelude::*;

use crate::dag::Dag;
use crate::graph::{
    acyclic, cycle_reachable_from, has_root, is_cycle, is_cycle_from_root, is_edge, is_path,
    is_root, lemma_blocked_set_has_cycle, repeats, validation, waits_within, DepGraph,
};
use crate::idset::{insert_once, remove_once};
use crate::node::{Node, NodeId};

verus! {

/// Why a graph cannot be traversed.
#[derive(PartialEq, Eq, Structural, Clone, Copy, Debug)]
pub enum GraphError {
    /// No node is free of dependencies (the graph is empty, or every node
    /// lies on or after a cycle).
    NoRoots,
    /// The graph holds a cycle.
    CycleDetected,
}

#[derive(PartialEq, Eq, Structural, Clone, Copy)]
enum CycleCheckStatus {
    Initial,
    Processing,
    Processed,
}

/// The colours of a depth-first search, with the order in which nodes
/// were finished.
struct CycleMarks {
    status: Vec<CycleCheckStatus>,
    finished: Ghost<Map<NodeId, nat>>,
    count: Ghost<nat>,
}

pub struct DagVisitationInfo<'a, T> {
    dag: &'a Dag<T>,
    /// upstream nodes not yet visited
    dependencies: Vec<Vec<NodeId>>,
    /// downstream nodes
    dependants: Vec<Vec<NodeId>>,
    roots: Vec<NodeId>,
    visited: Ghost<Set<NodeId>>,
}

impl<'a, T> DagVisitationInfo<'a, T> {
    /// The graph being traversed.
    pub open spec fn graph(&self) -> DepGraph {
        self.dag().deps()
    }

    pub closed spec fn dag(&self) -> &'a Dag<T> {
        self.dag
    }

    /// For each node, the dependencies that are still to be visited.
    pub closed spec fn remaining(&self) -> Seq<Set<NodeId>> {
        Seq::new(self.dependencies@.len(), |v: int| self.dependencies@[v]@.to_set())
    }

    /// For each node, the nodes that depend on it.
    pub closed spec fn downstream(&self) -> Seq<Set<NodeId>> {
        Seq::new(self.dependants@.len(), |v: int| self.dependants@[v]@.to_set())
    }

    /// The frontier: nodes that may run now.
    pub closed spec fn roots(&self) -> Set<NodeId> {
        self.roots@.to_set()
    }

    /// The nodes marked visited so far.
    pub closed spec fn visited(&self) -> Set<NodeId> {
        self.visited@
    }

    /// The two trackers hold the same adjacency lists.
    pub closed spec fn same_lists(&self, other: &Self) -> bool {
        self.dependants == other.dependants && self.dependencies == other.dependencies
    }

    /// Sizes agree with the graph, lists hold node ids, each once.
    pub closed spec fn shape_ok(&self) -> bool {
        let n = self.dag.nodes().len();
        &&& self.dag.wf()
        &&& self.dependencies@.len() == n
        &&& self.dependants@.len() == n
        &&& self.roots@.no_duplicates()
        &&& forall|i: int| 0 <= i < self.roots@.len() ==> #[trigger] self.roots@[i] < n
        &&& forall|v: int| 0 <= v < n ==> #[trigger] self.dependencies@[v]@.no_duplicates()
        &&& forall|v: int| 0 <= v < n ==> #[trigger] self.dependants@[v]@.no_duplicates()
    }

    /// The tracker agrees with its graph: `downstream` is the reverse of the
    /// dependency relation, `remaining` is each node's dependencies less the
    /// visited nodes, and a node on the frontier has nothing left to wait for.
    pub open spec fn wf(&self) -> bool {
        let g = self.graph();
        &&& self.shape_ok()
        &&& forall|u: NodeId, v: NodeId|
            u < g.len() ==> (#[trigger] self.downstream()[u as int].contains(v) <==> is_edge(
                g,
                u,
                v,
            ))
        &&& forall|v: int|
            0 <= v < g.len() ==> #[trigger] self.remaining()[v] == g[v].difference(self.visited())
        &&& forall|r: NodeId| #[trigger]
            self.roots().contains(r) ==> r < g.len() && self.remaining()[r as int]
                == Set::<NodeId>::empty()
    }

    /// The frontier holds exactly the unvisited nodes whose dependencies
    /// have all been visited.
    /// Visited nodes were visited after all their dependencies.
    pub open spec fn frontier_exact(&self) -> bool {
        &&& forall|v: NodeId| #[trigger]
            self.roots().contains(v) <==> v < self.graph().len() && !self.visited().contains(v)
                && self.remaining()[v as int] == Set::<NodeId>::empty()
        &&& forall|v: NodeId| #[trigger]
            self.visited().contains(v) ==> v < self.graph().len() && self.graph()[v as int].subset_of(
                self.visited(),
            )
    }

    proof fn lemma_shape(&self)
        requires
            self.shape_ok(),
        ensures
            self.remaining().len() == self.graph().len(),
            self.downstream().len() == self.graph().len(),
            forall|r: NodeId| #[trigger] self.roots().contains(r) ==> r < self.graph().len(),
    {
        self.dag.lemma_wf();
        assert forall|r: NodeId| #[trigger] self.roots().contains(r) implies r
            < self.graph().len() by {
            let i = self.roots@.index_of(r);
        }
    }

    /// A tracker for `dag` with no relationship recorded yet.
    pub(crate) fn new(dag: &'a Dag<T>) -> (r: Self)
        requires
            dag.wf(),
        ensures
            r.shape_ok(),
            r.dag() == dag,
            r.remaining() == Seq::new(dag.nodes().len(), |v: int| Set::<NodeId>::empty()),
            r.downstream() == Seq::new(dag.nodes().len(), |v: int| Set::<NodeId>::empty()),
            r.roots() == Set::<NodeId>::empty(),
            r.visited() == Set::<NodeId>::empty(),
    {
        let len = dag.get_num_nodes();
        let mut dependencies: Vec<Vec<NodeId>> = Vec::with_capacity(len);
        let mut dependants: Vec<Vec<NodeId>> = Vec::with_capacity(len);
        let mut i: usize = 0;
        while i < len
            invariant
                i <= len,
                dependencies@.len() == i,
                dependants@.len() == i,
                forall|v: int| 0 <= v < i ==> #[trigger] dependencies@[v]@ == Seq::<NodeId>::empty(),
                forall|v: int| 0 <= v < i ==> #[trigger] dependants@[v]@ == Seq::<NodeId>::empty(),
            decreases len - i,
        {
            dependencies.push(Vec::new());
            dependants.push(Vec::new());
            i = i + 1;
        }
        let r = DagVisitationInfo {
            dag,
            dependencies,
            dependants,
            roots: Vec::new(),
            visited: Ghost(Set::empty()),
        };
        proof {
            assert(Seq::<NodeId>::empty().to_set() =~= Set::<NodeId>::empty());
            assert(r.remaining() =~= Seq::new(len as nat, |v: int| Set::<NodeId>::empty()));
            assert(r.downstream() =~= Seq::new(len as nat, |v: int| Set::<NodeId>::empty()));
            assert(r.roots() =~= Set::<NodeId>::empty());
        }
        r
    }

    /// The search state is consistent: the gray nodes are exactly the
    /// stack, which is a path from a root; each finished node has a rank, and
    /// everything downstream of it is finished with a smaller rank.
    spec fn marks_ok(&self, m: &CycleMarks, stack: Seq<NodeId>) -> bool {
        let g = self.graph();
        let n = g.len();
        &&& m.status@.len() == n
        &&& stack.no_duplicates()
        &&& forall|i: int| 0 <= i < stack.len() ==> #[trigger] stack[i] < n
        &&& stack.len() > 0 ==> is_path(g, stack) && is_root(g, stack[0])
        &&& forall|v: NodeId|
            v < n ==> (#[trigger] m.status@[v as int] == CycleCheckStatus::Processing
                <==> stack.contains(v))
        &&& forall|v: NodeId|
            v < n ==> (m.status@[v as int] == CycleCheckStatus::Processed
                <==> #[trigger] m.finished@.dom().contains(v))
        &&& forall|v: NodeId| #[trigger]
            m.finished@.dom().contains(v) ==> v < n && m.finished@[v] < m.count@
        &&& forall|v: NodeId, w: NodeId|
            m.finished@.dom().contains(v) && #[trigger] is_edge(g, v, w)
                ==> m.finished@.dom().contains(w) && m.finished@[w] < m.finished@[v]
    }

    /// Depth-first search from `curr_node_id`, gray on entry, black on exit.
    /// Returns false when it meets a gray node: the stack then closes a cycle.
    fn check_from(
        &self,
        curr_node_id: NodeId,
        marks: &mut CycleMarks,
        Ghost(stack): Ghost<Seq<NodeId>>,
    ) -> (r: bool)
        requires
            self.wf(),
            self.marks_ok(old(marks), stack),
            curr_node_id < self.graph().len(),
            old(marks).status@[curr_node_id as int] == CycleCheckStatus::Initial,
            stack.len() == 0 ==> is_root(self.graph(), curr_node_id),
            stack.len() > 0 ==> is_edge(self.graph(), stack.last(), curr_node_id),
        ensures
            r ==> self.marks_ok(final(marks), stack),
            r ==> final(marks).finished@.dom().contains(curr_node_id),
            r ==> forall|v: NodeId| #[trigger]
                old(marks).finished@.dom().contains(v) ==> final(marks).finished@.dom().contains(v)
                    && final(marks).finished@[v] == old(marks).finished@[v],
            r ==> !cycle_reachable_from(self.graph(), curr_node_id),
            !r ==> exists|p: Seq<NodeId>| #[trigger]
                is_cycle_from_root(self.graph(), p) && p[0] == search_start(stack, curr_node_id),
        decreases self.graph().len() - stack.len(),
    {
        let ghost g = self.graph();
        let ghost s2 = stack.push(curr_node_id);
        proof {
            self.lemma_shape();
            assert(!stack.contains(curr_node_id));
            assert(s2.no_duplicates()) by {
                assert forall|a: int, b: int| 0 <= a < s2.len() && 0 <= b < s2.len() && a != b implies s2[a] != s2[b] by {
                    if a < stack.len() && b < stack.len() {
                        assert(stack[a] != stack[b]);
                    } else if a < stack.len() {
                        assert(stack.contains(stack[a]));
                    } else if b < stack.len() {
                        assert(stack.contains(stack[b]));
                    }
                }
            }
            if s2.len() > g.len() {
                crate::graph::lemma_pigeonhole(s2, g.len());
            }
            assert forall|k: int| 0 <= k < s2.len() - 1 implies #[trigger] is_edge(g, s2[k], s2[k + 1]) by {
                if k < stack.len() - 1 {
                    assert(is_edge(g, stack[k], stack[k + 1]));
                }
            }
        }
        let ghost m_in = *marks;
        marks.status.set(curr_node_id, CycleCheckStatus::Processing);
        proof {
            assert(s2[s2.len() - 1] == curr_node_id);
            assert forall|v: NodeId| v < g.len() implies (#[trigger] marks.status@[v as int]
                == CycleCheckStatus::Processing <==> s2.contains(v)) by {
                assert(m_in.status@[v as int] == CycleCheckStatus::Processing <==> stack.contains(v));
                if v != curr_node_id && s2.contains(v) {
                    let i = s2.index_of(v);
                    assert(stack[i] == v);
                }
                if v != curr_node_id && stack.contains(v) {
                    let i = stack.index_of(v);
                    assert(s2[i] == v);
                }
            }
            assert(self.marks_ok(marks, s2));
        }
        let deps = self.get_dependants(curr_node_id);
        let mut k: usize = 0;
        while k < deps.len()
            invariant
                self.wf(),
                deps@.to_set() == self.downstream()[curr_node_id as int],
                k <= deps@.len(),
                g == self.graph(),
                s2 == stack.push(curr_node_id),
                s2.len() <= g.len(),
                curr_node_id < g.len(),
                self.marks_ok(marks, s2),
                forall|j: int| 0 <= j < k ==> #[trigger] marks.finished@.dom().contains(deps@[j]),
                forall|v: NodeId| #[trigger]
                    old(marks).finished@.dom().contains(v) ==> marks.finished@.dom().contains(v)
                        && marks.finished@[v] == old(marks).finished@[v],
            decreases deps@.len() - k,
        {
            let dep = deps[k];
            proof {
                assert(deps@.to_set().contains(dep));
                assert(is_edge(g, curr_node_id, dep));
            }
            let ghost m0 = *marks;
            match marks.status[dep] {
                CycleCheckStatus::Initial => {
                    if !self.check_from(dep, marks, Ghost(s2)) {
                        proof {
                            assert(search_start(s2, dep) == search_start(stack, curr_node_id)) by {
                                assert(s2[0] == search_start(stack, curr_node_id));
                            }
                        }
                        return false;
                    }
                    proof {
                        assert forall|j: int| 0 <= j < k implies #[trigger] marks.finished@.dom().contains(deps@[j]) by {
                            assert(m0.finished@.dom().contains(deps@[j]));
                        }
                        assert forall|v: NodeId| #[trigger] old(marks).finished@.dom().contains(v) implies marks.finished@.dom().contains(v)
                            && marks.finished@[v] == old(marks).finished@[v] by {
                            assert(m0.finished@.dom().contains(v));
                        }
                    }
                },
                CycleCheckStatus::Processing => {
                    proof {
                        let i = s2.index_of(dep);
                        let p = s2.push(dep);
                        assert forall|j: int| 0 <= j < p.len() - 1 implies #[trigger] is_edge(g, p[j], p[j + 1]) by {
                            if j < s2.len() - 1 {
                                assert(is_edge(g, s2[j], s2[j + 1]));
                            }
                        }
                        assert(p[i] == dep && p.last() == dep);
                        assert(p[0] == s2[0]);
                        if stack.len() > 0 {
                            assert(s2[0] == stack[0]);
                        }
                        assert(is_cycle_from_root(g, p));
                        assert(p[0] == search_start(stack, curr_node_id));
                    }
                    return false;
                },
                CycleCheckStatus::Processed => {
                    proof {
                        assert(marks.finished@.dom().contains(dep));
                    }
                },
            }
            k = k + 1;
        }
        let ghost before = *marks;
        marks.status.set(curr_node_id, CycleCheckStatus::Processed);
        marks.finished = Ghost(marks.finished@.insert(curr_node_id, marks.count@));
        marks.count = Ghost(marks.count@ + 1);
        proof {
            assert forall|w: NodeId| is_edge(g, curr_node_id, w) implies before.finished@.dom().contains(w) by {
                assert(self.downstream()[curr_node_id as int].contains(w));
                let j = deps@.index_of(w);
            }
            assert forall|v: NodeId| v < g.len() implies (#[trigger] marks.status@[v as int]
                == CycleCheckStatus::Processing <==> stack.contains(v)) by {
                assert(before.status@[v as int] == CycleCheckStatus::Processing <==> s2.contains(v));
                if v != curr_node_id && s2.contains(v) {
                    let i = s2.index_of(v);
                    assert(stack[i] == v);
                }
                if v != curr_node_id && stack.contains(v) {
                    let i = stack.index_of(v);
                    assert(s2[i] == v);
                }
            }
            assert(before.status@[curr_node_id as int] == CycleCheckStatus::Processing);
            assert(!before.finished@.dom().contains(curr_node_id));
            assert forall|v: NodeId, w: NodeId|
                marks.finished@.dom().contains(v) && #[trigger] is_edge(g, v, w)
                implies marks.finished@.dom().contains(w) && marks.finished@[w] < marks.finished@[v] by {
                if v == curr_node_id {
                    assert(before.finished@.dom().contains(w));
                    assert(before.finished@[w] < before.count@);
                } else {
                    assert(before.finished@.dom().contains(v));
                    assert(before.finished@.dom().contains(w));
                }
            }
            if stack.len() > 0 {
                crate::graph::lemma_subpath(g, s2, 0, stack.len() as int);
                assert(s2.subrange(0, stack.len() as int) =~= stack);
            }
            assert(self.marks_ok(marks, stack));
            if cycle_reachable_from(g, curr_node_id) {
                let p = choose|p: Seq<NodeId>| is_path(g, p) && p[0] == curr_node_id && repeats(p);
                lemma_finished_walk_does_not_repeat(g, marks.finished@, p);
            }
        }
        true
    }

    /// Checks that the graph has a root and no cycle: a depth-first search
    /// from each root, then a look for any node the searches left unfinished.
    pub(crate) fn check(self) -> (r: Result<Self, GraphError>)
        requires
            self.wf(),
            self.frontier_exact(),
            self.visited() == Set::<NodeId>::empty(),
        ensures
            match r {
                Ok(info) => info == self && validation(self.graph()) == Ok::<(), GraphError>(()),
                Err(e) => validation(self.graph()) == Err::<(), GraphError>(e),
            },
    {
        let ghost g = self.graph();
        proof {
            self.lemma_shape();
            assert forall|v: NodeId| is_root(g, v) <==> #[trigger] self.roots().contains(v) by {
                if is_root(g, v) {
                    assert(self.remaining()[v as int] =~= Set::<NodeId>::empty());
                }
                if self.roots().contains(v) {
                    assert(g[v as int] =~= Set::<NodeId>::empty()) by {
                        assert(self.remaining()[v as int] == g[v as int].difference(
                            Set::<NodeId>::empty(),
                        ));
                        assert(g[v as int].difference(Set::<NodeId>::empty()) =~= g[v as int]);
                    }
                }
            }
        }
        let first_root = self.get_next_root();
        if first_root.is_none() {
            proof {
                if has_root(g) {
                    let v = choose|v: NodeId| is_root(g, v);
                    assert(self.roots().contains(v));
                }
            }
            return Err(GraphError::NoRoots);
        }
        proof {
            let r = first_root.unwrap();
            assert(self.roots().contains(r));
            assert(is_root(g, r));
        }
        let n = self.dag.get_num_nodes();
        let mut status: Vec<CycleCheckStatus> = Vec::new();
        let mut i: usize = 0;
        while i < n
            invariant
                i <= n,
                status@.len() == i,
                forall|j: int| 0 <= j < i ==> #[trigger] status@[j] == CycleCheckStatus::Initial,
            decreases n - i,
        {
            status.push(CycleCheckStatus::Initial);
            i = i + 1;
        }
        let mut marks = CycleMarks { status, finished: Ghost(Map::empty()), count: Ghost(0) };
        let roots = self.get_roots();
        let mut i: usize = 0;
        while i < roots.len()
            invariant
                self.wf(),
                g == self.graph(),
                roots@.to_set() == self.roots(),
                i <= roots@.len(),
                self.marks_ok(&marks, Seq::<NodeId>::empty()),
                has_root(g),
                forall|v: NodeId| #[trigger] self.roots().contains(v) <==> is_root(g, v),
                forall|j: int| 0 <= j < i ==> #[trigger] marks.finished@.dom().contains(roots@[j]),
            decreases roots@.len() - i,
        {
            let root = roots[i];
            proof {
                assert(self.roots().contains(root));
            }
            let ghost m0 = marks;
            if marks.status[root] == CycleCheckStatus::Initial {
                if !self.check_from(root, &mut marks, Ghost(Seq::empty())) {
                    proof {
                        let p = choose|p: Seq<NodeId>| #[trigger] is_cycle_from_root(g, p) && p[0]
                            == search_start(Seq::<NodeId>::empty(), root);
                        crate::graph::lemma_cycle_from_root_is_cycle(g, p);
                    }
                    return Err(GraphError::CycleDetected);
                }
                proof {
                    assert forall|j: int| 0 <= j < i implies #[trigger] marks.finished@.dom().contains(roots@[j]) by {
                        assert(m0.finished@.dom().contains(roots@[j]));
                    }
                }
            } else {
                proof {
                    assert(!Seq::<NodeId>::empty().contains(root));
                    assert(marks.finished@.dom().contains(root));
                }
            }
            i = i + 1;
        }
        // a node left unfinished lies on or after a cycle that no root reaches
        let mut v: usize = 0;
        while v < n
            invariant
                self.wf(),
                g == self.graph(),
                n == g.len(),
                v <= n,
                roots@.to_set() == self.roots(),
                self.marks_ok(&marks, Seq::<NodeId>::empty()),
                has_root(g),
                forall|v: NodeId| #[trigger] self.roots().contains(v) <==> is_root(g, v),
                forall|j: int| 0 <= j < roots@.len() ==> #[trigger] marks.finished@.dom().contains(roots@[j]),
                forall|u: NodeId| u < v ==> #[trigger] marks.finished@.dom().contains(u),
            decreases n - v,
        {
            if marks.status[v] != CycleCheckStatus::Processed {
                proof {
                    self.dag.lemma_wf();
                    let s = Set::new(|u: NodeId| u < n && !marks.finished@.dom().contains(u));
                    assert forall|u: NodeId| #[trigger] s.contains(u) implies u < g.len() && waits_within(g, s, u) by {
                        reveal(waits_within);
                        if is_root(g, u) {
                            assert(self.roots().contains(u));
                            let j = roots@.index_of(u);
                            assert(marks.finished@.dom().contains(roots@[j]));
                        }
                        crate::graph::lemma_has_dependency(g, u);
                        let w = choose|w: NodeId| g[u as int].contains(w) && w < g.len();
                        if marks.finished@.dom().contains(w) {
                            assert(is_edge(g, w, u));
                        }
                        assert(s.contains(w));
                    }
                    assert(!marks.finished@.dom().contains(v));
                    assert(s.contains(v));
                    lemma_blocked_set_has_cycle(g, s, v);
                }
                return Err(GraphError::CycleDetected);
            }
            v = v + 1;
        }
        proof {
            self.dag.lemma_wf();
            assert forall|p: Seq<NodeId>| !is_cycle(g, p) by {
                if is_cycle(g, p) {
                    let k: int = 0;
                    assert(is_edge(g, p[k], p[k + 1]));
                    assert(marks.finished@.dom().contains(p[0]));
                    lemma_finished_walk_does_not_repeat(g, marks.finished@, p);
                    assert(p[0] == p.last());
                }
            }
        }
        Ok(self)
    }

    // dependants are downstream
    fn add_dependant(&mut self, from_node_id: NodeId, to_node_id: NodeId)
        requires
            old(self).shape_ok(),
            from_node_id < old(self).graph().len(),
            to_node_id < old(self).graph().len(),
        ensures
            final(self).shape_ok(),
            final(self).dag() == old(self).dag(),
            final(self).remaining() == old(self).remaining(),
            final(self).downstream() == old(self).downstream().update(
                from_node_id as int,
                old(self).downstream()[from_node_id as int].insert(to_node_id),
            ),
            final(self).roots() == old(self).roots(),
            final(self).visited() == old(self).visited(),
    {
        proof {
            self.dag.lemma_wf();
        }
        insert_once(&mut self.dependants[from_node_id], to_node_id);
        proof {
            assert(final(self).downstream() =~= old(self).downstream().update(
                from_node_id as int,
                old(self).downstream()[from_node_id as int].insert(to_node_id),
            ));
        }
    }

    // dependencies are upstream
    fn add_dependency(&mut self, from_node_id: NodeId, to_node_id: NodeId)
        requires
            old(self).shape_ok(),
            from_node_id < old(self).graph().len(),
            to_node_id < old(self).graph().len(),
        ensures
            final(self).shape_ok(),
            final(self).dag() == old(self).dag(),
            final(self).remaining() == old(self).remaining().update(
                to_node_id as int,
                old(self).remaining()[to_node_id as int].insert(from_node_id),
            ),
            final(self).downstream() == old(self).downstream(),
            final(self).roots() == old(self).roots(),
            final(self).visited() == old(self).visited(),
    {
        proof {
            self.dag.lemma_wf();
        }
        insert_once(&mut self.dependencies[to_node_id], from_node_id);
        proof {
            assert(final(self).remaining() =~= old(self).remaining().update(
                to_node_id as int,
                old(self).remaining()[to_node_id as int].insert(from_node_id),
            ));
        }
    }

    /// Records the edge `from_node_id -> to_node_id` in both directions.
    pub(crate) fn add_relationship(&mut self, from_node_id: NodeId, to_node_id: NodeId)
        requires
            old(self).shape_ok(),
            from_node_id < old(self).graph().len(),
            to_node_id < old(self).graph().len(),
        ensures
            final(self).shape_ok(),
            final(self).dag() == old(self).dag(),
            final(self).remaining() == old(self).remaining().update(
                to_node_id as int,
                old(self).remaining()[to_node_id as int].insert(from_node_id),
            ),
            final(self).downstream() == old(self).downstream().update(
                from_node_id as int,
                old(self).downstream()[from_node_id as int].insert(to_node_id),
            ),
            final(self).roots() == old(self).roots(),
            final(self).visited() == old(self).visited(),
    {
        self.add_dependant(from_node_id, to_node_id);
        self.add_dependency(from_node_id, to_node_id);
    }

    pub(crate) fn add_root_node(&mut self, node_id: NodeId)
        requires
            old(self).shape_ok(),
            node_id < old(self).graph().len(),
        ensures
            final(self).shape_ok(),
            final(self).dag() == old(self).dag(),
            final(self).remaining() == old(self).remaining(),
            final(self).downstream() == old(self).downstream(),
            final(self).roots() == old(self).roots().insert(node_id),
            final(self).visited() == old(self).visited(),
            final(self).same_lists(old(self)),
    {
        proof {
            self.dag.lemma_wf();
        }
        insert_once(&mut self.roots, node_id);
        proof {
            assert forall|i: int| 0 <= i < self.roots@.len() implies #[trigger] self.roots@[i]
                < self.dag.nodes().len() by {
                assert(self.roots@.contains(self.roots@[i]));
                if old(self).roots@.contains(self.roots@[i]) {
                    let j = old(self).roots@.index_of(self.roots@[i]);
                }
            }
        }
    }

    fn remove_root_node(&mut self, node_id: NodeId)
        requires
            old(self).shape_ok(),
        ensures
            final(self).shape_ok(),
            final(self).dag() == old(self).dag(),
            final(self).remaining() == old(self).remaining(),
            final(self).downstream() == old(self).downstream(),
            final(self).roots() == old(self).roots().remove(node_id),
            final(self).visited() == old(self).visited(),
            final(self).same_lists(old(self)),
    {
        remove_once(&mut self.roots, node_id);
        proof {
            assert forall|i: int| 0 <= i < self.roots@.len() implies #[trigger] self.roots@[i]
                < self.dag.nodes().len() by {
                assert(self.roots@.contains(self.roots@[i]));
                let j = old(self).roots@.index_of(self.roots@[i]);
            }
        }
    }

    /// The frontier, each node once.
    pub fn get_roots(&self) -> (r: &Vec<NodeId>)
        requires
            self.shape_ok(),
        ensures
            r@.to_set() == self.roots(),
            r@.no_duplicates(),
    {
        &self.roots
    }

    /// Some node of the frontier, if it has any.
    pub fn get_next_root(&self) -> (r: Option<NodeId>)
        ensures
            r is None <==> self.roots() == Set::<NodeId>::empty(),
            r matches Some(v) ==> self.roots().contains(v),
    {
        if self.roots.len() == 0 {
            proof {
                assert(self.roots@.to_set() =~= Set::<NodeId>::empty());
            }
            None
        } else {
            proof {
                assert(self.roots@.to_set().contains(self.roots@[0]));
            }
            Some(self.roots[0])
        }
    }

    /// Marks `node` visited: it leaves the frontier, and each node that
    /// depends on it and has nothing left to wait for joins the frontier.
    pub fn visited_node(&mut self, node: &Node<T>)
        requires
            old(self).wf(),
            node@.0 < old(self).graph().len(),
        ensures
            final(self).wf(),
            final(self).dag() == old(self).dag(),
            final(self).downstream() == old(self).downstream(),
            final(self).visited() == old(self).visited().insert(node@.0),
            final(self).roots() == old(self).roots().remove(node@.0).union(
                old(self).downstream()[node@.0 as int].filter(
                    |v: NodeId| final(self).remaining()[v as int] == Set::<NodeId>::empty(),
                ),
            ),
            old(self).frontier_exact() && old(self).roots().contains(node@.0)
                ==> final(self).frontier_exact(),
    {
        self.mark_visited(node.get_id());
    }

    fn mark_visited(&mut self, id: NodeId)
        requires
            old(self).wf(),
            id < old(self).graph().len(),
        ensures
            final(self).wf(),
            final(self).dag() == old(self).dag(),
            final(self).downstream() == old(self).downstream(),
            final(self).visited() == old(self).visited().insert(id),
            final(self).roots() == old(self).roots().remove(id).union(
                old(self).downstream()[id as int].filter(
                    |v: NodeId| final(self).remaining()[v as int] == Set::<NodeId>::empty(),
                ),
            ),
            old(self).frontier_exact() && old(self).roots().contains(id)
                ==> final(self).frontier_exact(),
    {
        let n = self.dag.get_num_nodes();
        let ghost g = self.graph();
        let ghost old_rem = self.remaining();
        let ghost list = self.dependants@[id as int]@;
        proof {
            self.lemma_shape();
            self.dag.lemma_wf();
            assert forall|v: NodeId| #[trigger] list.contains(v) implies v < g.len() by {
                assert(list.to_set().contains(v));
                assert(self.downstream()[id as int].contains(v));
            }
        }
        let mut k: usize = 0;
        while k < self.dependants[id].len()
            invariant
                self.shape_ok(),
                self.dag == old(self).dag,
                g == self.graph(),
                g.len() == self.dag.nodes().len(),
                id < g.len(),
                self.dependants == old(self).dependants,
                self.roots == old(self).roots,
                self.visited == old(self).visited,
                list == self.dependants@[id as int]@,
                list.no_duplicates(),
                n == g.len(),
                forall|v: NodeId| #[trigger] list.contains(v) ==> v < g.len(),
                k <= list.len(),
                forall|v: int|
                    0 <= v < g.len() ==> #[trigger] self.remaining()[v] == if list.subrange(
                        0,
                        k as int,
                    ).contains(v as NodeId) {
                        old_rem[v].remove(id)
                    } else {
                        old_rem[v]
                    },
            decreases list.len() - k,
        {
            let d = self.dependants[id][k];
            proof {
                assert(list.contains(d));
                assert(self.dependants@[id as int]@.to_set().contains(d));
                assert(self.downstream()[id as int].contains(d));
            }
            let ghost before = self.remaining();
            remove_once(&mut self.dependencies[d], id);
            proof {
                assert forall|v: int| 0 <= v < g.len() implies #[trigger] self.remaining()[v] == if list.subrange(0, k + 1).contains(v as NodeId) {
                    old_rem[v].remove(id)
                } else {
                    old_rem[v]
                } by {
                    assert(v as NodeId as int == v);
                    assert(list.subrange(0, k + 1) =~= list.subrange(0, k as int).push(d));
                    if v == d {
                        if list.subrange(0, k as int).contains(d) {
                            let j = list.subrange(0, k as int).index_of(d);
                            assert(list[j] == list[k as int]);
                        }
                        assert(before[v] == old_rem[v]);
                        assert(self.remaining()[v] == before[v].remove(id));
                        assert(list.subrange(0, k + 1)[k as int] == d);
                    } else {
                        assert(self.remaining()[v] == before[v]);
                        let x = v as NodeId;
                        if list.subrange(0, k + 1).contains(x) {
                            let j = list.subrange(0, k + 1).index_of(x);
                            assert(list.subrange(0, k as int)[j] == x);
                        }
                        if list.subrange(0, k as int).contains(x) {
                            let j = list.subrange(0, k as int).index_of(x);
                            assert(list.subrange(0, k + 1)[j] == x);
                        }
                    }
                }
            }
            k = k + 1;
        }
        proof {
            assert(list.subrange(0, k as int) =~= list);
        }
        let ghost rem2 = self.remaining();
        self.remove_root_node(id);
        let mut k: usize = 0;
        while k < self.dependants[id].len()
            invariant
                self.shape_ok(),
                self.dag == old(self).dag,
                g == self.graph(),
                g.len() == self.dag.nodes().len(),
                id < g.len(),
                self.dependants == old(self).dependants,
                self.remaining() == rem2,
                self.visited == old(self).visited,
                list == self.dependants@[id as int]@,
                list.no_duplicates(),
                n == g.len(),
                forall|v: NodeId| #[trigger] list.contains(v) ==> v < g.len(),
                k <= list.len(),
                self.roots() == old(self).roots().remove(id).union(
                    list.subrange(0, k as int).to_set().filter(
                        |v: NodeId| rem2[v as int] == Set::<NodeId>::empty(),
                    ),
                ),
            decreases list.len() - k,
        {
            let d = self.dependants[id][k];
            proof {
                assert(list.contains(d));
                assert(self.dependants@[id as int]@.to_set().contains(d));
                assert(self.downstream()[id as int].contains(d));
                assert(list.subrange(0, k + 1) =~= list.subrange(0, k as int).push(d));
                list.subrange(0, k as int).lemma_push_to_set_commute(d);
            }
            if self.dependencies[d].len() == 0 {
                proof {
                    assert(self.dependencies@[d as int]@ =~= Seq::<NodeId>::empty());
                    assert(self.dependencies@[d as int]@.to_set() =~= Set::<NodeId>::empty());
                }
                self.add_root_node(d);
                proof {
                    assert(self.roots() =~= old(self).roots().remove(id).union(
                        list.subrange(0, k + 1).to_set().filter(
                            |v: NodeId| rem2[v as int] == Set::<NodeId>::empty(),
                        ),
                    ));
                }
            } else {
                proof {
                    assert(self.dependencies@[d as int]@.to_set().contains(self.dependencies@[d as int]@[0]));
                    assert(self.roots() =~= old(self).roots().remove(id).union(
                        list.subrange(0, k + 1).to_set().filter(
                            |v: NodeId| rem2[v as int] == Set::<NodeId>::empty(),
                        ),
                    ));
                }
            }
            k = k + 1;
        }
        self.visited = Ghost(self.visited@.insert(id));
        proof {
            let vis = self.visited();
            assert(list.subrange(0, k as int) =~= list);
            assert(list.to_set() == self.downstream()[id as int]);
            assert forall|v: int| 0 <= v < g.len() implies #[trigger] self.remaining()[v] == g[v].difference(vis) by {
                assert(old_rem[v] == g[v].difference(old(self).visited()));
                assert(v as NodeId as int == v);
                if list.contains(v as NodeId) {
                    assert(rem2[v] =~= g[v].difference(vis));
                } else {
                    assert(!self.downstream()[id as int].contains(v as NodeId));
                    assert(!is_edge(g, id, v as NodeId));
                    assert(!g[v].contains(id));
                    assert(rem2[v] =~= g[v].difference(vis));
                }
            }
            assert forall|r: NodeId| #[trigger] self.roots().contains(r) implies r < g.len() && self.remaining()[r as int] == Set::<NodeId>::empty() by {
                if old(self).roots().contains(r) && r != id {
                    assert(old_rem[r as int] == Set::<NodeId>::empty());
                    assert(rem2[r as int] =~= Set::<NodeId>::empty());
                } else {
                    assert(list.to_set().contains(r));
                    let j = list.index_of(r);
                }
            }
            assert(self.roots() =~= old(self).roots().remove(id).union(
                old(self).downstream()[id as int].filter(
                    |v: NodeId| self.remaining()[v as int] == Set::<NodeId>::empty(),
                ),
            ));
            if old(self).frontier_exact() && old(self).roots().contains(id) {
                assert(old_rem[id as int] == Set::<NodeId>::empty());
                assert forall|u: NodeId| g[id as int].contains(u) implies old(self).visited().contains(u) by {
                    if !old(self).visited().contains(u) {
                        assert(old_rem[id as int].contains(u));
                    }
                }
                assert forall|v: NodeId| #[trigger] self.roots().contains(v) <==> v < g.len() && !vis.contains(v)
                    && self.remaining()[v as int] == Set::<NodeId>::empty() by {
                    if self.roots().contains(v) {
                        if old(self).roots().contains(v) && v != id {
                        } else {
                            assert(list.to_set().contains(v));
                            let j = list.index_of(v);
                            assert(is_edge(g, id, v));
                            if v == id {
                                assert(old_rem[id as int].contains(id));
                            }
                            if old(self).visited().contains(v) {
                                assert(g[v as int].subset_of(old(self).visited()));
                            }
                        }
                    }
                    if v < g.len() && !vis.contains(v) && self.remaining()[v as int] == Set::<NodeId>::empty() {
                        if !list.contains(v) {
                            assert(old_rem[v as int] == rem2[v as int]);
                            assert(old(self).roots().contains(v));
                        } else {
                            assert(list.to_set().contains(v));
                        }
                    }
                }
                assert forall|v: NodeId| #[trigger] vis.contains(v) implies v < g.len() && g[v as int].subset_of(vis) by {
                    if v != id {
                        assert(old(self).visited().contains(v));
                    }
                }
            }
        }
    }

    /// Runs the traversal to its end: takes a node of the frontier with
    /// `next`, marks it visited, and again, until the frontier is empty. Returns the nodes in
    /// the order visited: each once, each after all its dependencies, and all
    /// of them when the graph has no cycle.
    pub fn visit_all(&mut self) -> (order: Vec<NodeId>)
        requires
            old(self).wf(),
            old(self).frontier_exact(),
            old(self).visited() == Set::<NodeId>::empty(),
        ensures
            final(self).wf(),
            final(self).frontier_exact(),
            final(self).dag() == old(self).dag(),
            final(self).roots() == Set::<NodeId>::empty(),
            final(self).visited() == order@.to_set(),
            order@.no_duplicates(),
            forall|i: int| 0 <= i < order@.len() ==> #[trigger] order@[i] < old(self).graph().len(),
            forall|i: int|
                0 <= i < order@.len() ==> #[trigger] old(self).graph()[order@[i] as int].subset_of(
                    order@.subrange(0, i).to_set(),
                ),
            acyclic(old(self).graph()) ==> order@.len() == old(self).graph().len(),
    {
        let ghost g = self.graph();
        let n = self.dag.get_num_nodes();
        let mut order: Vec<NodeId> = Vec::new();
        proof {
            assert(order@.to_set() =~= Set::<NodeId>::empty());
        }
        let mut next = self.next();
        while next.is_some()
            invariant
                next is None <==> self.roots() == Set::<NodeId>::empty(),
                next matches Some(nd) ==> self.roots().contains(nd@.0),
                self.wf(),
                self.frontier_exact(),
                self.dag() == old(self).dag(),
                g == self.graph(),
                n == g.len(),
                self.visited() == order@.to_set(),
                order@.no_duplicates(),
                order@.len() <= n,
                forall|i: int| 0 <= i < order@.len() ==> #[trigger] order@[i] < n,
                forall|i: int|
                    0 <= i < order@.len() ==> #[trigger] g[order@[i] as int].subset_of(
                        order@.subrange(0, i).to_set(),
                    ),
            decreases n - order@.len(),
        {
            let node = next.unwrap();
            let id = node.get_id();
            let ghost before = order@;
            proof {
                assert(self.roots().contains(id));
                assert(!order@.contains(id));
                assert(g[id as int].subset_of(order@.to_set())) by {
                    assert forall|u: NodeId| g[id as int].contains(u) implies order@.to_set().contains(u) by {
                        if !order@.to_set().contains(u) {
                            assert(self.remaining()[id as int].contains(u));
                        }
                    }
                }
            }
            self.visited_node(node);
            order.push(id);
            proof {
                before.lemma_push_to_set_commute(id);
                assert(order@.subrange(0, before.len() as int) =~= before);
                assert forall|i: int| 0 <= i < order@.len() implies #[trigger] g[order@[i] as int].subset_of(
                    order@.subrange(0, i).to_set(),
                ) by {
                    if i < before.len() {
                        assert(order@.subrange(0, i) =~= before.subrange(0, i));
                    }
                }
                if order@.len() > n {
                    crate::graph::lemma_pigeonhole(order@, n as nat);
                }
            }
            next = self.next();
        }
        proof {
            if acyclic(g) && order@.len() < n {
                self.dag.lemma_wf();
                let v = crate::graph::lemma_missing_id(order@, n as nat);
                let s = Set::new(|v: NodeId| v < n && !order@.contains(v));
                assert forall|v: NodeId| #[trigger] s.contains(v) implies v < g.len() && waits_within(g, s, v) by {
                    reveal(waits_within);
                    assert(!self.roots().contains(v));
                    assert(self.remaining()[v as int] != Set::<NodeId>::empty());
                    let u = self.remaining()[v as int].choose();
                    if !self.remaining()[v as int].contains(u) {
                        assert(self.remaining()[v as int] =~= Set::<NodeId>::empty());
                    }
                    assert(g[v as int].contains(u));
                    assert(u < n);
                    assert(!order@.to_set().contains(u));
                    assert(s.contains(u));
                }
                assert(s.contains(v));
                lemma_blocked_set_has_cycle(g, s, v);
            }
        }
        order
    }

    /// A node of the frontier, if it has any.
    pub fn next(&self) -> (r: Option<&'a Node<T>>)
        requires
            self.wf(),
        ensures
            r is None <==> self.roots() == Set::<NodeId>::empty(),
            r matches Some(nd) ==> self.roots().contains(nd@.0) && *nd == self.dag().nodes()[nd@.0 as int],
    {
        match self.get_next_root() {
            Some(id) => {
                proof {
                    self.lemma_shape();
                    self.dag.lemma_wf();
                }
                Some(self.dag.get_node(id))
            },
            None => None,
        }
    }

    pub closed spec fn get_dependencies_spec(&self, node_id: NodeId) -> Seq<NodeId> {
        self.dependencies@[node_id as int]@
    }

    /// The dependencies of `node_id` that are still to be visited.
    pub fn get_dependencies(&self, node_id: NodeId) -> (r: &Vec<NodeId>)
        requires
            self.shape_ok(),
            node_id < self.graph().len(),
        ensures
            r@ == self.get_dependencies_spec(node_id),
            r@.to_set() == self.remaining()[node_id as int],
            r@.no_duplicates(),
    {
        proof {
            self.dag.lemma_wf();
        }
        &self.dependencies[node_id]
    }

    /// The nodes that depend on `node_id`.
    pub fn get_dependants(&self, node_id: NodeId) -> (r: &Vec<NodeId>)
        requires
            self.shape_ok(),
            node_id < self.graph().len(),
        ensures
            r@.to_set() == self.downstream()[node_id as int],
            r@.no_duplicates(),
    {
        proof {
            self.dag.lemma_wf();
        }
        &self.dependants[node_id]
    }
}

/// A node on the frontier of a consistent tracker has had all of its
/// dependencies visited: marking nodes visited never makes a node ready
/// early.
pub proof fn lemma_frontier_ready<'a, T>(info: &DagVisitationInfo<'a, T>, v: NodeId)
    requires
        info.wf(),
        info.roots().contains(v),
    ensures
        v < info.graph().len(),
        info.graph()[v as int].subset_of(info.visited()),
{
    assert forall|u: NodeId| info.graph()[v as int].contains(u) implies info.visited().contains(u) by {
        if !info.visited().contains(u) {
            assert(info.remaining()[v as int].contains(u));
        }
    }
}

/// The first node of the walk a search is on: the bottom of its stack.
spec fn search_start(stack: Seq<NodeId>, curr_node_id: NodeId) -> NodeId {
    if stack.len() == 0 {
        curr_node_id
    } else {
        stack[0]
    }
}

/// A walk from a finished node never comes back to a node it passed.
proof fn lemma_finished_walk_does_not_repeat(g: DepGraph, fin: Map<NodeId, nat>, p: Seq<NodeId>)
    requires
        is_path(g, p),
        fin.dom().contains(p[0]),
        forall|v: NodeId, w: NodeId|
            fin.dom().contains(v) && #[trigger] is_edge(g, v, w) ==> fin.dom().contains(w)
                && fin[w] < fin[v],
    ensures
        !repeats(p),
{
    if repeats(p) {
        lemma_ranks_decrease(g, fin, p, p.len() - 1);
        let k = choose|k: int| 0 <= k < p.len() - 1 && p[k] == p.last();
        assert(fin[p[p.len() - 1]] < fin[p[k]]);
    }
}

/// Along a path from a finished node, every node is finished, with ranks
/// that fall strictly.
proof fn lemma_ranks_decrease(g: DepGraph, fin: Map<NodeId, nat>, p: Seq<NodeId>, j: int)
    requires
        is_path(g, p),
        fin.dom().contains(p[0]),
        forall|v: NodeId, w: NodeId|
            fin.dom().contains(v) && #[trigger] is_edge(g, v, w) ==> fin.dom().contains(w)
                && fin[w] < fin[v],
        0 <= j < p.len(),
    ensures
        fin.dom().contains(p[j]),
        forall|i: int| 0 <= i < j ==> fin[p[j]] < #[trigger] fin[p[i]],
    decreases j,
{
    if j > 0 {
        let k = j - 1;
        lemma_ranks_decrease(g, fin, p, k);
        assert(is_edge(g, p[k], p[k + 1]));
        assert forall|i: int| 0 <= i < j implies fin[p[j]] < #[trigger] fin[p[i]] by {
            if i < k {
                assert(fin[p[k]] < fin[p[i]]);
            }
        }
    }
}

} // verus!
