//! The mathematical model of a dependency graph: for each node, the set of
//! nodes it depends on.
use vstd::prelude::*;
use vstd::set_lib::*;

use crate::node::NodeId;
use crate::visit::GraphError;

verus! {

/// `g[v]` is the set of the nodes that `v` depends on: an edge `u -> v`
/// means that `u` must complete before `v` runs.
pub type DepGraph = Seq<Set<NodeId>>;

/// Every dependency names a node of the graph, and every dependency set is
/// finite.
pub open spec fn graph_wf(g: DepGraph) -> bool {
    &&& forall|v: int| 0 <= v < g.len() ==> #[trigger] g[v].finite()
    &&& forall|v: int, u: NodeId| 0 <= v < g.len() && #[trigger] g[v].contains(u) ==> u < g.len()
}

/// The edge `u -> v`: `u` is a dependency of `v`.
pub open spec fn is_edge(g: DepGraph, u: NodeId, v: NodeId) -> bool {
    v < g.len() && g[v as int].contains(u)
}

/// A non-empty walk along edges.
pub open spec fn is_path(g: DepGraph, p: Seq<NodeId>) -> bool {
    &&& p.len() >= 1
    &&& forall|k: int| 0 <= k < p.len() - 1 ==> #[trigger] is_edge(g, p[k], p[k + 1])
}

/// A node with no dependency.
pub open spec fn is_root(g: DepGraph, v: NodeId) -> bool {
    v < g.len() && g[v as int] == Set::<NodeId>::empty()
}

pub open spec fn has_root(g: DepGraph) -> bool {
    exists|v: NodeId| is_root(g, v)
}

/// A walk of at least one edge that ends where it starts.
pub open spec fn is_cycle(g: DepGraph, p: Seq<NodeId>) -> bool {
    is_path(g, p) && p.len() >= 2 && p[0] == p.last()
}

pub open spec fn acyclic(g: DepGraph) -> bool {
    forall|p: Seq<NodeId>| !is_cycle(g, p)
}

/// The walk ends at a node it has already passed.
pub open spec fn repeats(p: Seq<NodeId>) -> bool {
    exists|k: int| 0 <= k < p.len() - 1 && p[k] == p.last()
}

/// A walk from a root that comes back to a node it has already passed.
pub open spec fn is_cycle_from_root(g: DepGraph, p: Seq<NodeId>) -> bool {
    &&& is_path(g, p)
    &&& is_root(g, p[0])
    &&& repeats(p)
}

/// What validating the graph gives: it needs a root, and no cycle.
pub open spec fn validation(g: DepGraph) -> Result<(), GraphError> {
    if !has_root(g) {
        Err(GraphError::NoRoots)
    } else if !acyclic(g) {
        Err(GraphError::CycleDetected)
    } else {
        Ok(())
    }
}

/// Some cycle can be reached by walking from `v`.
pub open spec fn cycle_reachable_from(g: DepGraph, v: NodeId) -> bool {
    exists|p: Seq<NodeId>| is_path(g, p) && p[0] == v && repeats(p)
}

/// The graph with the edge `from -> to` added.
pub open spec fn with_edge(g: DepGraph, from: NodeId, to: NodeId) -> DepGraph {
    g.update(to as int, g[to as int].insert(from))
}

/// A part of a path is a path.
pub proof fn lemma_subpath(g: DepGraph, p: Seq<NodeId>, i: int, j: int)
    requires
        is_path(g, p),
        0 <= i < j <= p.len(),
    ensures
        is_path(g, p.subrange(i, j)),
{
    let q = p.subrange(i, j);
    assert forall|k: int| 0 <= k < q.len() - 1 implies #[trigger] is_edge(g, q[k], q[k + 1]) by {
        assert(is_edge(g, p[i + k], p[i + k + 1]));
    }
}

/// A cycle reached from a root is a cycle.
pub proof fn lemma_cycle_from_root_is_cycle(g: DepGraph, p: Seq<NodeId>)
    requires
        is_cycle_from_root(g, p),
    ensures
        !acyclic(g),
{
    let k = choose|k: int| 0 <= k < p.len() - 1 && p[k] == p.last();
    lemma_subpath(g, p, k, p.len() as int);
    assert(is_cycle(g, p.subrange(k, p.len() as int)));
}

/// Within a set in which every node has a dependency, walking backwards
/// from `start` for `k` steps.
spec fn back_walk(g: DepGraph, s: Set<NodeId>, start: NodeId, k: nat) -> Seq<NodeId>
    decreases k,
{
    if k == 0 {
        seq![start]
    } else {
        let w = back_walk(g, s, start, (k - 1) as nat);
        w.push(choose|u: NodeId| g[w.last() as int].contains(u) && s.contains(u))
    }
}

/// `v` depends on some node of `s`.
#[verifier::opaque]
pub open spec fn waits_within(g: DepGraph, s: Set<NodeId>, v: NodeId) -> bool {
    exists|u: NodeId| g[v as int].contains(u) && s.contains(u)
}

/// The nodes of `s` each wait on some node of `s`.
pub open spec fn all_blocked(g: DepGraph, s: Set<NodeId>) -> bool {
    forall|v: NodeId| #[trigger] s.contains(v) ==> v < g.len() && waits_within(g, s, v)
}

proof fn lemma_back_walk(g: DepGraph, s: Set<NodeId>, start: NodeId, k: nat)
    requires
        all_blocked(g, s),
        s.contains(start),
    ensures
        back_walk(g, s, start, k).len() == k + 1,
        forall|i: int| 0 <= i < k + 1 ==> s.contains(#[trigger] back_walk(g, s, start, k)[i]),
        forall|i: int|
            0 <= i < k ==> is_edge(g, #[trigger] back_walk(g, s, start, k)[i + 1], back_walk(g, s, start, k)[i]),
    decreases k,
{
    if k > 0 {
        lemma_back_walk(g, s, start, (k - 1) as nat);
        let w = back_walk(g, s, start, (k - 1) as nat);
        let v = w.last();
        assert(s.contains(w[k - 1]));
        reveal(waits_within);
        let u = choose|u: NodeId| g[v as int].contains(u) && s.contains(u);
        assert(g[v as int].contains(u) && s.contains(u));
        let b = back_walk(g, s, start, k);
        assert(b == w.push(u));
        assert forall|i: int| 0 <= i < k + 1 implies s.contains(#[trigger] b[i]) by {
            if i < k {
                assert(b[i] == w[i]);
            }
        }
        assert forall|i: int| 0 <= i < k implies is_edge(g, #[trigger] b[i + 1], b[i]) by {
            if i < k - 1 {
                assert(b[i] == w[i] && b[i + 1] == w[i + 1]);
            }
        }
    }
}

/// A non-empty set of nodes that each wait on another node of the set
/// holds a cycle.
pub proof fn lemma_blocked_set_has_cycle(g: DepGraph, s: Set<NodeId>, start: NodeId)
    requires
        all_blocked(g, s),
        s.contains(start),
    ensures
        !acyclic(g),
{
    let n = g.len();
    lemma_back_walk(g, s, start, n);
    let w = back_walk(g, s, start, n);
    assert forall|i: int| 0 <= i < w.len() implies #[trigger] w[i] < n by {
        assert(s.contains(w[i]));
    }
    lemma_pigeonhole(w, n);
    let (i, j) = choose|i: int, j: int| 0 <= i < j < w.len() && w[i] == w[j];
    // walked forwards, w[j] .. w[i] is a cycle
    let c = w.subrange(i, j + 1).reverse();
    assert forall|k: int| 0 <= k < c.len() - 1 implies #[trigger] is_edge(g, c[k], c[k + 1]) by {
        assert(c[k] == w[j - k]);
        assert(c[k + 1] == w[j - k - 1]);
        assert(is_edge(g, w[(j - k - 1) + 1], w[j - k - 1]));
    }
    assert(is_cycle(g, c));
}

/// A sequence of `n + 1` node ids below `n` repeats one of them.
pub(crate) proof fn lemma_pigeonhole(s: Seq<NodeId>, n: nat)
    requires
        s.len() > n,
        forall|i: int| 0 <= i < s.len() ==> #[trigger] s[i] < n,
    ensures
        exists|i: int, j: int| 0 <= i < j < s.len() && s[i] == s[j],
{
    let t = s.map_values(|x: NodeId| x as int);
    lemma_int_range(0, n as int);
    assert(t.to_set().subset_of(set_int_range(0, n as int))) by {
        assert forall|x: int| t.to_set().contains(x) implies set_int_range(0, n as int).contains(x) by {
            let i = choose|i: int| 0 <= i < t.len() && t[i] == x;
            assert(s[i] < n);
        }
    }
    lemma_len_subset(t.to_set(), set_int_range(0, n as int));
    if t.no_duplicates() {
        t.unique_seq_to_set();
        assert(false);
    }
    let (i, j) = choose|i: int, j: int| 0 <= i < t.len() && 0 <= j < t.len() && i != j && t[i] == t[j];
    if i < j {
        assert(s[i] == s[j]);
    } else {
        assert(s[j] == s[i]);
    }
}

pub(crate) proof fn lemma_has_dependency(g: DepGraph, v: NodeId)
    requires
        graph_wf(g),
        v < g.len(),
        !is_root(g, v),
    ensures
        exists|u: NodeId| g[v as int].contains(u) && u < g.len(),
{
    let u = g[v as int].choose();
    if !g[v as int].contains(u) {
        assert(g[v as int] =~= Set::<NodeId>::empty());
    }
    assert(g[v as int].contains(u));
}

/// Fewer than `n` distinct ids below `n` leave one of them out.
pub(crate) proof fn lemma_missing_id(s: Seq<NodeId>, n: nat) -> (v: NodeId)
    requires
        s.len() < n,
        n <= usize::MAX,
        s.no_duplicates(),
    ensures
        v < n,
        !s.contains(v),
{
    let t = s.map_values(|x: NodeId| x as int);
    if forall|v: NodeId| v < n ==> s.contains(v) {
        lemma_int_range(0, n as int);
        assert(set_int_range(0, n as int).subset_of(t.to_set())) by {
            assert forall|x: int| set_int_range(0, n as int).contains(x) implies t.to_set().contains(x) by {
                let v = x as NodeId;
                assert(v as int == x);
                assert(s.contains(v));
                let i = s.index_of(v);
                assert(t[i] == x);
            }
        }
        t.lemma_cardinality_of_set();
        lemma_len_subset(set_int_range(0, n as int), t.to_set());
        assert(false);
    }
    choose|v: NodeId| v < n && !s.contains(v)
}

/// `n` distinct ids below `n` are all of them.
pub(crate) proof fn lemma_covers_all(s: Seq<NodeId>, n: nat)
    requires
        s.len() == n,
        s.no_duplicates(),
        forall|i: int| 0 <= i < s.len() ==> #[trigger] s[i] < n,
    ensures
        forall|v: NodeId| v < n ==> #[trigger] s.contains(v),
{
    assert forall|v: NodeId| v < n implies #[trigger] s.contains(v) by {
        if !s.contains(v) {
            let t = s.push(v);
            assert forall|i: int| 0 <= i < t.len() implies #[trigger] t[i] < n by {
                if i < s.len() {
                    assert(t[i] == s[i]);
                }
            }
            lemma_pigeonhole(t, n);
            let (i, j) = choose|i: int, j: int| 0 <= i < j < t.len() && t[i] == t[j];
            if j == s.len() {
                assert(s[i] == v);
            } else {
                assert(s[i] == s[j]);
            }
        }
    }
}

/// A graph with nodes and no root holds a cycle.
pub proof fn lemma_rootless_has_cycle(g: DepGraph)
    requires
        graph_wf(g),
        g.len() >= 1,
        !has_root(g),
    ensures
        !acyclic(g),
{
    let s = Set::new(|v: NodeId| v < g.len());
    assert forall|v: NodeId| #[trigger] s.contains(v) implies v < g.len() && waits_within(g, s, v) by {
        reveal(waits_within);
        assert(!is_root(g, v));
        lemma_has_dependency(g, v);
        let u = choose|u: NodeId| g[v as int].contains(u) && u < g.len();
        assert(s.contains(u));
    }
    assert(s.contains(0));
    lemma_blocked_set_has_cycle(g, s, 0);
}

/// A graph with nodes and no cycle has a root.
pub proof fn lemma_acyclic_has_root(g: DepGraph)
    requires
        graph_wf(g),
        g.len() >= 1,
        acyclic(g),
    ensures
        has_root(g),
{
    if !has_root(g) {
        lemma_rootless_has_cycle(g);
    }
}

} // verus!
