//! Lists of node ids that hold each id at most once, used as finite sets.
use vstd::prelude::*;

use crate::node::NodeId;

verus! {

/// Adds `x` unless it is there already.
pub fn insert_once(v: &mut Vec<NodeId>, x: NodeId)
    requires
        old(v)@.no_duplicates(),
    ensures
        final(v)@.no_duplicates(),
        final(v)@.to_set() == old(v)@.to_set().insert(x),
        forall|y: NodeId| #[trigger] final(v)@.contains(y) ==> old(v)@.contains(y) || y == x,
{
    let mut k: usize = 0;
    while k < v.len()
        invariant
            k <= v@.len(),
            v@ == old(v)@,
            v@.no_duplicates(),
            forall|j: int| 0 <= j < k ==> v@[j] != x,
        decreases v@.len() - k,
    {
        if v[k] == x {
            proof {
                assert(v@.to_set().insert(x) =~= v@.to_set());
            }
            return;
        }
        k = k + 1;
    }
    let ghost before = v@;
    v.push(x);
    proof {
        before.lemma_push_to_set_commute(x);
        assert(!before.contains(x));
        assert forall|y: NodeId| #[trigger] v@.contains(y) implies before.contains(y) || y == x by {
            let j = v@.index_of(y);
            if j < before.len() {
                assert(before[j] == y);
            }
        }
    }
}

/// Removes `x` if it is there.
pub fn remove_once(v: &mut Vec<NodeId>, x: NodeId)
    requires
        old(v)@.no_duplicates(),
    ensures
        final(v)@.no_duplicates(),
        final(v)@.to_set() == old(v)@.to_set().remove(x),
        forall|y: NodeId| #[trigger] final(v)@.contains(y) ==> old(v)@.contains(y),
{
    let mut k: usize = 0;
    while k < v.len()
        invariant
            k <= v@.len(),
            v@ == old(v)@,
            v@.no_duplicates(),
            forall|j: int| 0 <= j < k ==> v@[j] != x,
        decreases v@.len() - k,
    {
        if v[k] == x {
            let ghost before = v@;
            v.remove(k);
            proof {
                assert(v@ == before.remove(k as int));
                assert forall|a: int, b: int| 0 <= a < v@.len() && 0 <= b < v@.len() && a != b implies v@[a] != v@[b] by {
                    let a0 = if a < k { a } else { a + 1 };
                    let b0 = if b < k { b } else { b + 1 };
                    assert(v@[a] == before[a0] && v@[b] == before[b0]);
                }
                assert forall|y: NodeId| v@.to_set().contains(y) <==> before.to_set().remove(
                    x,
                ).contains(y) by {
                    if v@.contains(y) {
                        let j = v@.index_of(y);
                        let j0 = if j < k { j } else { j + 1 };
                        assert(before[j0] == y);
                    }
                    if before.contains(y) && y != x {
                        let j0 = before.index_of(y);
                        assert(j0 != k);
                        let j = if j0 < k { j0 } else { j0 - 1 };
                        assert(v@[j] == y);
                    }
                }
                assert(v@.to_set() =~= before.to_set().remove(x));
                assert forall|y: NodeId| #[trigger] v@.contains(y) implies before.contains(y) by {
                    let j = v@.index_of(y);
                    let j0 = if j < k { j } else { j + 1 };
                    assert(before[j0] == y);
                }
            }
            return;
        }
        k = k + 1;
    }
    proof {
        assert(v@.to_set().remove(x) =~= v@.to_set());
    }
}

} // verus!
