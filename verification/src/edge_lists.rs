//! Lists of edges, each a pair of nodes.
use crate::multidistance::NodeID;
use vstd::prelude::*;

verus! {

/// Whether the list holds the pair.
pub fn contains_pair(list: &Vec<(NodeID, NodeID)>, from: NodeID, to: NodeID) -> (r: bool)
    ensures
        r == list@.contains((from, to)),
{
    let mut i: usize = 0;
    while i < list.len()
        invariant
            i <= list.len(),
            forall|k: int| 0 <= k < i ==> list@[k] != (from, to),
        decreases list.len() - i,
    {
        if list[i].0 == from && list[i].1 == to {
            assert(list@[i as int] == (from, to));
            return true;
        }
        i += 1;
    }
    false
}

/// A concatenation holds what either part holds.
proof fn lemma_contains_concat(a: Seq<(NodeID, NodeID)>, b: Seq<(NodeID, NodeID)>, e: (NodeID, NodeID))
    ensures
        (a + b).contains(e) == (a.contains(e) || b.contains(e)),
{
    let c = a + b;
    if a.contains(e) {
        let n = choose|n: int| 0 <= n < a.len() && a[n] == e;
        assert(c[n] == e);
    }
    if b.contains(e) {
        let n = choose|n: int| 0 <= n < b.len() && b[n] == e;
        assert(c[a.len() + n] == e);
    }
    if c.contains(e) {
        let n = choose|n: int| 0 <= n < c.len() && c[n] == e;
        if n < a.len() {
            assert(a[n] == e);
        } else {
            assert(b[n - a.len()] == e);
        }
    }
}

/// The lists one after the other.
pub fn flatten(lists: &Vec<Vec<(NodeID, NodeID)>>) -> (r: Vec<(NodeID, NodeID)>)
    ensures
        forall|e: (NodeID, NodeID)|
            r@.contains(e) <==> exists|i: int|
                0 <= i < lists@.len() && (#[trigger] lists@[i])@.contains(e),
{
    let mut r: Vec<(NodeID, NodeID)> = Vec::new();
    let mut i: usize = 0;
    while i < lists.len()
        invariant
            i <= lists.len(),
            forall|e: (NodeID, NodeID)|
                r@.contains(e) <==> exists|k: int| 0 <= k < i && (#[trigger] lists@[k])@.contains(e),
        decreases lists.len() - i,
    {
        let ghost start = r@;
        let list = &lists[i];
        let mut j: usize = 0;
        while j < list.len()
            invariant
                j <= list@.len(),
                r@ == start + list@.take(j as int),
            decreases list.len() - j,
        {
            r.push(list[j]);
            assert(r@ =~= start + list@.take(j + 1));
            j += 1;
        }
        proof {
            assert(list@.take(list@.len() as int) == list@);
            assert forall|e: (NodeID, NodeID)|
                r@.contains(e) <==> exists|k: int|
                    0 <= k < i + 1 && (#[trigger] lists@[k])@.contains(e) by {
                lemma_contains_concat(start, list@, e);
                if start.contains(e) {
                    let k = choose|k: int| 0 <= k < i && (#[trigger] lists@[k])@.contains(e);
                    assert(lists@[k]@.contains(e));
                }
                if list@.contains(e) {
                    assert(lists@[i as int]@.contains(e));
                }
                if exists|k: int| 0 <= k < i + 1 && (#[trigger] lists@[k])@.contains(e) {
                    let k = choose|k: int| 0 <= k < i + 1 && (#[trigger] lists@[k])@.contains(e);
                    if k < i {
                        assert(start.contains(e));
                    }
                }
            }
        }
        i += 1;
    }
    r
}

} // verus!
