//! Node sets: the nodes that a path or a union selects, ascending by id
//! and without repeats.

use vstd::prelude::*;
use crate::node::NodeId;

verus! {

/// Whether a list of ids is strictly ascending.
pub open spec fn ascending(s: Seq<NodeId>) -> bool {
    forall|i: int, j: int| 0 <= i < j < s.len() ==> s[i] < s[j]
}

/// Calls `slice::sort_unstable`: the same ids, each as often as before, in
/// ascending order.
#[verifier::external_body]
fn sort_ids(v: &mut Vec<NodeId>)
    ensures
        final(v)@.to_multiset() == old(v)@.to_multiset(),
        forall|i: int, j: int| 0 <= i <= j < final(v)@.len() ==> final(v)@[i] <= final(v)@[j],
{
    v.sort_unstable();
}

/// The ids of `v` ascending, each once.
pub fn sorted_unique(v: Vec<NodeId>) -> (r: Vec<NodeId>)
    ensures
        ascending(r@),
        forall|x: NodeId| r@.contains(x) <==> v@.contains(x),
{
    let mut s = v;
    let ghost orig = s@;
    sort_ids(&mut s);
    proof {
        orig.to_multiset_ensures();
        s@.to_multiset_ensures();
    }
    assert forall|x: NodeId| s@.contains(x) <==> orig.contains(x) by {
        assert(s@.to_multiset().count(x) == orig.to_multiset().count(x));
    }
    let mut out: Vec<NodeId> = Vec::new();
    let mut i: usize = 0;
    while i < s.len()
        invariant
            i <= s@.len(),
            forall|a: int, b: int| 0 <= a <= b < s@.len() ==> s@[a] <= s@[b],
            ascending(out@),
            i > 0 ==> out@.len() > 0 && out@.last() == s@[i - 1],
            i == 0 ==> out@.len() == 0,
            forall|x: NodeId| out@.contains(x) <==> s@.take(i as int).contains(x),
        decreases s@.len() - i,
    {
        let x = s[i];
        let fresh = out.len() == 0 || out[out.len() - 1] != x;
        let ghost before = out@;
        if fresh {
            out.push(x);
        }
        proof {
            assert(s@.take(i + 1) =~= s@.take(i as int).push(x));
            assert forall|y: NodeId| out@.contains(y) <==> s@.take(i + 1).contains(y) by {
                if out@.contains(y) {
                    let k = choose|k: int| 0 <= k < out@.len() && #[trigger] out@[k] == y;
                    if k < before.len() {
                        assert(before.contains(y));
                        assert(s@.take(i as int).contains(y));
                        let m = choose|m: int| 0 <= m < i && #[trigger] s@.take(i as int)[m] == y;
                        assert(s@.take(i + 1)[m] == y);
                    } else {
                        assert(s@.take(i + 1)[i as int] == y);
                    }
                }
                if s@.take(i + 1).contains(y) {
                    let m = choose|m: int| 0 <= m < i + 1 && #[trigger] s@.take(i + 1)[m] == y;
                    if m < i {
                        assert(s@.take(i as int)[m] == y);
                        assert(before.contains(y));
                        let k = choose|k: int| 0 <= k < before.len() && #[trigger] before[k] == y;
                        assert(out@[k] == y);
                    } else if fresh {
                        assert(out@[out@.len() - 1] == y);
                    } else {
                        assert(before[before.len() - 1] == y);
                        assert(out@[before.len() - 1] == y);
                    }
                }
            }
        }
        i = i + 1;
    }
    assert(s@.take(s@.len() as int) =~= s@);
    out
}

} // verus!
