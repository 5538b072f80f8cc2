//! Copying a node, or a whole subtree, into fresh unlinked nodes of the
//! same arena.

use vstd::prelude::*;
use crate::document::{fresh_node, link_child, DocV, Document};
use crate::error::XmlError;
use crate::node::{copy_kind, NodeId};

verus! {

/// What cloning node `id` into `d` gives: the grown document and the id of
/// the copy. The copy is a fresh unlinked node of the same kind; a deep
/// copy also gets copies of the children, each cloned deeply in turn and
/// linked under the copy, in order. `fuel` bounds the depth walked.
pub open spec fn cloned(d: DocV, id: int, deep: bool, fuel: nat) -> (DocV, NodeId)
    decreases fuel, 0int, 0int,
{
    if d.nodes.len() >= u32::MAX {
        (d, 0)
    } else {
        let new = d.nodes.len() as NodeId;
        let d1 = d.with_nodes(d.nodes.push(fresh_node(new, d.nodes[id].kind)));
        if deep && fuel > 0 {
            (clone_children(d1, new, d.nodes[id].children, d.nodes[id].children.len() as int, (fuel - 1) as nat), new)
        } else {
            (d1, new)
        }
    }
}

/// The document after cloning the first `k` of `cs` deeply and linking each
/// copy under `new`.
pub open spec fn clone_children(d: DocV, new: NodeId, cs: Seq<NodeId>, k: int, fuel: nat) -> DocV
    decreases fuel, 1int, k,
{
    if k <= 0 || k > cs.len() {
        d
    } else {
        let dk = clone_children(d, new, cs, k - 1, fuel);
        if dk.nodes.len() >= u32::MAX {
            dk
        } else {
            let c = cloned(dk, cs[k - 1] as int, true, fuel);
            c.0.with_nodes(link_child(c.0.nodes, new as int, c.1 as int))
        }
    }
}

/// Whether `d2` keeps the first `n` nodes of `d` as they are and has at
/// least as many nodes.
pub open spec fn keeps(d: DocV, d2: DocV, n: int) -> bool {
    &&& d2.nodes.len() >= d.nodes.len()
    &&& forall|x: int| 0 <= x < n ==> #[trigger] d2.nodes[x] == d.nodes[x]
    &&& d2.root_id == d.root_id
    &&& d2.prolog_id == d.prolog_id
    &&& d2.declaration_id == d.declaration_id
    &&& d2.dtd_id == d.dtd_id
}

/// Cloning only adds nodes after the existing ones; the copy is the first
/// node added (while the arena has room).
proof fn lemma_cloned_keeps(d: DocV, id: int, deep: bool, fuel: nat)
    requires
        d.nodes.len() > 0,
    ensures
        keeps(d, cloned(d, id, deep, fuel).0, d.nodes.len() as int),
        d.nodes.len() < u32::MAX ==> cloned(d, id, deep, fuel).0.nodes.len() > d.nodes.len(),
        d.nodes.len() < u32::MAX ==> cloned(d, id, deep, fuel).1 == d.nodes.len(),
        cloned(d, id, deep, fuel).1 < cloned(d, id, deep, fuel).0.nodes.len(),
        d.nodes.len() <= u32::MAX ==> cloned(d, id, deep, fuel).0.nodes.len() <= u32::MAX,
    decreases fuel, 0int, 0int,
{
    if d.nodes.len() < u32::MAX {
        let new = d.nodes.len() as NodeId;
        let d1 = d.with_nodes(d.nodes.push(fresh_node(new, d.nodes[id].kind)));
        assert(d1.nodes.len() == d.nodes.len() + 1);
        assert forall|x: int| 0 <= x < d.nodes.len() implies #[trigger] d1.nodes[x] == d.nodes[x] by {}
        if deep && fuel > 0 {
            let cs = d.nodes[id].children;
            lemma_children_keep(d1, new, cs, cs.len() as int, (fuel - 1) as nat);
            let r = clone_children(d1, new, cs, cs.len() as int, (fuel - 1) as nat);
            assert forall|x: int| 0 <= x < d.nodes.len() implies #[trigger] r.nodes[x] == d.nodes[x] by {
                assert(r.nodes[x] == d1.nodes[x]);
            }
        }
    }
}

/// Cloning children only adds nodes after the existing ones, and changes no
/// node below `new`.
proof fn lemma_children_keep(d: DocV, new: NodeId, cs: Seq<NodeId>, k: int, fuel: nat)
    requires
        new < d.nodes.len(),
        d.nodes.len() <= u32::MAX,
    ensures
        keeps(d, clone_children(d, new, cs, k, fuel), new as int),
        clone_children(d, new, cs, k, fuel).nodes.len() <= u32::MAX,
        clone_children(d, new, cs, k, fuel).nodes[new as int].parent == d.nodes[new as int].parent,
        clone_children(d, new, cs, k, fuel).nodes[new as int].kind == d.nodes[new as int].kind,
        k <= cs.len() ==> forall|j: int|
            0 <= j <= k ==> #[trigger] clone_children(d, new, cs, j, fuel).nodes.len() <= clone_children(
                d,
                new,
                cs,
                k,
                fuel,
            ).nodes.len(),
    decreases fuel, 1int, k,
{
    if k <= 0 || k > cs.len() {
    } else {
        lemma_children_keep(d, new, cs, k - 1, fuel);
        let dk = clone_children(d, new, cs, k - 1, fuel);
        if dk.nodes.len() < u32::MAX {
            lemma_cloned_keeps(dk, cs[k - 1] as int, true, fuel);
            let cc = cloned(dk, cs[k - 1] as int, true, fuel);
            let res = clone_children(d, new, cs, k, fuel);
            assert(res == cc.0.with_nodes(link_child(cc.0.nodes, new as int, cc.1 as int)));
            assert(res.nodes.len() == cc.0.nodes.len());
            assert forall|x: int| 0 <= x < new implies #[trigger] res.nodes[x] == d.nodes[x] by {
                assert(cc.0.nodes[x] == dk.nodes[x]);
                assert(dk.nodes[x] == d.nodes[x]);
            }
            assert(cc.0.nodes[new as int] == dk.nodes[new as int]);
            assert forall|j: int|
                0 <= j <= k implies #[trigger] clone_children(d, new, cs, j, fuel).nodes.len() <= res.nodes.len() by {
                if j < k {
                    assert(clone_children(d, new, cs, j, fuel).nodes.len() <= dk.nodes.len());
                }
            }
        }
    }
}

/// Whether a subtree is bounded depends only on the nodes in it.
proof fn lemma_bounded_frame(d: DocV, d2: DocV, id: int, f: nat)
    requires
        d.wf(),
        d.bounded(id, f),
        keeps(d, d2, d.nodes.len() as int),
    ensures
        d2.bounded(id, f),
    decreases f,
{
    assert(d2.nodes[id] == d.nodes[id]);
    if f > 0 {
        assert forall|j: int| 0 <= j < d2.nodes[id].children.len() implies d2.bounded(
            #[trigger] d2.nodes[id].children[j] as int,
            (f - 1) as nat,
        ) by {
            lemma_bounded_frame(d, d2, d.nodes[id].children[j] as int, (f - 1) as nat);
        }
    }
}

/// A clone is a fresh node of the same kind without a parent, and cloning
/// changes none of the nodes that were there before.
pub proof fn law_clone_unlinked(d: DocV, id: int, deep: bool, fuel: nat)
    requires
        d.wf(),
        d.valid(id),
        cloned(d, id, deep, fuel).0.nodes.len() < u32::MAX,
    ensures
        cloned(d, id, deep, fuel).1 == d.nodes.len(),
        cloned(d, id, deep, fuel).0.nodes[d.nodes.len() as int].kind == d.nodes[id].kind,
        cloned(d, id, deep, fuel).0.nodes[d.nodes.len() as int].parent is None,
        forall|x: int| 0 <= x < d.nodes.len() ==> #[trigger] cloned(d, id, deep, fuel).0.nodes[x] == d.nodes[x],
{
    lemma_cloned_keeps(d, id, deep, fuel);
    let new = d.nodes.len() as NodeId;
    let d1 = d.with_nodes(d.nodes.push(fresh_node(new, d.nodes[id].kind)));
    if deep && fuel > 0 {
        let cs = d.nodes[id].children;
        lemma_children_keep(d1, new, cs, cs.len() as int, (fuel - 1) as nat);
    }
}

impl Document {
    /// Clones `node_id` (deeply when `deep`) into fresh nodes, within `fuel` levels.
    fn clone_rec(&mut self, node_id: NodeId, deep: bool, Ghost(fuel): Ghost<nat>) -> (r: NodeId)
        requires
            old(self).wf(),
            old(self)@.bounded(node_id as int, fuel),
            cloned(old(self)@, node_id as int, deep, fuel).0.nodes.len() < u32::MAX,
        ensures
            final(self).wf(),
            final(self)@ == cloned(old(self)@, node_id as int, deep, fuel).0,
            r == cloned(old(self)@, node_id as int, deep, fuel).1,
        decreases fuel,
    {
        let ghost d = self@;
        proof {
            lemma_cloned_keeps(d, node_id as int, deep, fuel);
        }
        let kind = copy_kind(&self.get_node(node_id).unwrap().kind);
        let new_id = self.add_node(kind);
        let ghost d1 = self@;
        assert(d1 == d.with_nodes(d.nodes.push(fresh_node(new_id, d.nodes[node_id as int].kind))));
        if deep {
            let children = self.get_children(node_id);
            let ghost cs = children@;
            assert(cs == d.nodes[node_id as int].children);
            let ghost f1: nat = if fuel > 0 { (fuel - 1) as nat } else { 0 };
            proof {
                if fuel == 0 {
                    assert(cs.len() == 0);
                }
                lemma_children_keep(d1, new_id, cs, cs.len() as int, f1);
            }
            let mut k: usize = 0;
            while k < children.len()
                invariant
                    cs.len() == 0 || fuel > 0,
                    fuel > 0 ==> f1 == fuel - 1,
                    d.wf(),
                    d.bounded(node_id as int, fuel),
                    cs == children@,
                    cs == d.nodes[node_id as int].children,
                    new_id == d.nodes.len(),
                    d1.nodes.len() == d.nodes.len() + 1,
                    new_id < d1.nodes.len(),
                    d1.nodes.len() <= u32::MAX,
                    keeps(d, d1, d.nodes.len() as int),
                    k <= cs.len(),
                    self.wf(),
                    self@ == clone_children(d1, new_id, cs, k as int, f1),
                    clone_children(d1, new_id, cs, cs.len() as int, f1).nodes.len() < u32::MAX,
                    forall|j: int|
                        0 <= j <= cs.len() ==> #[trigger] clone_children(d1, new_id, cs, j, f1).nodes.len()
                            <= clone_children(d1, new_id, cs, cs.len() as int, f1).nodes.len(),
                decreases cs.len() - k,
            {
                let c = children[k];
                let ghost dk = self@;
                proof {
                    lemma_children_keep(d1, new_id, cs, k as int, f1);
                    assert(d.bounded(c as int, f1));
                    assert forall|x: int| 0 <= x < d.nodes.len() implies #[trigger] dk.nodes[x] == d.nodes[x] by {
                        assert(dk.nodes[x] == d1.nodes[x]);
                    }
                    lemma_bounded_frame(d, dk, c as int, f1);
                    assert(clone_children(d1, new_id, cs, k + 1, f1).nodes.len() <= clone_children(
                        d1,
                        new_id,
                        cs,
                        cs.len() as int,
                        f1,
                    ).nodes.len());
                    assert(dk.nodes.len() < u32::MAX);
                    lemma_cloned_keeps(dk, c as int, true, f1);
                }
                let cc = self.clone_rec(c, true, Ghost(f1));
                proof {
                    law_clone_unlinked(dk, c as int, true, f1);
                }
                let ok = self.append_child(new_id, cc);
                assert(ok is Ok);
                k = k + 1;
            }
        }
        new_id
    }

    /// Clones a node into a fresh unlinked node of the same kind, and, when
    /// `deep`, its whole subtree, each copy linked under the copy of its
    /// parent in order. An unknown id is a node error.
    pub fn clone_node(&mut self, node_id: NodeId, deep: bool) -> (r: Result<NodeId, XmlError>)
        requires
            old(self).wf(),
            old(self)@.valid(node_id as int) ==> old(self)@.acyclic_below(node_id as int) && cloned(
                old(self)@,
                node_id as int,
                deep,
                old(self)@.nodes.len(),
            ).0.nodes.len() < u32::MAX,
        ensures
            final(self).wf(),
            !old(self)@.valid(node_id as int) ==> (r matches Err(e) && e is NodeError && final(self)@ == old(self)@),
            old(self)@.valid(node_id as int) ==> r == Ok::<NodeId, XmlError>(
                cloned(old(self)@, node_id as int, deep, old(self)@.nodes.len()).1,
            ) && final(self)@ == cloned(old(self)@, node_id as int, deep, old(self)@.nodes.len()).0,
    {
        if self.get_node(node_id).is_none() {
            return Err(XmlError::NodeError("Invalid Node ID".to_string()));
        }
        let ghost n = self@.nodes.len();
        let r = self.clone_rec(node_id, deep, Ghost(n));
        Ok(r)
    }
}

} // verus!
