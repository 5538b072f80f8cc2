//! Shape of a document tree: children after their parents, element nesting
//! depth, and attribute lists without repeated names.

use vstd::prelude::*;
use crate::document::{fresh_node, link_child, with_parent, with_children, DocV};
use crate::node::{AttrV, KindV, NodeId, NodeV};

verus! {

/// No two attributes share a name.
pub open spec fn distinct_names(attrs: Seq<AttrV>) -> bool {
    forall|a: int, b: int| 0 <= a < b < attrs.len() ==> #[trigger] attrs[a].name != #[trigger] attrs[b].name
}

impl DocV {
    /// Every child has a larger id than its parent and links back to it, and
    /// every parent link points to a smaller id.
    pub open spec fn ordered(self) -> bool {
        &&& forall|i: int, j: int|
            0 <= i < self.nodes.len() && 0 <= j < self.nodes[i].children.len() ==> i
                < #[trigger] self.nodes[i].children[j] && self.nodes[self.nodes[i].children[j] as int].parent
                == Some(i as NodeId)
        &&& forall|i: int|
            0 <= i < self.nodes.len() ==> (#[trigger] self.nodes[i].parent matches Some(p) ==> p < i)
    }

    /// The number of elements among the ancestors of node `i`.
    pub open spec fn element_depth(self, i: int) -> nat
        decreases i,
    {
        if 0 <= i < self.nodes.len() {
            match self.nodes[i].parent {
                Some(p) => if p < i {
                    (if self.is_element(p as int) { 1nat } else { 0nat }) + self.element_depth(p as int)
                } else {
                    0
                },
                None => 0,
            }
        } else {
            0
        }
    }

    /// No element has more than `max` element ancestors.
    pub open spec fn depth_within(self, max: nat) -> bool {
        forall|i: int| 0 <= i < self.nodes.len() && #[trigger] self.is_element(i) ==> self.element_depth(i) <= max
    }

    /// Every element has at most `max` attributes, with pairwise different names.
    pub open spec fn attributes_within(self, max: nat) -> bool {
        forall|i: int|
            0 <= i < self.nodes.len() ==> (#[trigger] self.nodes[i].kind matches KindV::Element { attributes, .. }
                ==> distinct_names(attributes) && attributes.len() <= max)
    }

    /// The tree-shape facts a parsed document has.
    pub open spec fn parsed_shape(self, max_depth: nat, max_attrs: nat) -> bool {
        &&& self.wf()
        &&& self.ordered()
        &&& self.depth_within(max_depth)
        &&& self.attributes_within(max_attrs)
    }
}

/// In an ordered arena, the subtree below `id` ends within `len - id` levels.
pub proof fn lemma_ordered_bounded(d: DocV, id: int)
    requires
        d.wf(),
        d.ordered(),
        0 <= id < d.nodes.len(),
    ensures
        d.bounded(id, (d.nodes.len() - id) as nat),
    decreases d.nodes.len() - id,
{
    let f = (d.nodes.len() - id) as nat;
    assert forall|j: int| 0 <= j < d.nodes[id].children.len() implies d.bounded(
        #[trigger] d.nodes[id].children[j] as int,
        (f - 1) as nat,
    ) by {
        let c = d.nodes[id].children[j] as int;
        lemma_ordered_bounded(d, c);
        crate::document::lemma_bounded_mono(d, c, (d.nodes.len() - c) as nat, (f - 1) as nat);
    }
}

/// In an ordered arena no cycle of child links is reachable.
pub proof fn lemma_ordered_acyclic(d: DocV, id: int)
    requires
        d.wf(),
        d.ordered(),
        0 <= id < d.nodes.len(),
    ensures
        d.acyclic_below(id),
{
    lemma_ordered_bounded(d, id);
    crate::document::lemma_bounded_mono(d, id, (d.nodes.len() - id) as nat, d.nodes.len());
}

/// In an ordered arena the chain of parent links from `id` ends within any
/// fuel above `id`.
pub proof fn lemma_ordered_parents(d: DocV, id: int, f: nat)
    requires
        d.wf(),
        d.ordered(),
        0 <= id < d.nodes.len(),
        f > id,
    ensures
        d.parents_bounded(id, f),
    decreases id,
{
    if let Some(p) = d.nodes[id].parent {
        lemma_ordered_parents(d, p as int, (f - 1) as nat);
    }
}

/// In an ordered arena no chain of parent links has a cycle.
pub proof fn lemma_ordered_ancestors(d: DocV)
    requires
        d.wf(),
        d.ordered(),
    ensures
        d.all_ancestors_finite(),
{
    assert forall|i: int| 0 <= i < d.nodes.len() implies #[trigger] d.ancestors_finite(i) by {
        lemma_ordered_parents(d, i, d.nodes.len());
    }
}

/// Element depth only depends on parents and kinds up to the node.
pub proof fn lemma_depth_frame(d1: DocV, d2: DocV, i: int)
    requires
        0 <= i < d1.nodes.len(),
        i < d2.nodes.len(),
        forall|k: int| 0 <= k <= i ==> #[trigger] d2.nodes[k].parent == d1.nodes[k].parent && d2.nodes[k].kind
            == d1.nodes[k].kind,
    ensures
        d2.element_depth(i) == d1.element_depth(i),
    decreases i,
{
    if let Some(p) = d1.nodes[i].parent {
        if p < i {
            assert(d2.nodes[p as int].parent == d1.nodes[p as int].parent);
            assert(d2.nodes[p as int].kind == d1.nodes[p as int].kind);
            lemma_depth_frame(d1, d2, p as int);
        }
    }
}

/// Appending a fresh node keeps every shape fact that holds of its kind.
pub proof fn lemma_push_shape(d: DocV, k: KindV, max_depth: nat, max_attrs: nat)
    requires
        d.parsed_shape(max_depth, max_attrs),
        d.nodes.len() < u32::MAX,
        k matches KindV::Element { attributes, .. } ==> distinct_names(attributes) && attributes.len() <= max_attrs,
    ensures
        d.with_nodes(d.nodes.push(fresh_node(d.nodes.len() as NodeId, k))).parsed_shape(max_depth, max_attrs),
        d.with_nodes(d.nodes.push(fresh_node(d.nodes.len() as NodeId, k))).element_depth(d.nodes.len() as int) == 0,
        forall|i: int| 0 <= i < d.nodes.len() ==> #[trigger] d.with_nodes(d.nodes.push(fresh_node(d.nodes.len() as NodeId, k))).element_depth(i)
            == d.element_depth(i),
{
    let n = d.nodes.len();
    let d2 = d.with_nodes(d.nodes.push(fresh_node(n as NodeId, k)));
    assert forall|i: int| 0 <= i < n implies d2.element_depth(i) == d.element_depth(i) by {
        assert forall|q: int| 0 <= q <= i implies #[trigger] d2.nodes[q].parent == d.nodes[q].parent && d2.nodes[q].kind
            == d.nodes[q].kind by {}
        lemma_depth_frame(d, d2, i);
    }
    assert forall|i: int| 0 <= i < d2.nodes.len() && #[trigger] d2.is_element(i) implies d2.element_depth(i) <= max_depth by {
        if i < n {
            assert(d.is_element(i));
        }
    }
}

/// Linking the newest node `c`, which has no parent yet, under an older node
/// `p` keeps the shape, leaves older nodes at their depth, and puts `c` one
/// level below `p` when `p` is an element.
pub proof fn lemma_link_shape(d: DocV, p: int, c: int, max_depth: nat, max_attrs: nat)
    requires
        d.parsed_shape(max_depth, max_attrs),
        0 <= p < c,
        c == d.nodes.len() - 1,
        d.nodes[c].parent is None,
        d.nodes[c].children.len() == 0,
        d.is_element(c) ==> (if d.is_element(p) { 1nat } else { 0nat }) + d.element_depth(p) <= max_depth,
    ensures
        d.with_nodes(link_child(d.nodes, p, c)).parsed_shape(max_depth, max_attrs),
        d.with_nodes(link_child(d.nodes, p, c)).element_depth(c) == (if d.is_element(p) { 1nat } else { 0nat })
            + d.element_depth(p),
        forall|i: int| 0 <= i < c ==> #[trigger] d.with_nodes(link_child(d.nodes, p, c)).element_depth(i)
            == d.element_depth(i),
{
    let d2 = d.with_nodes(link_child(d.nodes, p, c));
    let n1 = d.nodes.update(c, with_parent(d.nodes[c], Some(p as NodeId)));
    assert(!n1[p].children.contains(c as NodeId)) by {
        if n1[p].children.contains(c as NodeId) {
            let j = choose|j: int| 0 <= j < n1[p].children.len() && n1[p].children[j] == c as NodeId;
            assert(d.nodes[p].children[j] == c);
            assert(d.nodes[c].parent == Some(p as NodeId));
        }
    }
    assert(d2.nodes == n1.update(p, with_children(n1[p], n1[p].children.push(c as NodeId))));
    assert forall|i: int| 0 <= i < c implies #[trigger] d2.element_depth(i) == d.element_depth(i) by {
        assert forall|q: int| 0 <= q <= i implies #[trigger] d2.nodes[q].parent == d.nodes[q].parent && d2.nodes[q].kind
            == d.nodes[q].kind by {}
        lemma_depth_frame(d, d2, i);
    }
    assert(d2.nodes[p].kind == d.nodes[p].kind);
    assert(d2.is_element(p) == d.is_element(p));
    assert(d2.nodes[c].parent == Some(p as NodeId));
    assert(d2.element_depth(p) == d.element_depth(p));
    assert(d2.element_depth(c) == (if d.is_element(p) { 1nat } else { 0nat }) + d.element_depth(p));
    assert forall|i: int, j: int|
        0 <= i < d2.nodes.len() && 0 <= j < d2.nodes[i].children.len() implies i
            < #[trigger] d2.nodes[i].children[j] && d2.nodes[d2.nodes[i].children[j] as int].parent == Some(i as NodeId) by {
        if i == p && j == d.nodes[p].children.len() {
        } else {
            assert(d2.nodes[i].children[j] == d.nodes[i].children[j]);
        }
    }
    assert forall|i: int| 0 <= i < d2.nodes.len() && #[trigger] d2.is_element(i) implies d2.element_depth(i) <= max_depth by {
        if i < c {
            assert(d.is_element(i));
        }
    }
    assert forall|i: int| 0 <= i < d2.nodes.len() implies (#[trigger] d2.nodes[i].kind matches KindV::Element { attributes, .. }
        ==> distinct_names(attributes) && attributes.len() <= max_attrs) by {
        assert(d2.nodes[i].kind == d.nodes[i].kind);
    }
}

/// In an ordered arena a node has at most as many element ancestors as its id.
pub proof fn lemma_depth_le(d: DocV, i: int)
    requires
        d.ordered(),
        0 <= i < d.nodes.len(),
    ensures
        d.element_depth(i) <= i,
    decreases i,
{
    if let Some(p) = d.nodes[i].parent {
        lemma_depth_le(d, p as int);
    }
}

/// The shape facts only depend on the nodes.
pub proof fn lemma_shape_same_nodes(d1: DocV, d2: DocV, max_depth: nat, max_attrs: nat)
    requires
        d1.nodes == d2.nodes,
        d1.parsed_shape(max_depth, max_attrs),
    ensures
        d2.parsed_shape(max_depth, max_attrs),
        forall|i: int| 0 <= i < d1.nodes.len() ==> #[trigger] d2.element_depth(i) == d1.element_depth(i),
{
    assert forall|i: int| 0 <= i < d1.nodes.len() implies #[trigger] d2.element_depth(i) == d1.element_depth(i) by {
        lemma_depth_frame(d1, d2, i);
    }
    assert forall|i: int| 0 <= i < d2.nodes.len() && #[trigger] d2.is_element(i) implies d2.element_depth(i) <= max_depth by {
        assert(d1.is_element(i));
    }
}

} // verus!
