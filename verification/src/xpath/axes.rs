//! The nodes an XPath step selects: the candidates of an axis from a
//! context node, in axis order, filtered by a node test.

use vstd::prelude::*;
use crate::document::{DocV, Document};
use crate::node::{KindV, NodeId, NodeKind};
use crate::seqs::find_first;
use crate::xpath::ast::{Axis, NodeTest};

verus! {

/// The descendants of `id` in document order (each child, then its
/// descendants), within `fuel` levels.
pub open spec fn descendants(d: DocV, id: int, fuel: nat) -> Seq<NodeId>
    decreases fuel, 1int, 0int,
{
    if !d.valid(id) || fuel == 0 {
        Seq::empty()
    } else {
        descendants_of_children(d, d.nodes[id].children, d.nodes[id].children.len() as int, (fuel - 1) as nat)
    }
}

/// The first `k` of `cs`, each followed by its descendants.
pub open spec fn descendants_of_children(d: DocV, cs: Seq<NodeId>, k: int, fuel: nat) -> Seq<NodeId>
    decreases fuel, 2int, k,
{
    if k <= 0 || k > cs.len() {
        Seq::empty()
    } else {
        descendants_of_children(d, cs, k - 1, fuel) + seq![cs[k - 1]] + descendants(d, cs[k - 1] as int, fuel)
    }
}

/// The ancestors of `id`, nearest first, within `fuel` steps.
pub open spec fn ancestors(d: DocV, id: int, fuel: nat) -> Seq<NodeId>
    decreases fuel,
{
    match d.parent_of(id) {
        Some(p) => if fuel == 0 {
            seq![p]
        } else {
            seq![p] + ancestors(d, p as int, (fuel - 1) as nat)
        },
        None => Seq::empty(),
    }
}

/// The ids `lo`, `lo + 1`, ..., `hi - 1`.
pub open spec fn id_range(lo: int, hi: int) -> Seq<NodeId>
    decreases hi - lo,
{
    if lo >= hi {
        Seq::empty()
    } else {
        id_range(lo, hi - 1).push((hi - 1) as NodeId)
    }
}

/// The ids `hi - 1`, `hi - 2`, ..., `lo`.
pub open spec fn down_from(hi: int, lo: int) -> Seq<NodeId>
    decreases hi - lo,
{
    if lo >= hi {
        Seq::empty()
    } else {
        down_from(hi, lo + 1).push(lo as NodeId)
    }
}

/// The siblings of `id` after it (`after`) or before it, from its parent's
/// child list; none when it has no parent listing it.
pub open spec fn siblings(d: DocV, id: int, after: bool) -> Seq<NodeId> {
    match d.parent_of(id) {
        Some(p) => if d.valid(p as int) {
            match find_first(d.nodes[p as int].children, id as NodeId) {
                Some(pos) => if after {
                    d.nodes[p as int].children.skip(pos + 1)
                } else {
                    d.nodes[p as int].children.take(pos)
                },
                None => Seq::empty(),
            }
        } else {
            Seq::empty()
        },
        None => Seq::empty(),
    }
}

/// The candidates of an axis from context node `id`, in axis order. The
/// attribute and namespace axes, whose nodes the arena does not hold, take
/// the descendants.
pub open spec fn axis_candidates(d: DocV, axis: Axis, id: NodeId) -> Seq<NodeId> {
    let f = d.nodes.len();
    match axis {
        Axis::Root => seq![
            match d.root_id {
                Some(r) => r,
                None => 0,
            },
        ],
        Axis::Child => d.children_of(id as int),
        Axis::SelfAxis => seq![id],
        Axis::Parent => match d.parent_of(id as int) {
            Some(p) => seq![p],
            None => Seq::empty(),
        },
        Axis::Descendant => descendants(d, id as int, f),
        Axis::DescendantOrSelf => seq![id] + descendants(d, id as int, f),
        Axis::Ancestor => ancestors(d, id as int, f),
        Axis::AncestorOrSelf => seq![id] + ancestors(d, id as int, f),
        Axis::FollowingSibling => siblings(d, id as int, true),
        Axis::PrecedingSibling => siblings(d, id as int, false),
        Axis::Following => id_range(id + 1, d.nodes.len() as int),
        Axis::Preceding => down_from(id as int, 0),
        _ => descendants(d, id as int, f),
    }
}

/// Whether node `id` passes a node test.
pub open spec fn passes(d: DocV, id: int, test: NodeTest) -> bool {
    d.valid(id) && match test {
        NodeTest::Wildcard => d.nodes[id].kind is Element,
        NodeTest::Node => true,
        NodeTest::Text => d.nodes[id].kind is Text,
        NodeTest::Comment => d.nodes[id].kind is Comment,
        NodeTest::Name(n) => match d.nodes[id].kind {
            KindV::Element { name, .. } => name == n@,
            KindV::ProcessingInstruction { target, .. } => target == n@,
            KindV::DocTypeDefinition { name, .. } => name == n@,
            _ => false,
        },
        NodeTest::AttributeWildcard => true,
    }
}

/// The ids among `cs` that pass the test, in order.
pub open spec fn passing(d: DocV, cs: Seq<NodeId>, test: NodeTest) -> Seq<NodeId>
    decreases cs.len(),
{
    if cs.len() == 0 {
        Seq::empty()
    } else {
        passing(d, cs.drop_last(), test) + if passes(d, cs.last() as int, test) {
            seq![cs.last()]
        } else {
            Seq::empty()
        }
    }
}

/// What a step selects from context node `id`.
pub open spec fn step_nodes(d: DocV, axis: Axis, test: NodeTest, id: NodeId) -> Seq<NodeId> {
    passing(d, axis_candidates(d, axis, id), test)
}

/// Filtering two lists one after the other filters their concatenation.
proof fn lemma_passing_concat(d: DocV, a: Seq<NodeId>, b: Seq<NodeId>, test: NodeTest)
    ensures
        passing(d, a + b, test) == passing(d, a, test) + passing(d, b, test),
    decreases b.len(),
{
    if b.len() == 0 {
        assert(a + b =~= a);
        assert(passing(d, b, test) =~= Seq::<NodeId>::empty());
        assert(passing(d, a, test) + passing(d, b, test) =~= passing(d, a, test));
    } else {
        lemma_passing_concat(d, a, b.drop_last(), test);
        assert((a + b).drop_last() =~= a + b.drop_last());
        assert((a + b).last() == b.last());
        assert(passing(d, a + b, test) =~= passing(d, a, test) + passing(d, b, test));
    }
}

/// The descendant-or-self axis is the context node followed by the
/// descendant axis: a step on it selects the context node when it passes
/// the test, then what the same step on the descendant axis selects; so
/// `descendant-or-self::node()` selects the context node first.
pub proof fn law_descendant_or_self(d: DocV, id: NodeId, test: NodeTest)
    ensures
        axis_candidates(d, Axis::DescendantOrSelf, id) == seq![id] + axis_candidates(d, Axis::Descendant, id),
        step_nodes(d, Axis::DescendantOrSelf, test, id) == (if passes(d, id as int, test) {
            seq![id]
        } else {
            Seq::<NodeId>::empty()
        }) + step_nodes(d, Axis::Descendant, test, id),
        d.valid(id as int) ==> step_nodes(d, Axis::DescendantOrSelf, NodeTest::Node, id)[0] == id,
{
    let ds = axis_candidates(d, Axis::Descendant, id);
    lemma_passing_concat(d, seq![id], ds, test);
    lemma_passing_concat(d, seq![id], ds, NodeTest::Node);
    let one = seq![id];
    assert(one.drop_last() =~= Seq::<NodeId>::empty());
    assert(one.last() == id);
    assert(passing(d, one.drop_last(), test) =~= Seq::<NodeId>::empty());
    assert(passing(d, one.drop_last(), NodeTest::Node) =~= Seq::<NodeId>::empty());
    assert(passing(d, seq![id], test) =~= (if passes(d, id as int, test) {
        seq![id]
    } else {
        Seq::<NodeId>::empty()
    }));
    assert(passing(d, seq![id], NodeTest::Node) =~= (if passes(d, id as int, NodeTest::Node) {
        seq![id]
    } else {
        Seq::<NodeId>::empty()
    }));
}

/// Each of the first `k` ids is among them and their descendants.
proof fn lemma_children_listed(d: DocV, cs: Seq<NodeId>, k: int, fuel: nat)
    requires
        0 <= k <= cs.len(),
    ensures
        forall|j: int| 0 <= j < k ==> descendants_of_children(d, cs, k, fuel).contains(#[trigger] cs[j]),
        k > 0 ==> descendants_of_children(d, cs, k, fuel)[0] == cs[0],
    decreases k,
{
    if k > 0 {
        lemma_children_listed(d, cs, k - 1, fuel);
        let prev = descendants_of_children(d, cs, k - 1, fuel);
        let all = descendants_of_children(d, cs, k, fuel);
        assert(all == prev + seq![cs[k - 1]] + descendants(d, cs[k - 1] as int, fuel));
        assert forall|j: int| 0 <= j < k implies all.contains(#[trigger] cs[j]) by {
            if j < k - 1 {
                let w = choose|w: int| 0 <= w < prev.len() && prev[w] == cs[j];
                assert(all[w] == cs[j]);
            } else {
                assert(all[prev.len() as int] == cs[j]);
            }
        }
        if k == 1 {
            assert(prev.len() == 0);
        }
    }
}

/// Every child of a node is one of its descendants, and the first child
/// comes first on the descendant axis.
pub proof fn law_children_are_descendants(d: DocV, id: NodeId)
    requires
        d.valid(id as int),
    ensures
        forall|j: int|
            0 <= j < d.children_of(id as int).len() ==> axis_candidates(d, Axis::Descendant, id).contains(
                #[trigger] d.children_of(id as int)[j],
            ),
        d.children_of(id as int).len() > 0 ==> axis_candidates(d, Axis::Descendant, id)[0] == d.children_of(
            id as int,
        )[0],
{
    let cs = d.nodes[id as int].children;
    lemma_children_listed(d, cs, cs.len() as int, (d.nodes.len() - 1) as nat);
}

/// The ancestor-or-self axis is the context node followed by the ancestor
/// axis: a step on it selects the context node when it passes the test,
/// then what the same step on the ancestor axis selects.
pub proof fn law_ancestor_or_self(d: DocV, id: NodeId, test: NodeTest)
    ensures
        axis_candidates(d, Axis::AncestorOrSelf, id) == seq![id] + axis_candidates(d, Axis::Ancestor, id),
        step_nodes(d, Axis::AncestorOrSelf, test, id) == (if passes(d, id as int, test) {
            seq![id]
        } else {
            Seq::<NodeId>::empty()
        }) + step_nodes(d, Axis::Ancestor, test, id),
{
    let an = axis_candidates(d, Axis::Ancestor, id);
    lemma_passing_concat(d, seq![id], an, test);
    let one = seq![id];
    assert(one.drop_last() =~= Seq::<NodeId>::empty());
    assert(one.last() == id);
    assert(passing(d, one.drop_last(), test) =~= Seq::<NodeId>::empty());
    assert(passing(d, seq![id], test) =~= (if passes(d, id as int, test) {
        seq![id]
    } else {
        Seq::<NodeId>::empty()
    }));
}

/// Whether a node passes a node test.
pub fn matches_node_test(doc: &Document, node_id: NodeId, test: &NodeTest) -> (r: bool)
    ensures
        r == passes(doc@, node_id as int, *test),
{
    let node = match doc.get_node(node_id) {
        Some(n) => n,
        None => {
            return false;
        },
    };
    match test {
        NodeTest::Wildcard => node.kind.is_element(),
        NodeTest::Node => true,
        NodeTest::Text => node.kind.is_text(),
        NodeTest::Comment => node.kind.is_comment(),
        NodeTest::Name(target_name) => match &node.kind {
            NodeKind::Element { name, .. } => crate::text::str_eq(name.as_str(), target_name.as_str()),
            NodeKind::ProcessingInstruction { target, .. } => crate::text::str_eq(target.as_str(), target_name.as_str()),
            NodeKind::DocTypeDefinition { name, .. } => crate::text::str_eq(name.as_str(), target_name.as_str()),
            _ => false,
        },
        NodeTest::AttributeWildcard => true,
    }
}

/// Appends `node_id` (when `include_self`) and its descendants, in
/// document order, to `out`.
fn collect_descendants(doc: &Document, node_id: NodeId, out: &mut Vec<NodeId>, include_self: bool, Ghost(fuel): Ghost<nat>)
    requires
        doc.wf(),
        doc@.valid(node_id as int) ==> doc@.bounded(node_id as int, fuel),
    ensures
        final(out)@ == old(out)@ + (if include_self {
            seq![node_id]
        } else {
            Seq::empty()
        }) + descendants(doc@, node_id as int, fuel),
    decreases fuel,
{
    let ghost d = doc@;
    let ghost o0 = out@;
    if include_self {
        out.push(node_id);
    }
    let ghost o1 = out@;
    assert(o1 == o0 + (if include_self {
        seq![node_id]
    } else {
        Seq::empty()
    }));
    match doc.get_node(node_id) {
        Some(node) => {
            let ghost cs = node.children@;
            let ghost f1: nat = if fuel > 0 { (fuel - 1) as nat } else { 0 };
            proof {
                if fuel == 0 {
                    assert(cs.len() == 0);
                }
            }
            let mut k: usize = 0;
            assert(out@ =~= o1 + descendants_of_children(d, cs, 0, f1));
            while k < node.children.len()
                invariant
                    d == doc@,
                    doc.wf(),
                    cs == node.children@,
                    cs == d.nodes[node_id as int].children,
                    d.valid(node_id as int),
                    d.bounded(node_id as int, fuel),
                    cs.len() == 0 || fuel > 0,
                    fuel > 0 ==> f1 == fuel - 1,
                    k <= cs.len(),
                    out@ == o1 + descendants_of_children(d, cs, k as int, f1),
                decreases cs.len() - k,
            {
                let c = node.children[k];
                assert(d.bounded(c as int, f1));
                let ghost before = out@;
                collect_descendants(doc, c, out, true, Ghost(f1));
                assert(out@ =~= o1 + descendants_of_children(d, cs, k + 1, f1));
                k = k + 1;
            }
            proof {
                if fuel > 0 {
                    assert(descendants(d, node_id as int, fuel) == descendants_of_children(d, cs, cs.len() as int, f1));
                } else {
                    assert(descendants_of_children(d, cs, 0, f1) =~= Seq::<NodeId>::empty());
                }
            }
            assert(out@ =~= o1 + descendants(d, node_id as int, fuel));
        },
        None => {
            assert(out@ =~= o1 + descendants(d, node_id as int, fuel));
        },
    }
}

/// The ancestors of `node_id`, nearest first.
fn collect_ancestors(doc: &Document, node_id: NodeId, out: &mut Vec<NodeId>)
    requires
        doc.wf(),
        doc@.ancestors_finite(node_id as int),
    ensures
        final(out)@ == old(out)@ + ancestors(doc@, node_id as int, doc@.nodes.len()),
{
    let ghost d = doc@;
    let ghost o0 = out@;
    let ghost mut f: nat = d.nodes.len();
    let mut curr = node_id;
    assert(out@ + ancestors(d, curr as int, f) =~= o0 + ancestors(d, node_id as int, d.nodes.len()));
    loop
        invariant
            d == doc@,
            d.parents_bounded(curr as int, f),
            out@ + ancestors(d, curr as int, f) == o0 + ancestors(d, node_id as int, d.nodes.len()),
        ensures
            out@ == o0 + ancestors(d, node_id as int, d.nodes.len()),
        decreases f,
    {
        match doc.parent_id(curr) {
            Some(p) => {
                assert(f > 0);
                let ghost before = out@;
                out.push(p);
                assert(ancestors(d, curr as int, f) == seq![p] + ancestors(d, p as int, (f - 1) as nat));
                assert(out@ + ancestors(d, p as int, (f - 1) as nat) =~= before + ancestors(d, curr as int, f));
                curr = p;
                proof {
                    f = (f - 1) as nat;
                }
            },
            None => {
                assert(out@ =~= out@ + ancestors(d, curr as int, f));
                break;
            },
        }
    }
}

/// The siblings of `node_id` after it (`after`) or before it.
fn sibling_ids(doc: &Document, node_id: NodeId, after: bool) -> (r: Vec<NodeId>)
    ensures
        r@ == siblings(doc@, node_id as int, after),
{
    let ghost d = doc@;
    if let Some(parent_id) = doc.parent_id(node_id) {
        if let Some(parent) = doc.get_node(parent_id) {
            let cs = &parent.children;
            if let Some(pos) = crate::seqs::position_of(cs, node_id) {
                let mut out: Vec<NodeId> = Vec::new();
                let len = cs.len();
                let (lo, hi) = if after {
                    (pos + 1, len)
                } else {
                    (0, pos)
                };
                let mut i = lo;
                while i < hi
                    invariant
                        lo <= i <= hi <= cs@.len(),
                        out@ == cs@.subrange(lo as int, i as int),
                    decreases hi - i,
                {
                    out.push(cs[i]);
                    assert(out@ =~= cs@.subrange(lo as int, i + 1));
                    i = i + 1;
                }
                assert(cs@.subrange(pos + 1, cs@.len() as int) =~= cs@.skip(pos + 1));
                assert(cs@.subrange(0, pos as int) =~= cs@.take(pos as int));
                return out;
            }
        }
    }
    Vec::new()
}

/// What a step selects from context node `context_node`: the candidates of
/// the axis, in axis order, that pass the node test.
pub fn evaluate_axis(doc: &Document, axis: &Axis, test: &NodeTest, context_node: NodeId) -> (r: Vec<NodeId>)
    requires
        doc.wf(),
        doc@.valid(context_node as int) ==> doc@.acyclic_below(context_node as int),
        doc@.ancestors_finite(context_node as int),
        *axis == Axis::Following ==> context_node < u32::MAX,
    ensures
        r@ == step_nodes(doc@, *axis, *test, context_node),
{
    let ghost d = doc@;
    let ghost f = d.nodes.len();
    let mut candidates: Vec<NodeId> = Vec::new();
    match axis {
        Axis::Root => {
            candidates.push(
                match doc.root_id() {
                    Some(r) => r,
                    None => 0,
                },
            );
        },
        Axis::Child => {
            candidates = doc.get_children(context_node);
        },
        Axis::SelfAxis => {
            candidates.push(context_node);
        },
        Axis::Parent => {
            if let Some(p) = doc.parent_id(context_node) {
                candidates.push(p);
            }
        },
        Axis::Descendant => {
            collect_descendants(doc, context_node, &mut candidates, false, Ghost(f));
        },
        Axis::DescendantOrSelf => {
            collect_descendants(doc, context_node, &mut candidates, true, Ghost(f));
        },
        Axis::Ancestor => {
            collect_ancestors(doc, context_node, &mut candidates);
        },
        Axis::AncestorOrSelf => {
            candidates.push(context_node);
            collect_ancestors(doc, context_node, &mut candidates);
        },
        Axis::FollowingSibling => {
            candidates = sibling_ids(doc, context_node, true);
        },
        Axis::PrecedingSibling => {
            candidates = sibling_ids(doc, context_node, false);
        },
        Axis::Following => {
            let n = doc.len() as NodeId;
            let mut id = context_node + 1;
            assert(candidates@ =~= id_range(context_node + 1, id as int));
            while id < n
                invariant
                    id == context_node + 1 || id <= n,
                    n == d.nodes.len(),
                    id >= context_node + 1,
                    candidates@ == id_range(context_node + 1, id as int),
                decreases n - id,
            {
                candidates.push(id);
                id = id + 1;
            }
        },
        Axis::Preceding => {
            let mut id = context_node;
            assert(candidates@ =~= down_from(context_node as int, id as int));
            while id > 0
                invariant
                    id <= context_node,
                    candidates@ == down_from(context_node as int, id as int),
                decreases id,
            {
                id = id - 1;
                candidates.push(id);
            }
        },
        _ => {
            collect_descendants(doc, context_node, &mut candidates, false, Ghost(f));
        },
    }
    assert(candidates@ =~= axis_candidates(d, *axis, context_node));
    let ghost cand = candidates@;
    let mut out: Vec<NodeId> = Vec::new();
    let mut i: usize = 0;
    assert(cand.take(0) =~= Seq::<NodeId>::empty());
    while i < candidates.len()
        invariant
            d == doc@,
            cand == candidates@,
            i <= cand.len(),
            out@ == passing(d, cand.take(i as int), *test),
        decreases cand.len() - i,
    {
        let c = candidates[i];
        assert(cand.take(i + 1).drop_last() =~= cand.take(i as int));
        assert(cand.take(i + 1).last() == c);
        let ghost before = out@;
        if matches_node_test(doc, c, test) {
            out.push(c);
            assert(out@ =~= before + seq![c]);
        } else {
            assert(out@ =~= before + Seq::<NodeId>::empty());
        }
        i = i + 1;
    }
    assert(cand.take(cand.len() as int) =~= cand);
    out
}

/// The string value of node `id`: the text of a text or CDATA node, the
/// string values of the children of an element or container, concatenated;
/// nothing for other nodes. `fuel` bounds the depth walked.
pub open spec fn string_value(d: DocV, id: int, fuel: nat) -> Seq<char>
    decreases fuel, 1int, 0int,
{
    if !d.valid(id) {
        Seq::empty()
    } else {
        match d.nodes[id].kind {
            KindV::Text(t) => t,
            KindV::CData(t) => t,
            KindV::Element { .. } | KindV::Root | KindV::Prolog => if fuel == 0 {
                Seq::empty()
            } else {
                children_value(d, d.nodes[id].children, d.nodes[id].children.len() as int, (fuel - 1) as nat)
            },
            _ => Seq::empty(),
        }
    }
}

/// The string values of the first `k` of `cs`, concatenated.
pub open spec fn children_value(d: DocV, cs: Seq<NodeId>, k: int, fuel: nat) -> Seq<char>
    decreases fuel, 2int, k,
{
    if k <= 0 || k > cs.len() {
        Seq::empty()
    } else {
        children_value(d, cs, k - 1, fuel) + string_value(d, cs[k - 1] as int, fuel)
    }
}

/// The string value of a node.
pub fn get_node_text(doc: &Document, node_id: NodeId) -> (r: String)
    requires
        doc.wf(),
        doc@.valid(node_id as int) ==> doc@.acyclic_below(node_id as int),
    ensures
        r@ == string_value(doc@, node_id as int, doc@.nodes.len()),
{
    node_text_rec(doc, node_id, Ghost(doc@.nodes.len()))
}

/// The string value of a node, within `fuel` levels.
fn node_text_rec(doc: &Document, node_id: NodeId, Ghost(fuel): Ghost<nat>) -> (r: String)
    requires
        doc.wf(),
        doc@.valid(node_id as int) ==> doc@.bounded(node_id as int, fuel),
    ensures
        r@ == string_value(doc@, node_id as int, fuel),
    decreases fuel,
{
    let ghost d = doc@;
    let mut text = String::new();
    if let Some(node) = doc.get_node(node_id) {
        match &node.kind {
            NodeKind::Text(t) => {
                crate::text::push_str(&mut text, t.as_str());
            },
            NodeKind::CData(t) => {
                crate::text::push_str(&mut text, t.as_str());
            },
            NodeKind::Element { .. } | NodeKind::Root | NodeKind::Prolog => {
                let ghost cs = node.children@;
                let ghost f1: nat = if fuel > 0 { (fuel - 1) as nat } else { 0 };
                proof {
                    if fuel == 0 {
                        assert(cs.len() == 0);
                    }
                }
                let mut k: usize = 0;
                assert(text@ =~= children_value(d, cs, 0, f1));
                while k < node.children.len()
                    invariant
                        d == doc@,
                        doc.wf(),
                        cs == node.children@,
                        cs == d.nodes[node_id as int].children,
                        d.bounded(node_id as int, fuel),
                        cs.len() == 0 || fuel > 0,
                        fuel > 0 ==> f1 == fuel - 1,
                        k <= cs.len(),
                        text@ == children_value(d, cs, k as int, f1),
                    decreases cs.len() - k,
                {
                    let c = node.children[k];
                    assert(d.bounded(c as int, f1));
                    let sub = node_text_rec(doc, c, Ghost(f1));
                    crate::text::push_str(&mut text, sub.as_str());
                    k = k + 1;
                }
                proof {
                    if fuel == 0 {
                        assert(children_value(d, cs, 0, f1) =~= Seq::<char>::empty());
                    }
                }
            },
            _ => {},
        }
    }
    text
}

/// What a step on the attribute axis gives: the value of a named
/// attribute, or nodes.
#[derive(Debug, Clone, PartialEq, Eq)]
pub enum AttributeStep {
    /// The value of the attribute that the step names.
    Value(String),
    /// The nodes selected: the context element itself for `@*` when it has
    /// attributes, else none.
    Nodes(Vec<NodeId>),
}

/// What a step on the attribute axis with test `test` gives at `ctx`: the
/// value of the attribute that a name test names (no nodes when `ctx` has
/// no such attribute); for `*` and `@*`, `ctx` itself when it is an element
/// with attributes; no nodes for any other test.
pub open spec fn attribute_step_of(d: DocV, ctx: int, test: NodeTest) -> (Option<Seq<char>>, Seq<NodeId>) {
    match test {
        NodeTest::Name(n) => match d.attribute(ctx, n@) {
            Some(v) => (Some(v), Seq::empty()),
            None => (None, Seq::empty()),
        },
        NodeTest::Wildcard | NodeTest::AttributeWildcard => if d.valid(ctx) && (
        d.nodes[ctx].kind matches KindV::Element { attributes, .. } && attributes.len() > 0) {
            (None, seq![ctx as NodeId])
        } else {
            (None, Seq::empty())
        },
        _ => (None, Seq::empty()),
    }
}

/// Evaluates a step on the attribute axis at `ctx`.
pub fn attribute_step(doc: &Document, ctx: NodeId, test: &NodeTest) -> (r: AttributeStep)
    ensures
        match r {
            AttributeStep::Value(v) => attribute_step_of(doc@, ctx as int, *test) == (Some(v@), Seq::<NodeId>::empty()),
            AttributeStep::Nodes(ns) => attribute_step_of(doc@, ctx as int, *test) == (None::<Seq<char>>, ns@),
        },
{
    match test {
        NodeTest::Name(attr_name) => {
            if let Some(val) = doc.get_attribute(ctx, attr_name.as_str()) {
                return AttributeStep::Value(val.to_owned());
            }
        },
        NodeTest::Wildcard | NodeTest::AttributeWildcard => {
            if let Some(node) = doc.get_node(ctx) {
                if let NodeKind::Element { attributes, .. } = &node.kind {
                    if attributes.len() > 0 {
                        let v = vec![ctx];
                        assert(v@ =~= seq![ctx]);
                        return AttributeStep::Nodes(v);
                    }
                }
            }
        },
        _ => {},
    }
    let v: Vec<NodeId> = Vec::new();
    assert(v@ =~= Seq::<NodeId>::empty());
    AttributeStep::Nodes(v)
}

} // verus!
