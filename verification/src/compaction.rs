//! What compacting the arena keeps: the nodes reachable from the root and
//! prolog containers, renumbered in their old order, with every link
//! renumbered and links to dropped nodes removed.

use vstd::prelude::*;
use crate::document::DocV;
use crate::node::{NodeId, NodeV};

verus! {

/// Whether `path` leads by child links from the root or prolog container
/// through nodes of the arena.
pub open spec fn is_path(d: DocV, path: Seq<int>) -> bool {
    &&& path.len() > 0
    &&& (d.root_id == Some(path[0] as NodeId) || d.prolog_id == Some(path[0] as NodeId))
    &&& forall|j: int| 0 <= j < path.len() ==> d.valid(#[trigger] path[j])
    &&& forall|j: int| 0 < j < path.len() ==> d.nodes[path[j - 1]].children.contains(#[trigger] path[j] as NodeId)
}

/// Whether node `i` is reached from the root or prolog container by child links.
pub open spec fn reachable(d: DocV, i: int) -> bool {
    exists|path: Seq<int>| #[trigger] is_path(d, path) && path.last() == i
}

/// Which nodes are reachable.
pub open spec fn live(d: DocV) -> Seq<bool> {
    Seq::new(d.nodes.len(), |i: int| reachable(d, i))
}

/// How many entries hold.
pub open spec fn count_true(m: Seq<bool>) -> nat
    decreases m.len(),
{
    if m.len() == 0 {
        0
    } else {
        count_true(m.drop_last()) + if m.last() {
            1nat
        } else {
            0nat
        }
    }
}

/// How many entries do not hold.
pub open spec fn count_false(m: Seq<bool>) -> nat
    decreases m.len(),
{
    if m.len() == 0 {
        0
    } else {
        count_false(m.drop_last()) + if m.last() {
            0nat
        } else {
            1nat
        }
    }
}

/// The indices that hold, in order.
pub open spec fn kept(m: Seq<bool>) -> Seq<int>
    decreases m.len(),
{
    if m.len() == 0 {
        Seq::empty()
    } else {
        kept(m.drop_last()) + if m.last() {
            seq![m.len() - 1]
        } else {
            Seq::empty()
        }
    }
}

/// The new number of old node `x`: how many kept nodes come before it;
/// none for a dropped node.
pub open spec fn remap(m: Seq<bool>, x: NodeId) -> Option<NodeId> {
    if (x as int) < m.len() && m[x as int] {
        Some(count_true(m.take(x as int)) as NodeId)
    } else {
        None
    }
}

/// An optional link renumbered.
pub open spec fn remap_opt(m: Seq<bool>, o: Option<NodeId>) -> Option<NodeId> {
    match o {
        Some(x) => remap(m, x),
        None => None,
    }
}

/// A list of links renumbered, links to dropped nodes removed.
pub open spec fn remap_list(m: Seq<bool>, cs: Seq<NodeId>) -> Seq<NodeId>
    decreases cs.len(),
{
    if cs.len() == 0 {
        Seq::empty()
    } else {
        remap_list(m, cs.drop_last()) + match remap(m, cs.last()) {
            Some(y) => seq![y],
            None => Seq::empty(),
        }
    }
}

/// Node `n`, which becomes number `j`, with its links renumbered.
pub open spec fn moved(m: Seq<bool>, n: NodeV, j: int) -> NodeV {
    NodeV { id: j as NodeId, parent: remap_opt(m, n.parent), children: remap_list(m, n.children), kind: n.kind }
}

/// The document that compaction leaves.
pub open spec fn compacted(d: DocV) -> DocV {
    let m = live(d);
    let ks = kept(m);
    DocV {
        nodes: Seq::new(ks.len(), |j: int| moved(m, d.nodes[ks[j]], j)),
        root_id: remap_opt(m, d.root_id),
        prolog_id: remap_opt(m, d.prolog_id),
        declaration_id: remap_opt(m, d.declaration_id),
        dtd_id: remap_opt(m, d.dtd_id),
    }
}

/// Setting an entry that did not hold leaves one fewer that does not.
pub proof fn lemma_count_false_set(m: Seq<bool>, i: int)
    requires
        0 <= i < m.len(),
        !m[i],
    ensures
        count_false(m.update(i, true)) + 1 == count_false(m),
    decreases m.len(),
{
    let u = m.update(i, true);
    if i < m.len() - 1 {
        assert(u.drop_last() =~= m.drop_last().update(i, true));
        lemma_count_false_set(m.drop_last(), i);
    } else {
        assert(u.drop_last() =~= m.drop_last());
    }
}

/// The kept indices are as many as the entries that hold; each holds and
/// has as its rank its position among them.
pub proof fn lemma_kept(m: Seq<bool>)
    ensures
        kept(m).len() == count_true(m),
        forall|j: int| 0 <= j < kept(m).len() ==> 0 <= #[trigger] kept(m)[j] < m.len() && m[kept(m)[j]] && count_true(
            m.take(kept(m)[j]),
        ) == j,
        count_true(m) <= m.len(),
    decreases m.len(),
{
    if m.len() > 0 {
        let p = m.drop_last();
        lemma_kept(p);
        assert forall|j: int| 0 <= j < kept(m).len() implies 0 <= #[trigger] kept(m)[j] < m.len() && m[kept(m)[j]]
            && count_true(m.take(kept(m)[j])) == j by {
            if j < kept(p).len() {
                let x = kept(p)[j];
                assert(kept(m)[j] == x);
                assert(m.take(x) =~= p.take(x));
            } else {
                assert(kept(m)[j] == m.len() - 1);
                assert(m.take(m.len() - 1) =~= p);
            }
        }
    }
}

/// The rank of an entry that holds is below the number that hold.
pub proof fn lemma_rank_below(m: Seq<bool>, x: int)
    requires
        0 <= x < m.len(),
        m[x],
    ensures
        count_true(m.take(x)) < count_true(m),
    decreases m.len(),
{
    if x < m.len() - 1 {
        assert(m.drop_last().take(x) =~= m.take(x));
        lemma_rank_below(m.drop_last(), x);
    } else {
        assert(m.take(x) =~= m.drop_last());
    }
}

/// Renumbered links stay below the number of kept nodes.
pub proof fn lemma_remap_list_below(m: Seq<bool>, cs: Seq<NodeId>)
    ensures
        forall|j: int| 0 <= j < remap_list(m, cs).len() ==> (#[trigger] remap_list(m, cs)[j] as int) < count_true(m),
    decreases cs.len(),
{
    if cs.len() > 0 {
        lemma_remap_list_below(m, cs.drop_last());
        let x = cs.last();
        let a = remap_list(m, cs.drop_last());
        if (x as int) < m.len() && m[x as int] {
            lemma_rank_below(m, x as int);
            lemma_kept(m);
            assert(remap_list(m, cs) == a + seq![count_true(m.take(x as int)) as NodeId]);
            assert forall|j: int| 0 <= j < remap_list(m, cs).len() implies (#[trigger] remap_list(m, cs)[j] as int)
                < count_true(m) by {
                if j < a.len() {
                    assert(remap_list(m, cs)[j] == a[j]);
                }
            }
        } else {
            assert(remap_list(m, cs) =~= a);
        }
    }
}

/// The children of a reachable node are reachable.
pub proof fn lemma_child_reachable(d: DocV, p: int, c: NodeId)
    requires
        d.wf(),
        reachable(d, p),
        0 <= p < d.nodes.len(),
        d.nodes[p].children.contains(c),
    ensures
        reachable(d, c as int),
{
    let path = choose|path: Seq<int>| #[trigger] is_path(d, path) && path.last() == p;
    let j = choose|j: int| 0 <= j < d.nodes[p].children.len() && d.nodes[p].children[j] == c;
    assert(d.nodes[p].children[j] < d.nodes.len());
    let q = path.push(c as int);
    assert(q[q.len() - 2] == p);
    assert(is_path(d, q));
}

/// A container that is a node is reachable.
pub proof fn lemma_container_reachable(d: DocV, r: NodeId)
    requires
        d.valid(r as int),
        d.root_id == Some(r) || d.prolog_id == Some(r),
    ensures
        reachable(d, r as int),
{
    let q = seq![r as int];
    assert(is_path(d, q));
}

/// Whether every child of a marked node is marked.
pub open spec fn closed_under_children(d: DocV, m: Seq<bool>) -> bool {
    forall|x: int, c: int|
        0 <= x < d.nodes.len() && 0 <= c < d.nodes[x].children.len() && #[trigger] m[x] ==> m[
            #[trigger] d.nodes[x].children[c] as int]
}

/// Whether the root and prolog containers, where they are nodes, are marked.
pub open spec fn roots_marked(d: DocV, m: Seq<bool>) -> bool {
    &&& (d.root_id matches Some(r) ==> d.valid(r as int) ==> m[r as int])
    &&& (d.prolog_id matches Some(p) ==> d.valid(p as int) ==> m[p as int])
}

/// A marking that holds the containers and is closed under children holds
/// the end of every path.
pub proof fn lemma_path_marked(d: DocV, m: Seq<bool>, path: Seq<int>)
    requires
        d.wf(),
        m.len() == d.nodes.len(),
        closed_under_children(d, m),
        roots_marked(d, m),
        is_path(d, path),
    ensures
        m[path.last()],
    decreases path.len(),
{
    if path.len() == 1 {
        assert(d.valid(path[0]));
    } else {
        let q = path.drop_last();
        assert(is_path(d, q)) by {
            assert forall|j: int| 0 < j < q.len() implies d.nodes[q[j - 1]].children.contains(#[trigger] q[j] as NodeId) by {
                assert(q[j] == path[j]);
            }
        }
        lemma_path_marked(d, m, q);
        let x = q.last();
        assert(d.valid(path[path.len() - 2]));
        assert(d.nodes[x].children.contains(path[path.len() - 1] as NodeId));
        let c = choose|c: int| 0 <= c < d.nodes[x].children.len() && d.nodes[x].children[c] == path[path.len() - 1] as NodeId;
        assert(m[d.nodes[x].children[c] as int]);
        assert(d.valid(path[path.len() - 1]));
    }
}

/// A marking that holds the containers and is closed under children holds
/// every reachable node.
pub proof fn lemma_reachable_marked(d: DocV, m: Seq<bool>, i: int)
    requires
        d.wf(),
        m.len() == d.nodes.len(),
        closed_under_children(d, m),
        roots_marked(d, m),
        reachable(d, i),
    ensures
        m[i],
{
    let path = choose|path: Seq<int>| #[trigger] is_path(d, path) && path.last() == i;
    lemma_path_marked(d, m, path);
}

/// Where every entry holds, each index is its own rank.
proof fn lemma_all_kept(m: Seq<bool>)
    requires
        forall|i: int| 0 <= i < m.len() ==> #[trigger] m[i],
    ensures
        kept(m).len() == m.len(),
        forall|j: int| 0 <= j < m.len() ==> #[trigger] kept(m)[j] == j,
        forall|x: int| 0 <= x <= m.len() ==> #[trigger] count_true(m.take(x)) == x,
    decreases m.len(),
{
    if m.len() > 0 {
        let p = m.drop_last();
        lemma_all_kept(p);
        assert forall|j: int| 0 <= j < m.len() implies #[trigger] kept(m)[j] == j by {
            if j < p.len() {
                assert(kept(m)[j] == kept(p)[j]);
            }
        }
        assert forall|x: int| 0 <= x <= m.len() implies #[trigger] count_true(m.take(x)) == x by {
            if x < m.len() {
                assert(m.take(x) =~= p.take(x));
            } else {
                assert(m.take(x) =~= m);
                assert(count_true(p.take(p.len() as int)) == p.len());
                assert(p.take(p.len() as int) =~= p);
                assert(count_true(m) == count_true(p) + 1);
            }
        }
    }
}

/// Where every entry holds, links to entries are kept as they are.
proof fn lemma_all_remap_list(m: Seq<bool>, cs: Seq<NodeId>)
    requires
        forall|i: int| 0 <= i < m.len() ==> #[trigger] m[i],
        forall|x: int| 0 <= x <= m.len() ==> #[trigger] count_true(m.take(x)) == x,
        forall|j: int| 0 <= j < cs.len() ==> (#[trigger] cs[j] as int) < m.len(),
    ensures
        remap_list(m, cs) == cs,
    decreases cs.len(),
{
    if cs.len() > 0 {
        lemma_all_remap_list(m, cs.drop_last());
        let x = cs.last();
        assert(cs[cs.len() - 1] == x);
        assert(count_true(m.take(x as int)) == x);
        assert(remap(m, x) == Some(x));
        assert(remap_list(m, cs) =~= cs);
    }
}

/// Compacting an arena whose every node is reachable from the root or
/// prolog container, and whose named nodes exist, changes nothing.
pub proof fn law_compact_all_reachable(d: DocV)
    requires
        d.wf(),
        d.root_id matches Some(x) ==> d.valid(x as int),
        d.prolog_id matches Some(x) ==> d.valid(x as int),
        d.declaration_id matches Some(x) ==> d.valid(x as int),
        d.dtd_id matches Some(x) ==> d.valid(x as int),
        forall|i: int| 0 <= i < d.nodes.len() ==> #[trigger] reachable(d, i),
    ensures
        compacted(d) == d,
{
    let m = live(d);
    assert forall|i: int| 0 <= i < m.len() implies #[trigger] m[i] by {
        assert(reachable(d, i));
    }
    lemma_all_kept(m);
    let c = compacted(d);
    assert forall|j: int| 0 <= j < d.nodes.len() implies #[trigger] c.nodes[j] == d.nodes[j] by {
        let n = d.nodes[j];
        assert(kept(m)[j] == j);
        assert forall|k: int| 0 <= k < n.children.len() implies (#[trigger] n.children[k] as int) < m.len() by {
            assert(d.nodes[j].children[k] < d.nodes.len());
        }
        lemma_all_remap_list(m, n.children);
        if let Some(p) = n.parent {
            assert(count_true(m.take(p as int)) == p);
        }
        assert(d.nodes[j].id == j);
    }
    assert(c.nodes =~= d.nodes);
    if let Some(r) = d.root_id {
        if (r as int) < m.len() {
            assert(count_true(m.take(r as int)) == r);
        }
    }
    if let Some(r) = d.prolog_id {
        if (r as int) < m.len() {
            assert(count_true(m.take(r as int)) == r);
        }
    }
    if let Some(r) = d.declaration_id {
        if (r as int) < m.len() {
            assert(count_true(m.take(r as int)) == r);
        }
    }
    if let Some(r) = d.dtd_id {
        if (r as int) < m.len() {
            assert(count_true(m.take(r as int)) == r);
        }
    }
}

} // verus!
