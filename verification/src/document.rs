//! The document: an arena of nodes addressed by compact node ids.

use vstd::prelude::*;
use crate::error::XmlError;
use crate::node::{NodeData, NodeId, NodeKind, NodeV, KindV};
use crate::seqs::{find_first, position_of};
use crate::text::{str_chars, string_from_chars};
use crate::compaction::{
    closed_under_children, count_false, lemma_child_reachable, lemma_container_reachable, lemma_count_false_set,
    lemma_reachable_marked, live, reachable, roots_marked, count_true, kept, remap, remap_list, compacted, moved,
};

verus! {

/// An XML document stored as a flat arena of nodes.
#[derive(Debug)]
pub struct Document {
    nodes: Vec<NodeData>,
    root_id: Option<NodeId>,
    prolog_id: Option<NodeId>,
    declaration_id: Option<NodeId>,
    dtd_id: Option<NodeId>,
}

/// The abstract content of a document.
pub struct DocV {
    pub nodes: Seq<NodeV>,
    pub root_id: Option<NodeId>,
    pub prolog_id: Option<NodeId>,
    pub declaration_id: Option<NodeId>,
    pub dtd_id: Option<NodeId>,
}

/// The views of a sequence of node records.
pub open spec fn nodes_view(nodes: Seq<NodeData>) -> Seq<NodeV> {
    nodes.map_values(|n: NodeData| n@)
}

impl View for Document {
    type V = DocV;

    closed spec fn view(&self) -> DocV {
        DocV {
            nodes: nodes_view(self.nodes@),
            root_id: self.root_id,
            prolog_id: self.prolog_id,
            declaration_id: self.declaration_id,
            dtd_id: self.dtd_id,
        }
    }
}

/// Updating a record and taking views commute.
pub proof fn lemma_nodes_view_update(s: Seq<NodeData>, i: int)
    requires
        0 <= i < s.len(),
    ensures
        forall|n: NodeData| #[trigger] nodes_view(s.update(i, n)) == nodes_view(s).update(i, n@),
{
    assert forall|n: NodeData| #[trigger] nodes_view(s.update(i, n)) == nodes_view(s).update(i, n@) by {
        assert(nodes_view(s.update(i, n)) =~= nodes_view(s).update(i, n@));
    }
}

/// The characters of `xmlns:`.
pub open spec fn xmlns_colon() -> Seq<char> {
    seq!['x', 'm', 'l', 'n', 's', ':']
}

/// The prefix that a namespace declaration among `attributes` binds to the
/// URI `uc`.
fn prefix_in_attributes(attributes: &Vec<crate::node::Attribute>, uc: &Vec<char>, xc: &Vec<char>, xc5: &Vec<char>) -> (r: Option<String>)
    requires
        xc@ == xmlns_colon(),
        xc5@ == xmlns_colon().take(5),
    ensures
        (match r {
            Some(p) => Some(p@),
            None => None,
        }) == DocV::prefix_in_attrs(crate::node::attrs_view(attributes@), uc@, 0),
{
    let ghost av = crate::node::attrs_view(attributes@);
    let mut i: usize = 0;
    while i < attributes.len()
        invariant
            i <= attributes@.len(),
            av == crate::node::attrs_view(attributes@),
            xc@ == xmlns_colon(),
            xc5@ == xmlns_colon().take(5),
            DocV::prefix_in_attrs(av, uc@, 0) == DocV::prefix_in_attrs(av, uc@, i as int),
        decreases attributes@.len() - i,
    {
        let vc = str_chars(attributes[i].value.as_str());
        if crate::text::chars_eq(&vc, uc) {
            let nc = str_chars(attributes[i].name.as_str());
            if crate::text::starts_with_chars(&nc, xc) {
                return Some(crate::text::string_from_range(&nc, 6, nc.len()));
            }
            if crate::text::chars_eq(&nc, xc5) {
                return Some(String::new());
            }
        }
        i = i + 1;
    }
    None
}

/// The nodes after clearing the parent link of every node listed in `cs`.
pub open spec fn orphaned(nodes: Seq<NodeV>, cs: Seq<NodeId>) -> Seq<NodeV> {
    Seq::new(
        nodes.len(),
        |i: int|
            if cs.contains(i as NodeId) {
                with_parent(nodes[i], None)
            } else {
                nodes[i]
            },
    )
}

/// The nodes after replacing the children of element `id` with one new text
/// node holding `text`.
pub open spec fn with_text_child(nodes: Seq<NodeV>, id: int, text: Seq<char>) -> Seq<NodeV> {
    let n1 = orphaned(nodes, nodes[id].children);
    let n2 = n1.update(id, with_children(n1[id], Seq::empty()));
    let n3 = n2.push(fresh_node(nodes.len() as NodeId, KindV::Text(text)));
    link_child(n3, id, nodes.len() as int)
}

/// A node record with another parent link.
pub open spec fn with_parent(n: NodeV, p: Option<NodeId>) -> NodeV {
    NodeV { id: n.id, parent: p, children: n.children, kind: n.kind }
}

/// A node record with another child list.
pub open spec fn with_children(n: NodeV, c: Seq<NodeId>) -> NodeV {
    NodeV { id: n.id, parent: n.parent, children: c, kind: n.kind }
}

/// A node record with another kind.
pub open spec fn with_kind(n: NodeV, k: KindV) -> NodeV {
    NodeV { id: n.id, parent: n.parent, children: n.children, kind: k }
}

/// A fresh, unlinked node record.
pub open spec fn fresh_node(id: NodeId, k: KindV) -> NodeV {
    NodeV { id: id, parent: None, children: Seq::empty(), kind: k }
}

/// The nodes after linking `c` under `p`: `c` points to `p`, and `c` is
/// appended to the children of `p` unless already listed there.
pub open spec fn link_child(nodes: Seq<NodeV>, p: int, c: int) -> Seq<NodeV> {
    let n1 = nodes.update(c, with_parent(nodes[c], Some(p as NodeId)));
    if n1[p].children.contains(c as NodeId) {
        n1
    } else {
        n1.update(p, with_children(n1[p], n1[p].children.push(c as NodeId)))
    }
}

/// The nodes after moving `c` under `p`: `c` first leaves the child list of
/// the parent it points to (when that parent lists it), then is linked as
/// the last child of `p`.
pub open spec fn moved_child(nodes: Seq<NodeV>, p: int, c: int) -> Seq<NodeV> {
    match detached(nodes, c) {
        Some(n) => link_child(n, p, c),
        None => link_child(nodes, p, c),
    }
}

/// The nodes after unlinking the child at position `pos` of `p`, which is `c`.
pub open spec fn unlink_child(nodes: Seq<NodeV>, p: int, c: int, pos: int) -> Seq<NodeV> {
    let n1 = nodes.update(p, with_children(nodes[p], nodes[p].children.remove(pos)));
    n1.update(c, with_parent(n1[c], None))
}

/// The nodes after detaching `n` from the parent it points to, as
/// `remove_child` does; `None` when that parent does not list `n`.
pub open spec fn detached(nodes: Seq<NodeV>, n: int) -> Option<Seq<NodeV>> {
    match nodes[n].parent {
        None => Some(nodes),
        Some(op) => if 0 <= op < nodes.len() && nodes[op as int].children.contains(n as NodeId) {
            Some(unlink_child(nodes, op as int, n, find_first(nodes[op as int].children, n as NodeId)->0))
        } else {
            None
        },
    }
}

/// The document after setting one attribute on an element.
pub open spec fn with_attribute_set(d: DocV, id: NodeId, name: Seq<char>, value: Seq<char>) -> DocV {
    d.with_nodes(
        d.nodes.update(
            id as int,
            with_kind(
                d.nodes[id as int],
                KindV::Element {
                    name: d.nodes[id as int].kind->Element_name,
                    attributes: crate::node::attrs_set(d.nodes[id as int].kind->Element_attributes, name, value),
                },
            ),
        ),
    )
}

/// The document after removing the first attribute of a name from an element.
pub open spec fn with_attribute_removed(d: DocV, id: NodeId, name: Seq<char>) -> DocV {
    d.with_nodes(
        d.nodes.update(
            id as int,
            with_kind(
                d.nodes[id as int],
                KindV::Element {
                    name: d.nodes[id as int].kind->Element_name,
                    attributes: crate::node::attrs_remove(d.nodes[id as int].kind->Element_attributes, name),
                },
            ),
        ),
    )
}

/// The nodes after inserting `n` at position `pos` among the children of `p`.
pub open spec fn insert_child_at(nodes: Seq<NodeV>, p: int, n: int, pos: int) -> Seq<NodeV> {
    let n1 = nodes.update(p, with_children(nodes[p], nodes[p].children.insert(pos, n as NodeId)));
    n1.update(n, with_parent(n1[n], Some(p as NodeId)))
}

/// The nodes after putting `n` in place of the child of `p` at position `pos`,
/// which is `o`.
pub open spec fn replace_child_at(nodes: Seq<NodeV>, p: int, n: int, o: int, pos: int) -> Seq<NodeV> {
    let n1 = nodes.update(p, with_children(nodes[p], nodes[p].children.update(pos, n as NodeId)));
    let n2 = n1.update(o, with_parent(n1[o], None));
    n2.update(n, with_parent(n2[n], Some(p as NodeId)))
}

impl DocV {
    /// The number of nodes.
    pub open spec fn len(self) -> nat {
        self.nodes.len()
    }

    /// Whether `id` addresses a node.
    pub open spec fn valid(self, id: int) -> bool {
        0 <= id < self.nodes.len()
    }

    /// The arena is well formed: it fits the id type, each node carries its
    /// own index, and every parent and child link addresses a node.
    pub open spec fn wf(self) -> bool {
        &&& self.nodes.len() <= u32::MAX
        &&& forall|i: int| 0 <= i < self.nodes.len() ==> #[trigger] self.nodes[i].id == i
        &&& forall|i: int, j: int|
            0 <= i < self.nodes.len() && 0 <= j < self.nodes[i].children.len() ==> #[trigger] self.nodes[i].children[j]
                < self.nodes.len()
        &&& forall|i: int|
            0 <= i < self.nodes.len() ==> (#[trigger] self.nodes[i].parent matches Some(p) ==> p
                < self.nodes.len())
    }

    /// The subtree below `id` is finite within `fuel` levels: following
    /// child links from `id` never leaves the arena and ends within `fuel` steps.
    pub open spec fn bounded(self, id: int, fuel: nat) -> bool
        decreases fuel,
    {
        &&& self.valid(id)
        &&& if fuel == 0 {
            self.nodes[id].children.len() == 0
        } else {
            forall|j: int|
                0 <= j < self.nodes[id].children.len() ==> self.bounded(
                    #[trigger] self.nodes[id].children[j] as int,
                    (fuel - 1) as nat,
                )
        }
    }

    /// No cycle of child links is reachable from `id`.
    pub open spec fn acyclic_below(self, id: int) -> bool {
        self.bounded(id, self.nodes.len())
    }

    /// The chain of parent links from `id` ends within `fuel` steps.
    pub open spec fn parents_bounded(self, id: int, fuel: nat) -> bool
        decreases fuel,
    {
        if !self.valid(id) {
            true
        } else {
            match self.nodes[id].parent {
                None => true,
                Some(p) => fuel > 0 && self.parents_bounded(p as int, (fuel - 1) as nat),
            }
        }
    }

    /// No chain of parent links has a cycle.
    pub open spec fn all_ancestors_finite(self) -> bool {
        forall|i: int| 0 <= i < self.nodes.len() ==> #[trigger] self.ancestors_finite(i)
    }

    /// The chain of parent links from `id` has no cycle.
    pub open spec fn ancestors_finite(self, id: int) -> bool {
        self.parents_bounded(id, self.nodes.len())
    }

    /// The parent of `id`, when it addresses a node.
    pub open spec fn parent_of(self, id: int) -> Option<NodeId> {
        if self.valid(id) {
            self.nodes[id].parent
        } else {
            None
        }
    }

    /// The children of `id`, or none when it addresses no node.
    pub open spec fn children_of(self, id: int) -> Seq<NodeId> {
        if self.valid(id) {
            self.nodes[id].children
        } else {
            Seq::empty()
        }
    }

    /// The value of attribute `name` on node `id`.
    pub open spec fn attribute(self, id: int, name: Seq<char>) -> Option<Seq<char>> {
        if self.valid(id) {
            self.nodes[id].kind.attribute(name)
        } else {
            None
        }
    }

    /// Whether `id` addresses an element.
    pub open spec fn is_element(self, id: int) -> bool {
        self.valid(id) && self.nodes[id].kind is Element
    }

    /// The sibling after `id` in the child list of its parent.
    pub open spec fn next_sibling(self, id: int) -> Option<NodeId> {
        match self.parent_of(id) {
            None => None,
            Some(p) => if !self.valid(p as int) {
                None
            } else {
                match find_first(self.nodes[p as int].children, id as NodeId) {
                    None => None,
                    Some(pos) => if pos + 1 < self.nodes[p as int].children.len() {
                        Some(self.nodes[p as int].children[pos + 1])
                    } else {
                        None
                    },
                }
            },
        }
    }

    /// The sibling before `id` in the child list of its parent.
    pub open spec fn previous_sibling(self, id: int) -> Option<NodeId> {
        match self.parent_of(id) {
            None => None,
            Some(p) => if !self.valid(p as int) {
                None
            } else {
                match find_first(self.nodes[p as int].children, id as NodeId) {
                    None => None,
                    Some(pos) => if pos > 0 {
                        Some(self.nodes[p as int].children[pos - 1])
                    } else {
                        None
                    },
                }
            },
        }
    }

    /// The first id at or after position `i` of `cs` that addresses an element.
    pub open spec fn first_element_from(self, cs: Seq<NodeId>, i: int) -> Option<NodeId>
        decreases cs.len() - i,
    {
        if i < 0 || i >= cs.len() {
            None
        } else if self.is_element(cs[i] as int) {
            Some(cs[i])
        } else {
            self.first_element_from(cs, i + 1)
        }
    }

    /// The last id before position `i` of `cs` that addresses an element.
    pub open spec fn last_element_upto(self, cs: Seq<NodeId>, i: int) -> Option<NodeId>
        decreases i,
    {
        if i <= 0 || i > cs.len() {
            None
        } else if self.is_element(cs[i - 1] as int) {
            Some(cs[i - 1])
        } else {
            self.last_element_upto(cs, i - 1)
        }
    }

    /// The first child of `id` that is an element.
    pub open spec fn first_element_child(self, id: int) -> Option<NodeId> {
        self.first_element_from(self.children_of(id), 0)
    }

    /// The last child of `id` that is an element.
    pub open spec fn last_element_child(self, id: int) -> Option<NodeId> {
        self.last_element_upto(self.children_of(id), self.children_of(id).len() as int)
    }

    /// The ids of `cs` that address elements, in order.
    pub open spec fn element_children(self, cs: Seq<NodeId>) -> Seq<NodeId>
        decreases cs.len(),
    {
        if cs.len() == 0 {
            Seq::empty()
        } else {
            let prev = self.element_children(cs.drop_last());
            if self.is_element(cs.last() as int) {
                prev.push(cs.last())
            } else {
                prev
            }
        }
    }

    /// The text below `id`: the text of a text node, or else the text of the
    /// text, CDATA and element children of `id`, in order. Other children
    /// contribute nothing.
    pub open spec fn text_content(self, id: int, fuel: nat) -> Seq<char>
        decreases fuel, 1nat, 0nat,
    {
        if !self.valid(id) {
            Seq::empty()
        } else {
            match self.nodes[id].kind {
                KindV::Text(t) => t,
                _ => self.children_text(id, self.nodes[id].children.len(), fuel),
            }
        }
    }

    /// The text contributed by the first `k` children of `id`.
    pub open spec fn children_text(self, id: int, k: nat, fuel: nat) -> Seq<char>
        decreases fuel, 0nat, k,
    {
        if k == 0 || !self.valid(id) || k > self.nodes[id].children.len() {
            Seq::empty()
        } else {
            let c = self.nodes[id].children[k - 1] as int;
            let piece = if !self.valid(c) {
                Seq::empty()
            } else {
                match self.nodes[c].kind {
                    KindV::Text(t) => t,
                    KindV::CData(t) => t,
                    KindV::Element { .. } => if fuel == 0 {
                        Seq::empty()
                    } else {
                        self.text_content(c, (fuel - 1) as nat)
                    },
                    _ => Seq::empty(),
                }
            };
            self.children_text(id, (k - 1) as nat, fuel) + piece
        }
    }

    /// The elements below `id` that `hit` selects, in document order: each
    /// child in turn, and after a child element the selected elements below
    /// it, following links at most `fuel` levels down.
    pub open spec fn elements_below(self, hit: spec_fn(int) -> bool, id: int, fuel: nat) -> Seq<NodeId>
        decreases fuel, 1nat, 0nat,
    {
        if !self.valid(id) {
            Seq::empty()
        } else {
            self.hits_in_children(hit, id, self.nodes[id].children.len(), fuel)
        }
    }

    /// The selected elements among the first `k` children of `id` and below them.
    pub open spec fn hits_in_children(self, hit: spec_fn(int) -> bool, id: int, k: nat, fuel: nat) -> Seq<NodeId>
        decreases fuel, 0nat, k,
    {
        if k == 0 || !self.valid(id) || k > self.nodes[id].children.len() {
            Seq::empty()
        } else {
            let c = self.nodes[id].children[k - 1];
            let piece = if !self.is_element(c as int) {
                Seq::empty()
            } else {
                (if hit(c as int) {
                    seq![c]
                } else {
                    Seq::empty()
                }) + (if fuel == 0 {
                    Seq::empty()
                } else {
                    self.elements_below(hit, c as int, (fuel - 1) as nat)
                })
            };
            self.hits_in_children(hit, id, (k - 1) as nat, fuel) + piece
        }
    }

    /// The selected elements of the document: the descendants of the root
    /// container that `hit` selects, in document order.
    pub open spec fn document_elements(self, hit: spec_fn(int) -> bool) -> Seq<NodeId> {
        match self.root_id {
            Some(r) => self.elements_below(hit, r as int, self.nodes.len()),
            None => Seq::empty(),
        }
    }

    /// Selects the elements named `name` (all of them for `*`).
    pub open spec fn named(self, name: Seq<char>) -> spec_fn(int) -> bool {
        |i: int| (match self.nodes[i].kind {
            KindV::Element { name: n, .. } => name == "*"@ || n == name,
            _ => false,
        })
    }

    /// Selects the elements with local name `local` in namespace `uri`; `*`
    /// matches any of either, and an empty `uri` an element in no namespace.
    pub open spec fn named_ns(self, uri: Seq<char>, local: Seq<char>) -> spec_fn(int) -> bool {
        |i: int| (local == "*"@ || self.name_parts(i).1 == local) && (uri == "*"@ || match self.namespace_uri(i) {
            None => uri.len() == 0,
            Some(eu) => eu == uri,
        })
    }

    /// The first node at or after `i` that is an element whose `id` attribute is `v`.
    pub open spec fn element_with_id_from(self, v: Seq<char>, i: int) -> Option<NodeId>
        decreases self.nodes.len() - i,
    {
        if i < 0 || i >= self.nodes.len() {
            None
        } else if self.nodes[i].kind is Element && self.nodes[i].kind.attribute("id"@) == Some(v) {
            Some(self.nodes[i].id)
        } else {
            self.element_with_id_from(v, i + 1)
        }
    }

    /// The prefix and local part of the name of node `id`.
    pub open spec fn name_parts(self, id: int) -> (Option<Seq<char>>, Seq<char>) {
        crate::namespace::split_prefix_spec(self.nodes[id].kind.name())
    }

    /// The URI bound by attribute `target` on `id` or its nearest ancestor
    /// that carries it; an empty value undeclares it.
    pub open spec fn ns_lookup(self, id: int, target: Seq<char>, fuel: nat) -> Option<Seq<char>>
        decreases fuel,
    {
        if !self.valid(id) {
            None
        } else {
            match self.nodes[id].kind.attribute(target) {
                Some(v) => if v.len() == 0 { None } else { Some(v) },
                None => match self.nodes[id].parent {
                    None => None,
                    Some(p) => if fuel == 0 { None } else { self.ns_lookup(p as int, target, (fuel - 1) as nat) },
                },
            }
        }
    }

    /// The prefix that a namespace declaration among `attrs[i..]` binds to `uri`.
    pub open spec fn prefix_in_attrs(attrs: Seq<crate::node::AttrV>, uri: Seq<char>, i: int) -> Option<Seq<char>>
        decreases attrs.len() - i,
    {
        if i < 0 || i >= attrs.len() {
            None
        } else if attrs[i].value == uri && attrs[i].name.len() >= 6 && attrs[i].name.take(6) == xmlns_colon() {
            Some(attrs[i].name.skip(6))
        } else if attrs[i].value == uri && attrs[i].name == xmlns_colon().take(5) {
            Some(Seq::empty())
        } else {
            DocV::prefix_in_attrs(attrs, uri, i + 1)
        }
    }

    /// The prefix declared for `uri` on `id` or its nearest ancestor declaring one.
    pub open spec fn prefix_lookup(self, id: int, uri: Seq<char>, fuel: nat) -> Option<Seq<char>>
        decreases fuel,
    {
        if !self.valid(id) {
            None
        } else {
            let here = match self.nodes[id].kind {
                KindV::Element { attributes, .. } => DocV::prefix_in_attrs(attributes, uri, 0),
                _ => None,
            };
            match here {
                Some(p) => Some(p),
                None => match self.nodes[id].parent {
                    None => None,
                    Some(p) => if fuel == 0 { None } else { self.prefix_lookup(p as int, uri, (fuel - 1) as nat) },
                },
            }
        }
    }

    /// The name of the attribute declaring `prefix`: `xmlns`, or `xmlns:prefix`.
    pub open spec fn ns_attr_name(prefix: Seq<char>) -> Seq<char> {
        if prefix.len() == 0 { xmlns_colon().take(5) } else { xmlns_colon() + prefix }
    }

    /// The namespace URI of node `id`, resolved from its prefix.
    pub open spec fn namespace_uri(self, id: int) -> Option<Seq<char>> {
        if !self.valid(id) {
            self.ns_lookup(id, DocV::ns_attr_name(Seq::empty()), self.nodes.len())
        } else {
            match self.name_parts(id).0 {
                Some(p) => if p == "xml"@ {
                    Some("http://www.w3.org/XML/1998/namespace"@)
                } else if p == "xmlns"@ {
                    Some("http://www.w3.org/2000/xmlns/"@)
                } else {
                    self.ns_lookup(id, DocV::ns_attr_name(p), self.nodes.len())
                },
                None => self.ns_lookup(id, DocV::ns_attr_name(Seq::empty()), self.nodes.len()),
            }
        }
    }

    /// The same document with other nodes.
    pub open spec fn with_nodes(self, nodes: Seq<NodeV>) -> DocV {
        DocV {
            nodes: nodes,
            root_id: self.root_id,
            prolog_id: self.prolog_id,
            declaration_id: self.declaration_id,
            dtd_id: self.dtd_id,
        }
    }
}

/// A bound on the subtree stays a bound with more fuel.
pub proof fn lemma_bounded_mono(d: DocV, id: int, f1: nat, f2: nat)
    requires
        d.bounded(id, f1),
        f1 <= f2,
    ensures
        d.bounded(id, f2),
    decreases f1,
{
    if f1 > 0 {
        assert forall|j: int| 0 <= j < d.nodes[id].children.len() implies d.bounded(
            #[trigger] d.nodes[id].children[j] as int,
            (f2 - 1) as nat,
        ) by {
            lemma_bounded_mono(d, d.nodes[id].children[j] as int, (f1 - 1) as nat, (f2 - 1) as nat);
        }
    } else if f2 > 0 {
        assert(d.nodes[id].children.len() == 0);
    }
}

/// What an element lookup asks for: a tag name (or all elements), or a
/// local name and namespace URI (either possibly `*`).
enum Query {
    Name { all: bool, name: Vec<char> },
    Ns { any_uri: bool, any_local: bool, uri: Vec<char>, local: Vec<char> },
}

impl Query {
    /// Whether the query selects exactly the elements `hit` selects in `d`,
    /// and can be answered there.
    spec fn answers(&self, d: DocV, hit: spec_fn(int) -> bool) -> bool {
        match self {
            Query::Name { all, name } => all == (name@ == "*"@) && forall|i: int|
                d.is_element(i) ==> #[trigger] hit(i) == (match d.nodes[i].kind {
                    KindV::Element { name: n, .. } => name@ == "*"@ || n == name@,
                    _ => false,
                }),
            Query::Ns { any_uri, any_local, uri, local } => d.wf() && d.all_ancestors_finite() && any_uri == (uri@
                == "*"@) && any_local == (local@ == "*"@) && forall|i: int|
                d.is_element(i) ==> #[trigger] hit(i) == ((local@ == "*"@ || d.name_parts(i).1 == local@) && (uri@
                    == "*"@ || match d.namespace_uri(i) {
                    None => uri@.len() == 0,
                    Some(eu) => eu == uri@,
                })),
        }
    }
}

impl Document {
    /// The arena is well formed.
    pub open spec fn wf(&self) -> bool {
        self@.wf()
    }

    /// A document holding only the prolog container (id 0) and the root
    /// container (id 1).
    pub fn new() -> (r: Self)
        ensures
            r.wf(),
            r@.nodes == seq![fresh_node(0, KindV::Prolog), fresh_node(1, KindV::Root)],
            r@.prolog_id == Some(0u32),
            r@.root_id == Some(1u32),
            r@.declaration_id is None,
            r@.dtd_id is None,
    {
        let mut doc = Document {
            nodes: Vec::new(),
            root_id: None,
            prolog_id: None,
            declaration_id: None,
            dtd_id: None,
        };
        let prolog_id = doc.add_node(NodeKind::Prolog);
        doc.prolog_id = Some(prolog_id);
        let root_id = doc.add_node(NodeKind::Root);
        doc.root_id = Some(root_id);
        assert(doc@.nodes =~= seq![fresh_node(0, KindV::Prolog), fresh_node(1, KindV::Root)]);
        doc
    }

    /// Appends a node of the given kind to the arena and returns its id.
    pub fn add_node(&mut self, kind: NodeKind) -> (r: NodeId)
        requires
            old(self).wf(),
            old(self)@.len() < u32::MAX,
        ensures
            final(self).wf(),
            r == old(self)@.len(),
            final(self)@ == old(self)@.with_nodes(old(self)@.nodes.push(fresh_node(r, kind@))),
    {
        let id = self.nodes.len() as NodeId;
        let ghost k = kind@;
        self.nodes.push(NodeData::new(id, kind));
        assert(self@.nodes =~= old(self)@.nodes.push(fresh_node(id, k)));
        id
    }

    /// Moves `child_id` to the end of the children of `parent_id`, taking it
    /// out of the child list of its former parent first.
    pub fn append_child(&mut self, parent_id: NodeId, child_id: NodeId) -> (r: Result<(), XmlError>)
        requires
            old(self).wf(),
        ensures
            final(self).wf(),
            r is Err <==> !(old(self)@.valid(parent_id as int) && old(self)@.valid(child_id as int)),
            r matches Err(e) ==> e is NodeError && final(self)@ == old(self)@,
            r is Ok ==> final(self)@ == old(self)@.with_nodes(
                moved_child(old(self)@.nodes, parent_id as int, child_id as int),
            ),
    {
        let p_idx = parent_id as usize;
        let c_idx = child_id as usize;
        if p_idx >= self.nodes.len() || c_idx >= self.nodes.len() {
            return Err(XmlError::NodeError("Invalid Node ID".to_string()));
        }
        let ghost m0 = self@;
        match self.nodes[c_idx].parent {
            Some(op) => {
                if (op as usize) < self.nodes.len() {
                    let _ = self.remove_child(op, child_id);
                }
            },
            None => {},
        }
        assert(self@ == m0.with_nodes(match detached(m0.nodes, c_idx as int) {
            Some(n) => n,
            None => m0.nodes,
        }));
        self.link_under(parent_id, child_id)
    }

    /// Links `child_id` under `parent_id`, appending it unless listed there.
    fn link_under(&mut self, parent_id: NodeId, child_id: NodeId) -> (r: Result<(), XmlError>)
        requires
            old(self).wf(),
            old(self)@.valid(parent_id as int),
            old(self)@.valid(child_id as int),
        ensures
            final(self).wf(),
            r is Ok,
            final(self)@ == old(self)@.with_nodes(link_child(old(self)@.nodes, parent_id as int, child_id as int)),
    {
        let p_idx = parent_id as usize;
        let c_idx = child_id as usize;
        let ghost n0 = self@.nodes;
        self.nodes[c_idx].parent = Some(parent_id);
        let ghost n1 = n0.update(c_idx as int, with_parent(n0[c_idx as int], Some(parent_id)));
        assert(self@.nodes =~= n1);
        let found = position_of(&self.nodes[p_idx].children, child_id);
        if found.is_none() {
            self.nodes[p_idx].children.push(child_id);
            assert(self@.nodes =~= n1.update(
                p_idx as int,
                with_children(n1[p_idx as int], n1[p_idx as int].children.push(child_id)),
            ));
        }
        Ok(())
    }

    /// Unlinks `child_id` from the child list of `parent_id` and clears its
    /// parent link; returns `child_id`.
    pub fn remove_child(&mut self, parent_id: NodeId, child_id: NodeId) -> (r: Result<NodeId, XmlError>)
        requires
            old(self).wf(),
        ensures
            final(self).wf(),
            r is Err <==> !(old(self)@.valid(parent_id as int) && old(self)@.valid(child_id as int)
                && old(self)@.nodes[parent_id as int].children.contains(child_id)),
            r matches Err(e) ==> e is NodeError && final(self)@ == old(self)@,
            r matches Ok(v) ==> v == child_id && final(self)@ == old(self)@.with_nodes(
                unlink_child(
                    old(self)@.nodes,
                    parent_id as int,
                    child_id as int,
                    find_first(old(self)@.nodes[parent_id as int].children, child_id)->0,
                ),
            ),
    {
        let p_idx = parent_id as usize;
        let c_idx = child_id as usize;
        if p_idx >= self.nodes.len() || c_idx >= self.nodes.len() {
            return Err(XmlError::NodeError("Invalid Node ID".to_string()));
        }
        let pos = match position_of(&self.nodes[p_idx].children, child_id) {
            Some(p) => p,
            None => {
                return Err(XmlError::NodeError("Child node not found on parent".to_string()));
            },
        };
        let ghost n0 = self@.nodes;
        self.nodes[p_idx].children.remove(pos);
        let ghost n1 = n0.update(
            p_idx as int,
            with_children(n0[p_idx as int], n0[p_idx as int].children.remove(pos as int)),
        );
        assert(self@.nodes =~= n1);
        self.nodes[c_idx].parent = None;
        assert(self@.nodes =~= n1.update(c_idx as int, with_parent(n1[c_idx as int], None)));
        proof {
            assert forall|i: int, j: int|
                0 <= i < self@.nodes.len() && 0 <= j < self@.nodes[i].children.len() implies #[trigger] self@.nodes[i].children[j]
                < self@.nodes.len() by {
                if i == p_idx {
                    let old_c = n0[p_idx as int].children;
                    assert(self@.nodes[i].children =~= old_c.remove(pos as int));
                    if j < pos {
                        assert(self@.nodes[i].children[j] == old_c[j]);
                        assert(n0[p_idx as int].children[j] < n0.len());
                    } else {
                        assert(self@.nodes[i].children[j] == old_c[j + 1]);
                        assert(n0[p_idx as int].children[j + 1] < n0.len());
                    }
                } else {
                    assert(self@.nodes[i].children == n0[i].children);
                    assert(n0[i].children[j] < n0.len());
                }
            }
        }
        Ok(child_id)
    }

    /// Inserts `new_child_id` just before `ref_child_id` among the children of
    /// `parent_id`, first detaching it from its current parent.
    pub fn insert_before(&mut self, parent_id: NodeId, new_child_id: NodeId, ref_child_id: NodeId) -> (r: Result<(), XmlError>)
        requires
            old(self).wf(),
        ensures
            final(self).wf(),
            r matches Err(e) ==> e is NodeError,
            !(old(self)@.valid(parent_id as int) && old(self)@.valid(new_child_id as int)
                && old(self)@.valid(ref_child_id as int)) ==> r is Err && final(self)@ == old(self)@,
            old(self)@.valid(parent_id as int) && old(self)@.valid(new_child_id as int)
                && old(self)@.valid(ref_child_id as int) ==> match detached(old(self)@.nodes, new_child_id as int) {
                None => r is Err && final(self)@ == old(self)@,
                Some(d1) => match find_first(d1[parent_id as int].children, ref_child_id) {
                    None => r is Err && final(self)@ == old(self)@.with_nodes(d1),
                    Some(pos) => r is Ok && final(self)@ == old(self)@.with_nodes(
                        insert_child_at(d1, parent_id as int, new_child_id as int, pos)),
                },
            },
    {
        let p_idx = parent_id as usize;
        let n_idx = new_child_id as usize;
        let r_idx = ref_child_id as usize;
        if p_idx >= self.nodes.len() || n_idx >= self.nodes.len() || r_idx >= self.nodes.len() {
            return Err(XmlError::NodeError("Invalid Node ID".to_string()));
        }
        if let Some(old_parent) = self.nodes[n_idx].parent {
            self.remove_child(old_parent, new_child_id)?;
        }
        let pos = match position_of(&self.nodes[p_idx].children, ref_child_id) {
            Some(p) => p,
            None => {
                return Err(XmlError::NodeError("Reference child not found on parent".to_string()));
            },
        };
        let ghost n0 = self@.nodes;
        self.nodes[p_idx].children.insert(pos, new_child_id);
        let ghost n1 = n0.update(
            p_idx as int,
            with_children(n0[p_idx as int], n0[p_idx as int].children.insert(pos as int, new_child_id)),
        );
        assert(self@.nodes =~= n1);
        self.nodes[n_idx].parent = Some(parent_id);
        assert(self@.nodes =~= n1.update(n_idx as int, with_parent(n1[n_idx as int], Some(parent_id))));
        proof {
            assert forall|i: int, j: int|
                0 <= i < self@.nodes.len() && 0 <= j < self@.nodes[i].children.len() implies #[trigger] self@.nodes[i].children[j]
                < self@.nodes.len() by {
                if i == p_idx {
                    let old_c = n0[p_idx as int].children;
                    if j < pos {
                        assert(self@.nodes[i].children[j] == old_c[j]);
                    } else if j > pos {
                        assert(self@.nodes[i].children[j] == old_c[j - 1]);
                    }
                }
            }
        }
        Ok(())
    }

    /// Puts `new_child_id` in place of `old_child_id` among the children of
    /// `parent_id`, first detaching it from its current parent; returns
    /// `old_child_id`, which is left without a parent.
    pub fn replace_child(&mut self, parent_id: NodeId, new_child_id: NodeId, old_child_id: NodeId) -> (r: Result<NodeId, XmlError>)
        requires
            old(self).wf(),
        ensures
            final(self).wf(),
            r matches Err(e) ==> e is NodeError,
            !(old(self)@.valid(parent_id as int) && old(self)@.valid(new_child_id as int)
                && old(self)@.valid(old_child_id as int)) ==> r is Err && final(self)@ == old(self)@,
            old(self)@.valid(parent_id as int) && old(self)@.valid(new_child_id as int)
                && old(self)@.valid(old_child_id as int) ==> match detached(old(self)@.nodes, new_child_id as int) {
                None => r is Err && final(self)@ == old(self)@,
                Some(d1) => match find_first(d1[parent_id as int].children, old_child_id) {
                    None => r is Err && final(self)@ == old(self)@.with_nodes(d1),
                    Some(pos) => r == Ok::<NodeId, XmlError>(old_child_id) && final(self)@ == old(self)@.with_nodes(
                        replace_child_at(d1, parent_id as int, new_child_id as int, old_child_id as int, pos)),
                },
            },
    {
        let p_idx = parent_id as usize;
        let n_idx = new_child_id as usize;
        let o_idx = old_child_id as usize;
        if p_idx >= self.nodes.len() || n_idx >= self.nodes.len() || o_idx >= self.nodes.len() {
            return Err(XmlError::NodeError("Invalid Node ID".to_string()));
        }
        if let Some(old_parent) = self.nodes[n_idx].parent {
            self.remove_child(old_parent, new_child_id)?;
        }
        let pos = match position_of(&self.nodes[p_idx].children, old_child_id) {
            Some(p) => p,
            None => {
                return Err(XmlError::NodeError("Old child not found on parent".to_string()));
            },
        };
        let ghost n0 = self@.nodes;
        self.nodes[p_idx].children.set(pos, new_child_id);
        let ghost n1 = n0.update(
            p_idx as int,
            with_children(n0[p_idx as int], n0[p_idx as int].children.update(pos as int, new_child_id)),
        );
        assert(self@.nodes =~= n1);
        self.nodes[o_idx].parent = None;
        let ghost n2 = n1.update(o_idx as int, with_parent(n1[o_idx as int], None));
        assert(self@.nodes =~= n2);
        self.nodes[n_idx].parent = Some(parent_id);
        assert(self@.nodes =~= n2.update(n_idx as int, with_parent(n2[n_idx as int], Some(parent_id))));
        Ok(old_child_id)
    }

    /// Detaches a node from its parent, if it has one.
    pub fn detach(&mut self, node_id: NodeId) -> (r: Result<(), XmlError>)
        requires
            old(self).wf(),
        ensures
            final(self).wf(),
            r matches Err(e) ==> e is NodeError && final(self)@ == old(self)@,
            !old(self)@.valid(node_id as int) ==> r is Err,
            old(self)@.valid(node_id as int) ==> match detached(old(self)@.nodes, node_id as int) {
                None => r is Err,
                Some(d1) => r is Ok && final(self)@ == old(self)@.with_nodes(d1),
            },
    {
        let n_idx = node_id as usize;
        if n_idx >= self.nodes.len() {
            return Err(XmlError::NodeError("Invalid Node ID".to_string()));
        }
        if let Some(parent_id) = self.nodes[n_idx].parent {
            self.remove_child(parent_id, node_id)?;
        }
        Ok(())
    }

    /// Sets an attribute on an element node.
    pub fn set_attribute(&mut self, elem_id: NodeId, name: &str, value: &str) -> (r: Result<(), XmlError>)
        requires
            old(self).wf(),
        ensures
            final(self).wf(),
            r is Ok <==> old(self)@.is_element(elem_id as int),
            r matches Err(e) ==> e is NodeError && final(self)@ == old(self)@,
            r is Ok ==> final(self)@ == with_attribute_set(old(self)@, elem_id, name@, value@),
    {
        let idx = elem_id as usize;
        if idx >= self.nodes.len() {
            return Err(XmlError::NodeError("Invalid Node ID".to_string()));
        }
        let ghost n0 = self@.nodes;
        let ok = self.nodes[idx].kind.set_attribute(name, value);
        if !ok {
            assert(self@.nodes =~= n0);
            return Err(XmlError::NodeError("Node is not an Element".to_string()));
        }
        assert(self@.nodes =~= n0.update(idx as int, with_kind(n0[idx as int], self@.nodes[idx as int].kind)));
        Ok(())
    }

    /// Removes the first attribute named `name` from an element; returns
    /// whether one was removed.
    pub fn remove_attribute(&mut self, elem_id: NodeId, name: &str) -> (r: bool)
        requires
            old(self).wf(),
        ensures
            final(self).wf(),
            r == (old(self)@.attribute(elem_id as int, name@) is Some),
            !r ==> final(self)@ == old(self)@,
            r ==> final(self)@ == with_attribute_removed(old(self)@, elem_id, name@),
    {
        let idx = elem_id as usize;
        if idx >= self.nodes.len() {
            return false;
        }
        let ghost n0 = self@.nodes;
        let r = self.nodes[idx].kind.remove_attribute(name);
        if r {
            assert(self@.nodes =~= n0.update(idx as int, with_kind(n0[idx as int], self@.nodes[idx as int].kind)));
        } else {
            assert(self@.nodes =~= n0);
        }
        r
    }

    /// The node with the given id.
    pub fn get_node(&self, id: NodeId) -> (r: Option<&NodeData>)
        ensures
            r is Some <==> self@.valid(id as int),
            r matches Some(n) ==> n@ == self@.nodes[id as int],
    {
        let idx = id as usize;
        if idx < self.nodes.len() {
            Some(&self.nodes[idx])
        } else {
            None
        }
    }

    /// Mutable access to the node with the given id.
    pub fn get_node_mut(&mut self, id: NodeId) -> (r: Option<&mut NodeData>)
        ensures
            r is Some <==> old(self)@.valid(id as int),
            r matches Some(n) ==> (*n)@ == old(self)@.nodes[id as int] && final(self)@
                == old(self)@.with_nodes(old(self)@.nodes.update(id as int, (*final(n))@)),
            r is None ==> final(self)@ == old(self)@,
    {
        let idx = id as usize;
        if idx < self.nodes.len() {
            proof {
                lemma_nodes_view_update(self.nodes@, idx as int);
            }
            Some(&mut self.nodes[idx])
        } else {
            None
        }
    }

    /// Looks up an attribute value of a node.
    pub fn get_attribute<'a>(&'a self, id: NodeId, attr_name: &str) -> (r: Option<&'a str>)
        ensures
            r matches Some(v) ==> self@.attribute(id as int, attr_name@) == Some(v@),
            r is None ==> self@.attribute(id as int, attr_name@) is None,
    {
        match self.get_node(id) {
            Some(node) => node.kind.get_attribute(attr_name),
            None => None,
        }
    }

    /// Whether a node is an element carrying the named attribute.
    pub fn has_attribute(&self, elem_id: NodeId, name: &str) -> (r: bool)
        ensures
            r == self@.attribute(elem_id as int, name@) is Some,
    {
        self.get_attribute(elem_id, name).is_some()
    }

    /// The parent of a node.
    pub fn parent_id(&self, id: NodeId) -> (r: Option<NodeId>)
        ensures
            r == self@.parent_of(id as int),
    {
        match self.get_node(id) {
            Some(n) => n.parent,
            None => None,
        }
    }

    /// The children of a node, or none for an unknown id.
    pub fn get_children(&self, id: NodeId) -> (r: Vec<NodeId>)
        ensures
            r@ == self@.children_of(id as int),
    {
        match self.get_node(id) {
            Some(n) => n.children.clone(),
            None => Vec::new(),
        }
    }

    /// The first child of a node.
    pub fn first_child(&self, id: NodeId) -> (r: Option<NodeId>)
        ensures
            r == (if self@.children_of(id as int).len() > 0 { Some(self@.children_of(id as int)[0]) } else { None }),
    {
        match self.get_node(id) {
            Some(n) => if n.children.len() > 0 { Some(n.children[0]) } else { None },
            None => None,
        }
    }

    /// The last child of a node.
    pub fn last_child(&self, id: NodeId) -> (r: Option<NodeId>)
        ensures
            r == (if self@.children_of(id as int).len() > 0 { Some(self@.children_of(id as int).last()) } else { None }),
    {
        match self.get_node(id) {
            Some(n) => if n.children.len() > 0 { Some(n.children[n.children.len() - 1]) } else { None },
            None => None,
        }
    }

    /// The sibling just after a node in its parent's child list.
    pub fn next_sibling(&self, id: NodeId) -> (r: Option<NodeId>)
        ensures
            r == self@.next_sibling(id as int),
    {
        let parent_id = match self.parent_id(id) {
            Some(p) => p,
            None => return None,
        };
        let parent = match self.get_node(parent_id) {
            Some(p) => p,
            None => return None,
        };
        let pos = match position_of(&parent.children, id) {
            Some(p) => p,
            None => return None,
        };
        if pos < parent.children.len() - 1 {
            Some(parent.children[pos + 1])
        } else {
            None
        }
    }

    /// The sibling just before a node in its parent's child list.
    pub fn previous_sibling(&self, id: NodeId) -> (r: Option<NodeId>)
        ensures
            r == self@.previous_sibling(id as int),
    {
        let parent_id = match self.parent_id(id) {
            Some(p) => p,
            None => return None,
        };
        let parent = match self.get_node(parent_id) {
            Some(p) => p,
            None => return None,
        };
        let pos = match position_of(&parent.children, id) {
            Some(p) => p,
            None => return None,
        };
        if pos > 0 {
            Some(parent.children[pos - 1])
        } else {
            None
        }
    }

    /// The first child of a node that is an element.
    pub fn first_element_child(&self, id: NodeId) -> (r: Option<NodeId>)
        ensures
            r == self@.first_element_child(id as int),
    {
        let node = match self.get_node(id) {
            Some(n) => n,
            None => return None,
        };
        let ghost cs = node.children@;
        let mut i: usize = 0;
        while i < node.children.len()
            invariant
                node@ == self@.nodes[id as int],
                self@.valid(id as int),
                cs == node.children@,
                i <= cs.len(),
                self@.first_element_child(id as int) == self@.first_element_from(cs, i as int),
            decreases cs.len() - i,
        {
            let c = node.children[i];
            let is_elem = match self.get_node(c) {
                Some(cn) => cn.kind.is_element(),
                None => false,
            };
            if is_elem {
                return Some(c);
            }
            i = i + 1;
        }
        None
    }

    /// The last child of a node that is an element.
    pub fn last_element_child(&self, id: NodeId) -> (r: Option<NodeId>)
        ensures
            r == self@.last_element_child(id as int),
    {
        let node = match self.get_node(id) {
            Some(n) => n,
            None => return None,
        };
        let ghost cs = node.children@;
        let mut i: usize = node.children.len();
        while i > 0
            invariant
                node@ == self@.nodes[id as int],
                self@.valid(id as int),
                cs == node.children@,
                i <= cs.len(),
                self@.last_element_child(id as int) == self@.last_element_upto(cs, i as int),
            decreases i,
        {
            let c = node.children[i - 1];
            let is_elem = match self.get_node(c) {
                Some(cn) => cn.kind.is_element(),
                None => false,
            };
            if is_elem {
                return Some(c);
            }
            i = i - 1;
        }
        None
    }

    /// The children of a node that are elements, in order.
    pub fn get_element_children(&self, id: NodeId) -> (r: Vec<NodeId>)
        ensures
            r@ == self@.element_children(self@.children_of(id as int)),
    {
        let children = self.get_children(id);
        let mut out: Vec<NodeId> = Vec::new();
        let mut i: usize = 0;
        while i < children.len()
            invariant
                children@ == self@.children_of(id as int),
                i <= children@.len(),
                out@ == self@.element_children(children@.take(i as int)),
            decreases children@.len() - i,
        {
            let c = children[i];
            let is_elem = match self.get_node(c) {
                Some(cn) => cn.kind.is_element(),
                None => false,
            };
            assert(children@.take(i + 1).drop_last() == children@.take(i as int));
            if is_elem {
                out.push(c);
            }
            i = i + 1;
        }
        assert(children@.take(children@.len() as int) == children@);
        out
    }

    /// The first child of the root container that is an element.
    pub fn root_element_id(&self) -> (r: Option<NodeId>)
        ensures
            r == (match self@.root_id {
                Some(rid) => if self@.valid(rid as int) { self@.first_element_child(rid as int) } else { None },
                None => None,
            }),
    {
        match self.root_id {
            Some(rid) => self.first_element_child(rid),
            None => None,
        }
    }

    /// The nodes of the arena.
    pub fn nodes(&self) -> (r: &[NodeData])
        ensures
            nodes_view(r@) == self@.nodes,
    {
        self.nodes.as_slice()
    }

    /// The number of nodes in the arena.
    pub fn len(&self) -> (r: usize)
        ensures
            r == self@.len(),
    {
        self.nodes.len()
    }

    /// Whether the arena holds no node.
    pub fn is_empty(&self) -> (r: bool)
        ensures
            r == (self@.len() == 0),
    {
        self.nodes.len() == 0
    }

    /// The id of the root container.
    pub fn root_id(&self) -> (r: Option<NodeId>)
        ensures
            r == self@.root_id,
    {
        self.root_id
    }

    /// The id of the prolog container.
    pub fn prolog_id(&self) -> (r: Option<NodeId>)
        ensures
            r == self@.prolog_id,
    {
        self.prolog_id
    }

    /// The id of the XML declaration node.
    pub fn declaration_id(&self) -> (r: Option<NodeId>)
        ensures
            r == self@.declaration_id,
    {
        self.declaration_id
    }

    /// Records the XML declaration node.
    pub fn set_declaration_id(&mut self, id: NodeId)
        ensures
            final(self)@ == (DocV { declaration_id: Some(id), ..old(self)@ }),
    {
        self.declaration_id = Some(id);
    }

    /// The id of the DOCTYPE node.
    pub fn dtd_id(&self) -> (r: Option<NodeId>)
        ensures
            r == self@.dtd_id,
    {
        self.dtd_id
    }

    /// Records the DOCTYPE node.
    pub fn set_dtd_id(&mut self, id: NodeId)
        ensures
            final(self)@ == (DocV { dtd_id: Some(id), ..old(self)@ }),
    {
        self.dtd_id = Some(id);
    }

    /// The text of node `id` and its descendants, for a node whose subtree
    /// is finite.
    pub fn get_text_content(&self, id: NodeId) -> (r: String)
        requires
            self.wf(),
            self@.valid(id as int) ==> self@.acyclic_below(id as int),
        ensures
            r@ == self@.text_content(id as int, self@.len()),
    {
        if (id as usize) < self.nodes.len() {
            self.text_rec(id, Ghost(self@.len()))
        } else {
            String::new()
        }
    }

    fn text_rec(&self, id: NodeId, Ghost(fuel): Ghost<nat>) -> (r: String)
        requires
            self.wf(),
            self@.bounded(id as int, fuel),
        ensures
            r@ == self@.text_content(id as int, fuel),
        decreases fuel,
    {
        let node = &self.nodes[id as usize];
        match &node.kind {
            NodeKind::Text(t) => t.clone(),
            _ => {
                let mut text = String::new();
                let mut i: usize = 0;
                while i < node.children.len()
                    invariant
                        self.wf(),
                        self@.bounded(id as int, fuel),
                        node@ == self@.nodes[id as int],
                        !(node@.kind is Text),
                        i <= node.children@.len(),
                        text@ == self@.children_text(id as int, i as nat, fuel),
                    decreases node.children@.len() - i,
                {
                    let c = node.children[i];
                    let ghost before = text@;
                    match self.get_node(c) {
                        Some(child) => {
                            match &child.kind {
                                NodeKind::Text(t) => {
                                    crate::text::push_str(&mut text, t.as_str());
                                },
                                NodeKind::CData(t) => {
                                    crate::text::push_str(&mut text, t.as_str());
                                },
                                NodeKind::Element { .. } => {
                                    assert(fuel > 0);
                                    let sub = self.text_rec(c, Ghost((fuel - 1) as nat));
                                    crate::text::push_str(&mut text, sub.as_str());
                                },
                                _ => {
                                    assert(text@ =~= before + Seq::<char>::empty());
                                },
                            }
                        },
                        None => {
                            assert(text@ =~= before + Seq::<char>::empty());
                        },
                    }
                    i = i + 1;
                }
                text
            },
        }
    }

    /// All elements of the document named `name` (all elements for `*`):
    /// the descendants of the root container, in document order.
    pub fn get_elements_by_tag_name(&self, name: &str) -> (r: Vec<NodeId>)
        ensures
            r@ == self@.document_elements(self@.named(name@)),
    {
        let mut results: Vec<NodeId> = Vec::new();
        let query = Query::Name { all: crate::text::str_eq(name, "*"), name: str_chars(name) };
        let ghost hit = self@.named(name@);
        match self.root_id {
            Some(root) => {
                self.collect_hits(&query, root, self.nodes.len(), &mut results, Ghost(hit));
                assert(results@ =~= Seq::<NodeId>::empty() + self@.elements_below(hit, root as int, self@.len()));
            },
            None => {},
        }
        results
    }

    /// Whether element `c` answers a query.
    fn query_hits(&self, query: &Query, c: NodeId, Ghost(hit): Ghost<spec_fn(int) -> bool>) -> (r: bool)
        requires
            self@.is_element(c as int),
            query.answers(self@, hit),
        ensures
            r == hit(c as int),
    {
        match query {
            Query::Name { all, name } => match &self.nodes[c as usize].kind {
                NodeKind::Element { name: en, .. } => *all || crate::text::chars_eq(&str_chars(en.as_str()), name),
                _ => false,
            },
            Query::Ns { any_uri, any_local, uri, local } => {
                let el = str_chars(self.get_local_name(c));
                if !(*any_local || crate::text::chars_eq(&el, local)) {
                    return false;
                }
                if *any_uri {
                    return true;
                }
                assert(self@.ancestors_finite(c as int));
                match self.get_namespace_uri(c) {
                    None => uri.len() == 0,
                    Some(eu) => crate::text::chars_eq(&str_chars(eu.as_str()), uri),
                }
            },
        }
    }

    /// Appends the elements below `id` that answer the query, in document order.
    fn collect_hits(
        &self,
        query: &Query,
        id: NodeId,
        fuel: usize,
        out: &mut Vec<NodeId>,
        Ghost(hit): Ghost<spec_fn(int) -> bool>,
    )
        requires
            query.answers(self@, hit),
        ensures
            final(out)@ == old(out)@ + self@.elements_below(hit, id as int, fuel as nat),
        decreases fuel, 1nat,
    {
        if (id as usize) < self.nodes.len() {
            let node = &self.nodes[id as usize];
            let mut i: usize = 0;
            let ghost start = out@;
            while i < node.children.len()
                invariant
                    node@ == self@.nodes[id as int],
                    self@.nodes.len() == self.nodes@.len(),
                    (id as int) < self@.nodes.len(),
                    query.answers(self@, hit),
                    i <= node.children@.len(),
                    out@ == start + self@.hits_in_children(hit, id as int, i as nat, fuel as nat),
                decreases node.children@.len() - i,
            {
                let c = node.children[i];
                let ghost before = out@;
                let ghost prev = self@.hits_in_children(hit, id as int, i as nat, fuel as nat);
                let is_elem = (c as usize) < self.nodes.len() && self.nodes[c as usize].kind.is_element();
                if is_elem {
                    assert(self@.is_element(c as int));
                    let own_hit = self.query_hits(query, c, Ghost(hit));
                    if own_hit {
                        out.push(c);
                    }
                    let ghost mid = out@;
                    if fuel > 0 {
                        self.collect_hits(query, c, fuel - 1, out, Ghost(hit));
                    }
                    proof {
                        let below = if fuel == 0 {
                            Seq::<NodeId>::empty()
                        } else {
                            self@.elements_below(hit, c as int, (fuel - 1) as nat)
                        };
                        let own = if hit(c as int) { seq![c] } else { Seq::<NodeId>::empty() };
                        assert(mid =~= before + own);
                        assert(out@ =~= start + (prev + (own + below)));
                    }
                } else {
                    assert(out@ =~= start + (prev + Seq::<NodeId>::empty()));
                }
                i = i + 1;
            }
        } else {
            assert(out@ =~= old(out)@ + Seq::<NodeId>::empty());
        }
    }

    /// The first element whose `id` attribute equals `id`.
    pub fn get_element_by_id(&self, id: &str) -> (r: Option<NodeId>)
        ensures
            r == self@.element_with_id_from(id@, 0),
    {
        let mut i: usize = 0;
        let target = str_chars(id);
        while i < self.nodes.len()
            invariant
                i <= self@.len(),
                self@.nodes.len() == self.nodes@.len(),
                target@ == id@,
                self@.element_with_id_from(id@, 0) == self@.element_with_id_from(id@, i as int),
            decreases self@.len() - i,
        {
            let node = &self.nodes[i];
            if node.kind.is_element() {
                match node.kind.get_attribute("id") {
                    Some(v) => {
                        let vc = str_chars(v);
                        if crate::text::chars_eq(&vc, &target) {
                            return Some(node.id);
                        }
                    },
                    None => {},
                }
            }
            i = i + 1;
        }
        None
    }

    /// The namespace prefix of a node's name, if any.
    pub fn get_prefix(&self, id: NodeId) -> (r: Option<&str>)
        ensures
            self@.valid(id as int) ==> (match r {
                Some(p) => Some(p@),
                None => None,
            }) == self@.name_parts(id as int).0,
            !self@.valid(id as int) ==> r is None,
    {
        match self.get_node(id) {
            Some(node) => crate::namespace::QName::split_prefix(node.kind.name()).0,
            None => None,
        }
    }

    /// The local part of a node's name; empty for an unknown id.
    pub fn get_local_name(&self, id: NodeId) -> (r: &str)
        ensures
            self@.valid(id as int) ==> r@ == self@.name_parts(id as int).1,
            !self@.valid(id as int) ==> r@ == Seq::<char>::empty(),
    {
        match self.get_node(id) {
            Some(node) => crate::namespace::QName::split_prefix(node.kind.name()).1,
            None => {
                proof {
                    reveal_strlit("");
                }
                ""
            },
        }
    }

    /// The URI bound to `prefix` (the default namespace for an empty prefix)
    /// in the scope of node `id`, found by walking up its ancestors.
    pub fn lookup_namespace_uri(&self, id: NodeId, prefix: &str) -> (r: Option<String>)
        requires
            self.wf(),
            self@.ancestors_finite(id as int),
        ensures
            (match r {
                Some(u) => Some(u@),
                None => None,
            }) == self@.ns_lookup(id as int, DocV::ns_attr_name(prefix@), self@.len()),
    {
        let mut target_chars: Vec<char> = vec!['x', 'm', 'l', 'n', 's'];
        let pc = str_chars(prefix);
        if pc.len() > 0 {
            target_chars.push(':');
            let mut k: usize = 0;
            while k < pc.len()
                invariant
                    k <= pc@.len(),
                    target_chars@ == xmlns_colon() + pc@.take(k as int),
                decreases pc@.len() - k,
            {
                target_chars.push(pc[k]);
                assert(pc@.take(k + 1) == pc@.take(k as int).push(pc@[k as int]));
                k = k + 1;
            }
            assert(pc@.take(pc@.len() as int) == pc@);
        } else {
            assert(target_chars@ == xmlns_colon().take(5));
        }
        let target = string_from_chars(&target_chars);
        let ghost t = DocV::ns_attr_name(prefix@);
        assert(target@ == t);
        let mut curr: NodeId = id;
        let ghost mut fuel: nat = self@.len();
        loop
            invariant
                self.wf(),
                target@ == t,
                t == DocV::ns_attr_name(prefix@),
                self@.parents_bounded(curr as int, fuel),
                self@.ns_lookup(id as int, t, self@.len()) == self@.ns_lookup(curr as int, t, fuel),
            decreases fuel,
        {
            match self.get_node(curr) {
                Some(node) => {
                    match node.kind.get_attribute(target.as_str()) {
                        Some(v) => {
                            if v.unicode_len() == 0 {
                                return None;
                            }
                            return Some(string_from_chars(&str_chars(v)));
                        },
                        None => {},
                    }
                },
                None => {},
            }
            match self.parent_id(curr) {
                None => return None,
                Some(p) => {
                    curr = p;
                    proof {
                        fuel = (fuel - 1) as nat;
                    }
                },
            }
        }
    }

    /// The prefix declared for `uri` in the scope of node `id`, found by
    /// walking up its ancestors; the default namespace gives an empty prefix.
    pub fn lookup_prefix(&self, id: NodeId, uri: &str) -> (r: Option<String>)
        requires
            self.wf(),
            self@.ancestors_finite(id as int),
        ensures
            (match r {
                Some(p) => Some(p@),
                None => None,
            }) == self@.prefix_lookup(id as int, uri@, self@.len()),
    {
        let uc = str_chars(uri);
        let xc: Vec<char> = vec!['x', 'm', 'l', 'n', 's', ':'];
        let xc5: Vec<char> = vec!['x', 'm', 'l', 'n', 's'];
        assert(xc@ == xmlns_colon());
        assert(xc5@ == xmlns_colon().take(5));
        let mut curr: NodeId = id;
        let ghost mut fuel: nat = self@.len();
        loop
            invariant
                self.wf(),
                uc@ == uri@,
                xc@ == xmlns_colon(),
                xc5@ == xmlns_colon().take(5),
                self@.parents_bounded(curr as int, fuel),
                self@.prefix_lookup(id as int, uri@, self@.len()) == self@.prefix_lookup(curr as int, uri@, fuel),
            decreases fuel,
        {
            match self.get_node(curr) {
                Some(node) => {
                    match &node.kind {
                        NodeKind::Element { attributes, .. } => {
                            match prefix_in_attributes(attributes, &uc, &xc, &xc5) {
                                Some(p) => return Some(p),
                                None => {},
                            }
                        },
                        _ => {},
                    }
                },
                None => {},
            }
            match self.parent_id(curr) {
                None => return None,
                Some(p) => {
                    curr = p;
                    proof {
                        fuel = (fuel - 1) as nat;
                    }
                },
            }
        }
    }

    /// The namespace URI of a node, resolved from the prefix of its name by
    /// walking up its ancestors; `xml` and `xmlns` have fixed URIs.
    pub fn get_namespace_uri(&self, id: NodeId) -> (r: Option<String>)
        requires
            self.wf(),
            self@.ancestors_finite(id as int),
        ensures
            (match r {
                Some(u) => Some(u@),
                None => None,
            }) == self@.namespace_uri(id as int),
    {
        proof {
            reveal_strlit("");
            reveal_strlit("xml");
            reveal_strlit("xmlns");
        }
        match self.get_prefix(id) {
            Some(p) => {
                if crate::text::str_eq(p, "xml") {
                    return Some("http://www.w3.org/XML/1998/namespace".to_string());
                }
                if crate::text::str_eq(p, "xmlns") {
                    return Some("http://www.w3.org/2000/xmlns/".to_string());
                }
                self.lookup_namespace_uri(id, p)
            },
            None => self.lookup_namespace_uri(id, ""),
        }
    }

    /// All elements of the document with the given local name and namespace
    /// URI, the descendants of the root container in document order; `*`
    /// matches any local name or any URI, and the empty URI matches elements
    /// in no namespace.
    pub fn get_elements_by_tag_name_ns(&self, uri: &str, local_name: &str) -> (r: Vec<NodeId>)
        requires
            self.wf(),
            self@.all_ancestors_finite(),
        ensures
            r@ == self@.document_elements(self@.named_ns(uri@, local_name@)),
    {
        let mut results: Vec<NodeId> = Vec::new();
        let query = Query::Ns {
            any_uri: crate::text::str_eq(uri, "*"),
            any_local: crate::text::str_eq(local_name, "*"),
            uri: str_chars(uri),
            local: str_chars(local_name),
        };
        let ghost hit = self@.named_ns(uri@, local_name@);
        match self.root_id {
            Some(root) => {
                self.collect_hits(&query, root, self.nodes.len(), &mut results, Ghost(hit));
                assert(results@ =~= Seq::<NodeId>::empty() + self@.elements_below(hit, root as int, self@.len()));
            },
            None => {},
        }
        results
    }

    /// Sets the text of a node: text, CDATA and comment nodes take the new
    /// content; an element loses its children, which become unlinked, and
    /// gets one new text child.
    pub fn set_text_content(&mut self, node_id: NodeId, text: &str) -> (r: Result<(), XmlError>)
        requires
            old(self).wf(),
        ensures
            final(self).wf(),
            r matches Err(e) ==> final(self)@ == old(self)@ && (e is NodeError || (e is SecurityLimitExceeded
                && old(self)@.len() == u32::MAX)),
            !old(self)@.valid(node_id as int) ==> r is Err,
            old(self)@.valid(node_id as int) ==> match old(self)@.nodes[node_id as int].kind {
                KindV::Text(_) => r is Ok && final(self)@ == old(self)@.with_nodes(old(self)@.nodes.update(
                    node_id as int, with_kind(old(self)@.nodes[node_id as int], KindV::Text(text@)))),
                KindV::CData(_) => r is Ok && final(self)@ == old(self)@.with_nodes(old(self)@.nodes.update(
                    node_id as int, with_kind(old(self)@.nodes[node_id as int], KindV::CData(text@)))),
                KindV::Comment(_) => r is Ok && final(self)@ == old(self)@.with_nodes(old(self)@.nodes.update(
                    node_id as int, with_kind(old(self)@.nodes[node_id as int], KindV::Comment(text@)))),
                KindV::Element { .. } => (r is Ok <==> old(self)@.len() < u32::MAX) && (r is Ok
                    ==> final(self)@ == old(self)@.with_nodes(
                    with_text_child(old(self)@.nodes, node_id as int, text@))),
                _ => r is Err,
            },
    {
        let idx = node_id as usize;
        if idx >= self.nodes.len() {
            return Err(XmlError::NodeError("Invalid Node ID".to_string()));
        }
        let t = string_from_chars(&str_chars(text));
        let ghost n0 = self@.nodes;
        let is_elem = self.nodes[idx].kind.is_element();
        if is_elem {
            if self.nodes.len() >= 0xFFFF_FFFFusize {
                return Err(XmlError::SecurityLimitExceeded("Node arena capacity exceeded".to_string()));
            }
            let old_children = self.nodes[idx].children.clone();
            assert(old_children@ =~= n0[idx as int].children);
            let mut k: usize = 0;
            while k < old_children.len()
                invariant
                    k <= old_children@.len(),
                    old_children@ == n0[idx as int].children,
                    idx < n0.len(),
                    n0.len() <= u32::MAX,
                    n0.len() == self.nodes@.len(),
                    forall|i: int, j: int| 0 <= i < n0.len() && 0 <= j < n0[i].children.len() ==> #[trigger] n0[i].children[j] < n0.len(),
                    self@.nodes == orphaned(n0, old_children@.take(k as int)),
                    self.root_id == old(self).root_id,
                    self.prolog_id == old(self).prolog_id,
                    self.declaration_id == old(self).declaration_id,
                    self.dtd_id == old(self).dtd_id,
                decreases old_children@.len() - k,
            {
                let c = old_children[k] as usize;
                let ghost prev = self@.nodes;
                self.nodes[c].parent = None;
                assert(self@.nodes =~= prev.update(c as int, with_parent(prev[c as int], None)));
                proof {
                    let t0 = old_children@.take(k as int);
                    let t1 = old_children@.take(k + 1);
                    assert(t1 == t0.push(old_children@[k as int]));
                    assert forall|i: int| 0 <= i < n0.len() implies #[trigger] self@.nodes[i] == orphaned(n0, t1)[i] by {
                        if i != c {
                            if t1.contains(i as NodeId) {
                                let w = choose|w: int| 0 <= w < t1.len() && t1[w] == i as NodeId;
                                assert(w < k);
                                assert(t0[w] == i as NodeId);
                            }
                            if t0.contains(i as NodeId) {
                                let w = choose|w: int| 0 <= w < t0.len() && t0[w] == i as NodeId;
                                assert(t1[w] == i as NodeId);
                            }
                        } else {
                            assert(t1[k as int] == i as NodeId);
                        }
                    }
                    assert(self@.nodes =~= orphaned(n0, t1));
                }
                k = k + 1;
            }
            assert(old_children@.take(old_children@.len() as int) == old_children@);
            let ghost n1 = self@.nodes;
            self.nodes[idx].children.clear();
            assert(self@.nodes =~= n1.update(idx as int, with_children(n1[idx as int], Seq::empty())));
            let text_node_id = self.add_node(NodeKind::Text(t));
            let ok = self.append_child(node_id, text_node_id);
            assert(ok is Ok);
            return Ok(());
        }
        let ok = match &mut self.nodes[idx].kind {
            NodeKind::Text(x) => { *x = t; true },
            NodeKind::CData(x) => { *x = t; true },
            NodeKind::Comment(x) => { *x = t; true },
            _ => false,
        };
        if ok {
            assert(self@.nodes =~= n0.update(idx as int, with_kind(n0[idx as int], self@.nodes[idx as int].kind)));
            Ok(())
        } else {
            assert(self@.nodes =~= n0);
            Err(XmlError::NodeError("Cannot set text content on this node type".to_string()))
        }
    }
}

impl Document {
    /// Marks the nodes reachable from the root and prolog containers.
    fn mark_reachable(&self) -> (marks: Vec<bool>)
        requires
            self.wf(),
        ensures
            marks@ == live(self@),
    {
        let ghost d = self@;
        let n = self.nodes.len();
        let mut marks: Vec<bool> = Vec::new();
        let mut i: usize = 0;
        while i < n
            invariant
                i <= n,
                marks@.len() == i,
                forall|x: int| 0 <= x < i ==> !#[trigger] marks@[x],
            decreases n - i,
        {
            marks.push(false);
            i = i + 1;
        }
        let mut stack: Vec<NodeId> = Vec::new();
        if let Some(r) = self.root_id {
            stack.push(r);
        }
        let ghost st_r = stack@;
        if let Some(p) = self.prolog_id {
            stack.push(p);
        }
        proof {
            if let Some(r) = d.root_id {
                assert(st_r == seq![r]);
                assert(stack@[0] == r);
                if (r as int) < n {
                    lemma_container_reachable(d, r);
                }
            }
            if let Some(p) = d.prolog_id {
                assert(stack@[stack@.len() - 1] == p);
                if (p as int) < n {
                    lemma_container_reachable(d, p);
                }
            }
        }
        while stack.len() > 0
            invariant
                d == self@,
                d.wf(),
                n == d.nodes.len(),
                marks@.len() == n,
                forall|x: int| 0 <= x < n && #[trigger] marks@[x] ==> reachable(d, x),
                forall|j: int|
                    0 <= j < stack@.len() && (stack@[j] as int) < n ==> reachable(d, #[trigger] stack@[j] as int),
                forall|x: int, c: int|
                    0 <= x < n && 0 <= c < d.nodes[x].children.len() && #[trigger] marks@[x] ==> marks@[
                        #[trigger] d.nodes[x].children[c] as int] || stack@.contains(d.nodes[x].children[c]),
                d.root_id matches Some(r) ==> ((r as int) < n ==> marks@[r as int] || stack@.contains(r)),
                d.prolog_id matches Some(p) ==> ((p as int) < n ==> marks@[p as int] || stack@.contains(p)),
            decreases count_false(marks@), stack@.len(),
        {
            proof {
                if let Some(r) = d.root_id {
                    if (r as int) < n {
                        lemma_container_reachable(d, r);
                    }
                }
                if let Some(p) = d.prolog_id {
                    if (p as int) < n {
                        lemma_container_reachable(d, p);
                    }
                }
            }
            let ghost st0 = stack@;
            let ghost m0 = marks@;
            let nid = stack.pop().unwrap();
            assert(stack@ =~= st0.drop_last());
            assert(nid == st0[st0.len() - 1]);
            let idx = nid as usize;
            if idx < n && !marks[idx] {
                marks.set(idx, true);
                proof {
                    lemma_count_false_set(m0, idx as int);
                }
                let node = &self.nodes[idx];
                let ghost cs = node.children@;
                assert(cs == d.nodes[idx as int].children);
                let ghost st1 = stack@;
                let mut j: usize = 0;
                while j < node.children.len()
                    invariant
                        d == self@,
                        d.wf(),
                        n == d.nodes.len(),
                        (idx as int) < n,
                        nid == idx,
                        reachable(d, idx as int),
                        cs == node.children@,
                        cs == d.nodes[idx as int].children,
                        j <= cs.len(),
                        stack@ == st1 + cs.take(j as int),
                        forall|q: int|
                            0 <= q < st1.len() && (st1[q] as int) < n ==> reachable(d, #[trigger] st1[q] as int),
                    decreases cs.len() - j,
                {
                    let c = node.children[j];
                    assert(cs.contains(c));
                    stack.push(c);
                    assert(stack@ =~= st1 + cs.take(j + 1));
                    j = j + 1;
                }
                proof {
                    assert(cs.take(cs.len() as int) =~= cs);
                    assert forall|q: int| 0 <= q < stack@.len() && (stack@[q] as int) < n implies reachable(
                        d,
                        #[trigger] stack@[q] as int,
                    ) by {
                        if q >= st1.len() {
                            let c = cs[q - st1.len()];
                            assert(stack@[q] == c);
                            assert(cs.contains(c));
                            lemma_child_reachable(d, idx as int, c);
                        } else {
                            assert(stack@[q] == st1[q]);
                        }
                    }
                    assert forall|x: int, c: int|
                        0 <= x < n && 0 <= c < d.nodes[x].children.len() && #[trigger] marks@[x] implies marks@[
                            #[trigger] d.nodes[x].children[c] as int] || stack@.contains(d.nodes[x].children[c]) by {
                        let y = d.nodes[x].children[c];
                        if x == idx {
                            assert(stack@[st1.len() + c] == y);
                        } else if y != nid && !m0[y as int] {
                            assert(st0.contains(y));
                            let w = choose|w: int| 0 <= w < st0.len() && st0[w] == y;
                            assert(w < st0.len() - 1);
                            assert(stack@[w] == y);
                        }
                    }
                    if let Some(r) = d.root_id {
                        if (r as int) < n && r != nid && !m0[r as int] {
                            let w = choose|w: int| 0 <= w < st0.len() && st0[w] == r;
                            assert(stack@[w] == r);
                        }
                    }
                    if let Some(p) = d.prolog_id {
                        if (p as int) < n && p != nid && !m0[p as int] {
                            let w = choose|w: int| 0 <= w < st0.len() && st0[w] == p;
                            assert(stack@[w] == p);
                        }
                    }
                }
            } else {
                proof {
                    assert forall|x: int, c: int|
                        0 <= x < n && 0 <= c < d.nodes[x].children.len() && #[trigger] marks@[x] implies marks@[
                            #[trigger] d.nodes[x].children[c] as int] || stack@.contains(d.nodes[x].children[c]) by {
                        let y = d.nodes[x].children[c];
                        if y != nid && !m0[y as int] {
                            let w = choose|w: int| 0 <= w < st0.len() && st0[w] == y;
                            assert(stack@[w] == y);
                        }
                    }
                    if let Some(r) = d.root_id {
                        if (r as int) < n && r != nid && !m0[r as int] {
                            let w = choose|w: int| 0 <= w < st0.len() && st0[w] == r;
                            assert(stack@[w] == r);
                        }
                    }
                    if let Some(p) = d.prolog_id {
                        if (p as int) < n && p != nid && !m0[p as int] {
                            let w = choose|w: int| 0 <= w < st0.len() && st0[w] == p;
                            assert(stack@[w] == p);
                        }
                    }
                }
            }
        }
        proof {
            assert(closed_under_children(d, marks@));
            assert(roots_marked(d, marks@));
            assert forall|x: int| 0 <= x < n implies #[trigger] marks@[x] == live(d)[x] by {
                if reachable(d, x) {
                    lemma_reachable_marked(d, marks@, x);
                }
            }
            assert(marks@ =~= live(d));
        }
        marks
    }

    /// Copies the marked nodes, in order, and numbers them.
    fn keep_marked(&self, marks: &Vec<bool>) -> (r: (Vec<Option<NodeId>>, Vec<NodeData>))
        requires
            self.wf(),
            marks@.len() == self@.nodes.len(),
        ensures
            r.0@.len() == marks@.len(),
            forall|x: int| 0 <= x < marks@.len() ==> #[trigger] r.0@[x] == remap(marks@, x as NodeId),
            r.1@.len() == kept(marks@).len(),
            forall|j: int| 0 <= j < r.1@.len() ==> #[trigger] r.1@[j]@ == self@.nodes[kept(marks@)[j]],
    {
        let ghost d = self@;
        let ghost m = marks@;
        let n = self.nodes.len();
        let mut id_map: Vec<Option<NodeId>> = Vec::new();
        let mut new_nodes: Vec<NodeData> = Vec::new();
        let mut i: usize = 0;
        assert(m.take(0) =~= Seq::<bool>::empty());
        while i < n
            invariant
                d == self@,
                d.wf(),
                m == marks@,
                n == d.nodes.len(),
                m.len() == n,
                i <= n,
                id_map@.len() == i,
                forall|x: int| 0 <= x < i ==> #[trigger] id_map@[x] == remap(m, x as NodeId),
                new_nodes@.len() == kept(m.take(i as int)).len(),
                new_nodes@.len() == count_true(m.take(i as int)),
                forall|j: int| 0 <= j < new_nodes@.len() ==> #[trigger] new_nodes@[j]@ == d.nodes[kept(m.take(i as int))[j]],
            decreases n - i,
        {
            let ghost t = m.take(i + 1);
            assert(t.drop_last() =~= m.take(i as int));
            assert(t.last() == m[i as int]);
            proof {
                crate::compaction::lemma_kept(m.take(i as int));
                crate::compaction::lemma_kept(t);
            }
            let ghost nn0 = new_nodes@;
            if marks[i] {
                let new_id = new_nodes.len() as NodeId;
                id_map.push(Some(new_id));
                let nd = &self.nodes[i];
                let copy = NodeData {
                    id: nd.id,
                    parent: nd.parent,
                    children: nd.children.clone(),
                    kind: crate::node::copy_kind(&nd.kind),
                };
                assert(copy@ == d.nodes[i as int]);
                new_nodes.push(copy);
                assert forall|j: int| 0 <= j < new_nodes@.len() implies #[trigger] new_nodes@[j]@ == d.nodes[kept(t)[j]] by {
                    if j < nn0.len() {
                        assert(new_nodes@[j] == nn0[j]);
                    }
                }
            } else {
                id_map.push(None);
                assert(kept(t) =~= kept(m.take(i as int)));
            }
            i = i + 1;
        }
        assert(m.take(n as int) =~= m);
        (id_map, new_nodes)
    }
}

/// The new number of old node `x`.
fn remap_id(x: NodeId, id_map: &Vec<Option<NodeId>>, Ghost(m): Ghost<Seq<bool>>) -> (r: Option<NodeId>)
    requires
        id_map@.len() == m.len(),
        m.len() <= u32::MAX,
        forall|y: int| 0 <= y < m.len() ==> #[trigger] id_map@[y] == remap(m, y as NodeId),
    ensures
        r == remap(m, x),
{
    if (x as usize) < id_map.len() {
        assert(id_map@[x as int] == remap(m, x));
        id_map[x as usize]
    } else {
        None
    }
}

/// A list of links renumbered, links to dropped nodes removed.
fn remap_ids(cs: &Vec<NodeId>, id_map: &Vec<Option<NodeId>>, Ghost(m): Ghost<Seq<bool>>) -> (r: Vec<NodeId>)
    requires
        id_map@.len() == m.len(),
        m.len() <= u32::MAX,
        forall|y: int| 0 <= y < m.len() ==> #[trigger] id_map@[y] == remap(m, y as NodeId),
    ensures
        r@ == remap_list(m, cs@),
{
    let mut out: Vec<NodeId> = Vec::new();
    let mut i: usize = 0;
    assert(cs@.take(0) =~= Seq::<NodeId>::empty());
    while i < cs.len()
        invariant
            id_map@.len() == m.len(),
            m.len() <= u32::MAX,
            forall|y: int| 0 <= y < m.len() ==> #[trigger] id_map@[y] == remap(m, y as NodeId),
            i <= cs@.len(),
            out@ == remap_list(m, cs@.take(i as int)),
        decreases cs@.len() - i,
    {
        assert(cs@.take(i + 1).drop_last() =~= cs@.take(i as int));
        assert(cs@.take(i + 1).last() == cs@[i as int]);
        let ghost o0 = out@;
        match remap_id(cs[i], id_map, Ghost(m)) {
            Some(y) => {
                out.push(y);
                assert(out@ =~= o0 + seq![y]);
            },
            None => {
                assert(out@ =~= o0 + Seq::<NodeId>::empty());
            },
        }
        i = i + 1;
    }
    assert(cs@.take(cs@.len() as int) =~= cs@);
    out
}

impl Document {
    /// Drops the nodes that cannot be reached from the root and prolog
    /// containers by child links, numbers the rest again in their old order,
    /// and renumbers every link, dropping links to nodes that went away.
    pub fn compact(&mut self) -> (r: Result<(), XmlError>)
        requires
            old(self).wf(),
        ensures
            final(self).wf(),
            r is Ok,
            final(self)@ == compacted(old(self)@),
    {
        let ghost d = self@;
        let marks = self.mark_reachable();
        let ghost m = marks@;
        let (id_map, mut new_nodes) = self.keep_marked(&marks);
        let ghost ks = kept(m);
        proof {
            crate::compaction::lemma_kept(m);
        }
        let len = new_nodes.len();
        let mut j: usize = 0;
        while j < len
            invariant
                d == self@,
                d.wf(),
                m == live(d),
                m.len() == d.nodes.len(),
                ks == kept(m),
                ks.len() == count_true(m),
                forall|q: int| 0 <= q < ks.len() ==> 0 <= #[trigger] ks[q] < m.len() && m[ks[q]] && count_true(m.take(ks[q])) == q,
                id_map@.len() == m.len(),
                forall|y: int| 0 <= y < m.len() ==> #[trigger] id_map@[y] == remap(m, y as NodeId),
                len == ks.len(),
                len <= m.len(),
                new_nodes@.len() == len,
                j <= len,
                forall|q: int| 0 <= q < j ==> #[trigger] new_nodes@[q]@ == moved(m, d.nodes[ks[q]], q),
                forall|q: int| j <= q < len ==> #[trigger] new_nodes@[q]@ == d.nodes[ks[q]],
            decreases len - j,
        {
            let old_id = new_nodes[j].id;
            assert(new_nodes@[j as int]@ == d.nodes[ks[j as int]]);
            assert(d.nodes[ks[j as int]].id == ks[j as int]);
            assert(old_id == ks[j as int]);
            assert(id_map@[old_id as int] == remap(m, old_id));
            assert(count_true(m.take(ks[j as int])) == j);
            let new_id = id_map[old_id as usize].unwrap();
            assert(new_id == j);
            let parent = match new_nodes[j].parent {
                Some(p) => remap_id(p, &id_map, Ghost(m)),
                None => None,
            };
            let children = remap_ids(&new_nodes[j].children, &id_map, Ghost(m));
            let ghost before = new_nodes@;
            new_nodes[j].id = new_id;
            new_nodes[j].parent = parent;
            new_nodes[j].children = children;
            assert forall|q: int| 0 <= q < j + 1 implies #[trigger] new_nodes@[q]@ == moved(m, d.nodes[ks[q]], q) by {
                if q < j {
                    assert(new_nodes@[q] == before[q]);
                }
            }
            assert forall|q: int| j + 1 <= q < len implies #[trigger] new_nodes@[q]@ == d.nodes[ks[q]] by {
                assert(new_nodes@[q] == before[q]);
            }
            j = j + 1;
        }
        let root_id = match self.root_id {
            Some(x) => remap_id(x, &id_map, Ghost(m)),
            None => None,
        };
        let prolog_id = match self.prolog_id {
            Some(x) => remap_id(x, &id_map, Ghost(m)),
            None => None,
        };
        let declaration_id = match self.declaration_id {
            Some(x) => remap_id(x, &id_map, Ghost(m)),
            None => None,
        };
        let dtd_id = match self.dtd_id {
            Some(x) => remap_id(x, &id_map, Ghost(m)),
            None => None,
        };
        self.nodes = new_nodes;
        self.root_id = root_id;
        self.prolog_id = prolog_id;
        self.declaration_id = declaration_id;
        self.dtd_id = dtd_id;
        proof {
            let c = compacted(d);
            assert(self@.nodes =~= c.nodes);
            assert forall|q: int, k: int|
                0 <= q < self@.nodes.len() && 0 <= k < self@.nodes[q].children.len() implies #[trigger] self@.nodes[q].children[k]
                < self@.nodes.len() by {
                crate::compaction::lemma_remap_list_below(m, d.nodes[ks[q]].children);
            }
            assert forall|q: int| 0 <= q < self@.nodes.len() implies (#[trigger] self@.nodes[q].parent matches Some(p) ==> p
                < self@.nodes.len()) by {
                if let Some(p) = d.nodes[ks[q]].parent {
                    if (p as int) < m.len() && m[p as int] {
                        crate::compaction::lemma_rank_below(m, p as int);
                    }
                }
            }
        }
        Ok(())
    }
}

impl Document {
    /// Whether following child links from `id` ends within `fuel` levels.
    fn bounded_within(&self, id: NodeId, fuel: usize) -> (r: bool)
        ensures
            r == self@.bounded(id as int, fuel as nat),
        decreases fuel,
    {
        match self.get_node(id) {
            None => false,
            Some(node) => {
                if fuel == 0 {
                    node.children.len() == 0
                } else {
                    let mut k: usize = 0;
                    while k < node.children.len()
                        invariant
                            fuel > 0,
                            node@ == self@.nodes[id as int],
                            self@.valid(id as int),
                            k <= node.children@.len(),
                            forall|j: int| 0 <= j < k ==> self@.bounded(#[trigger] node.children@[j] as int, (fuel - 1) as nat),
                        decreases node.children@.len() - k,
                    {
                        if !self.bounded_within(node.children[k], fuel - 1) {
                            assert(self@.nodes[id as int].children[k as int] == node.children@[k as int]);
                            return false;
                        }
                        k = k + 1;
                    }
                    true
                }
            },
        }
    }

    /// Whether `id` is a node below which no cycle of child links is reachable.
    pub fn acyclic_below(&self, id: NodeId) -> (r: bool)
        ensures
            r == self@.acyclic_below(id as int),
    {
        self.bounded_within(id, self.nodes.len())
    }

    /// Whether the chain of parent links from `id` ends without a cycle.
    pub fn ancestors_finite(&self, id: NodeId) -> (r: bool)
        ensures
            r == self@.ancestors_finite(id as int),
    {
        let ghost d = self@;
        let mut curr = id;
        let mut f: usize = self.nodes.len();
        loop
            invariant
                d == self@,
                d.ancestors_finite(id as int) == d.parents_bounded(curr as int, f as nat),
            decreases f,
        {
            match self.get_node(curr) {
                None => {
                    return true;
                },
                Some(node) => match node.parent {
                    None => {
                        return true;
                    },
                    Some(p) => {
                        if f == 0 {
                            return false;
                        }
                        curr = p;
                        f = f - 1;
                    },
                },
            }
        }
    }
}

} // verus!
