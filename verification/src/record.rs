//! An element read as a record of named fields (its attributes, then its
//! child elements, each under its name), and the text an element holds
//! directly: what reading a value out of XML walks.

use vstd::prelude::*;
use crate::document::{DocV, Document};
use crate::node::{AttrV, KindV, NodeId, NodeKind};
use crate::text::push_str;

verus! {

/// Where the value of a field comes from: an attribute's text, or a child
/// element.
#[derive(Debug, Clone, PartialEq, Eq)]
pub enum FieldSource {
    Text(String),
    Element(NodeId),
}

/// The abstract content of a field's source.
pub enum SourceV {
    Text(Seq<char>),
    Element(NodeId),
}

impl View for FieldSource {
    type V = SourceV;

    open spec fn view(&self) -> SourceV {
        match self {
            FieldSource::Text(t) => SourceV::Text(t@),
            FieldSource::Element(id) => SourceV::Element(*id),
        }
    }
}

/// The abstract content of a list of fields.
pub open spec fn fields_view(v: Seq<(String, FieldSource)>) -> Seq<(Seq<char>, SourceV)> {
    v.map_values(|f: (String, FieldSource)| (f.0@, f.1@))
}

/// The fields of attributes: each under its name, with its value.
pub open spec fn attr_fields(attrs: Seq<AttrV>) -> Seq<(Seq<char>, SourceV)> {
    attrs.map_values(|a: AttrV| (a.name, SourceV::Text(a.value)))
}

/// The fields of the elements among `cs`: each under its name, in order.
pub open spec fn child_fields(d: DocV, cs: Seq<NodeId>) -> Seq<(Seq<char>, SourceV)>
    decreases cs.len(),
{
    if cs.len() == 0 {
        Seq::empty()
    } else {
        let prev = child_fields(d, cs.drop_last());
        let c = cs.last();
        if d.valid(c as int) {
            match d.nodes[c as int].kind {
                KindV::Element { name, .. } => prev.push((name, SourceV::Element(c))),
                _ => prev,
            }
        } else {
            prev
        }
    }
}

/// The fields of the record that `id` is: its attributes first, then its
/// child elements (none when `id` addresses no node).
pub open spec fn record_fields_of(d: DocV, id: int) -> Seq<(Seq<char>, SourceV)> {
    if !d.valid(id) {
        Seq::empty()
    } else {
        let own = match d.nodes[id].kind {
            KindV::Element { attributes, .. } => attr_fields(attributes),
            _ => Seq::empty(),
        };
        own + child_fields(d, d.children_of(id))
    }
}

/// The text of the text nodes among `cs`, in order.
pub open spec fn texts_of(d: DocV, cs: Seq<NodeId>) -> Seq<char>
    decreases cs.len(),
{
    if cs.len() == 0 {
        Seq::empty()
    } else {
        let c = cs.last();
        texts_of(d, cs.drop_last()) + if d.valid(c as int) {
            match d.nodes[c as int].kind {
                KindV::Text(t) => t,
                _ => Seq::empty(),
            }
        } else {
            Seq::empty()
        }
    }
}

/// Whether `id` reads as a record rather than as text: an element with
/// attributes, or a node with an element among its children.
pub open spec fn is_record_of(d: DocV, id: int) -> bool {
    d.valid(id) && ((d.nodes[id].kind matches KindV::Element { attributes, .. } && attributes.len()
        > 0) || d.element_children(d.children_of(id)).len() > 0)
}

/// The fields of the record that `id` is: its attributes first, then its
/// child elements.
pub fn record_fields(doc: &Document, id: NodeId) -> (r: Vec<(String, FieldSource)>)
    ensures
        fields_view(r@) == record_fields_of(doc@, id as int),
{
    let mut out: Vec<(String, FieldSource)> = Vec::new();
    let node = match doc.get_node(id) {
        Some(n) => n,
        None => {
            assert(fields_view(out@) =~= Seq::<(Seq<char>, SourceV)>::empty());
            return out;
        },
    };
    let ghost d = doc@;
    match &node.kind {
        NodeKind::Element { attributes, .. } => {
            let mut k: usize = 0;
            while k < attributes.len()
                invariant
                    k <= attributes@.len(),
                    fields_view(out@) == attr_fields(crate::node::attrs_view(attributes@.take(k as int))),
                decreases attributes@.len() - k,
            {
                let a = &attributes[k];
                let ghost before = out@;
                out.push((a.name.clone(), FieldSource::Text(a.value.clone())));
                proof {
                    assert(attributes@.take(k + 1) =~= attributes@.take(k as int).push(attributes@[k as int]));
                    assert(fields_view(out@) =~= fields_view(before).push((a.name@, SourceV::Text(a.value@))));
                    assert(attr_fields(crate::node::attrs_view(attributes@.take(k + 1))) =~= attr_fields(
                        crate::node::attrs_view(attributes@.take(k as int)),
                    ).push((a.name@, SourceV::Text(a.value@))));
                }
                k = k + 1;
            }
            assert(attributes@.take(attributes@.len() as int) =~= attributes@);
        },
        _ => {
            assert(fields_view(out@) =~= Seq::<(Seq<char>, SourceV)>::empty());
        },
    }
    let ghost own = fields_view(out@);
    assert(own == match d.nodes[id as int].kind {
        KindV::Element { attributes, .. } => attr_fields(attributes),
        _ => Seq::empty(),
    });
    let ghost cs = node.children@;
    assert(cs == d.children_of(id as int));
    let mut i: usize = 0;
    assert(cs.take(0) =~= Seq::<NodeId>::empty());
    while i < node.children.len()
        invariant
            d == doc@,
            cs == node.children@,
            i <= cs.len(),
            fields_view(out@) == own + child_fields(d, cs.take(i as int)),
        decreases cs.len() - i,
    {
        let c = node.children[i];
        let ghost before = out@;
        match doc.get_node(c) {
            Some(cn) => match &cn.kind {
                NodeKind::Element { name, .. } => {
                    out.push((name.clone(), FieldSource::Element(c)));
                    assert(fields_view(out@) =~= fields_view(before).push((name@, SourceV::Element(c))));
                },
                _ => {},
            },
            None => {},
        }
        proof {
            assert(cs.take(i + 1).drop_last() =~= cs.take(i as int));
            assert(own + child_fields(d, cs.take(i as int)) == fields_view(before));
        }
        i = i + 1;
    }
    assert(cs.take(cs.len() as int) =~= cs);
    out
}

/// The text that the text nodes among the children of `id` hold, in
/// order.
pub fn direct_text(doc: &Document, id: NodeId) -> (r: String)
    ensures
        r@ == texts_of(doc@, doc@.children_of(id as int)),
{
    let children = doc.get_children(id);
    let mut out = String::new();
    let mut i: usize = 0;
    assert(children@.take(0) =~= Seq::<NodeId>::empty());
    while i < children.len()
        invariant
            i <= children@.len(),
            children@ == doc@.children_of(id as int),
            out@ == texts_of(doc@, children@.take(i as int)),
        decreases children@.len() - i,
    {
        let c = children[i];
        let ghost before = out@;
        match doc.get_node(c) {
            Some(cn) => match &cn.kind {
                NodeKind::Text(t) => {
                    push_str(&mut out, t.as_str());
                },
                _ => {},
            },
            None => {},
        }
        proof {
            assert(children@.take(i + 1).drop_last() =~= children@.take(i as int));
        }
        i = i + 1;
    }
    assert(children@.take(children@.len() as int) =~= children@);
    out
}

/// Whether `id` reads as a record rather than as text: an element with
/// attributes, or a node with an element among its children.
pub fn is_record(doc: &Document, id: NodeId) -> (r: bool)
    ensures
        r == is_record_of(doc@, id as int),
{
    let node = match doc.get_node(id) {
        Some(n) => n,
        None => {
            return false;
        },
    };
    let has_attrs = match &node.kind {
        NodeKind::Element { attributes, .. } => attributes.len() > 0,
        _ => false,
    };
    let elems = doc.get_element_children(id);
    has_attrs || elems.len() > 0
}

} // verus!
