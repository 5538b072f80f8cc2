//! What reading a document gives back after it was changed: attributes
//! set and removed, children linked, text replaced, prefixes declared.

use vstd::prelude::*;
use crate::document::{link_child, with_attribute_removed, with_attribute_set, with_text_child, DocV};
use crate::namespace::{level_lookup, resolve_spec, scopes_lookup, Binding};
use crate::node::{attr_find, attr_find_from, attr_value, lemma_attr_find_from_range, AttrV, KindV, NodeId};
use crate::tree::distinct_names;

verus! {

/// The first match of a name is the one a search finds.
proof fn lemma_first_match(attrs: Seq<AttrV>, name: Seq<char>, j: int)
    requires
        0 <= j < attrs.len(),
        attrs[j].name == name,
        forall|k: int| 0 <= k < j ==> attrs[k].name != name,
    ensures
        attr_find(attrs, name) == Some(j),
{
    lemma_attr_find_from_range(attrs, name, 0);
    match attr_find(attrs, name) {
        Some(j2) => {
            if j2 < j {
                assert(attrs[j2].name != name);
            }
            if j2 > j {
                assert(attrs[j].name != name);
            }
        },
        None => {
            assert(attrs[j].name != name);
        },
    }
}

/// Setting an attribute leaves every other name where it was found.
proof fn lemma_set_keeps_other_names(attrs: Seq<AttrV>, name: Seq<char>, value: Seq<char>, other: Seq<char>)
    requires
        other != name,
    ensures
        attr_value(crate::node::attrs_set(attrs, name, value), other) == attr_value(attrs, other),
{
    let s = crate::node::attrs_set(attrs, name, value);
    lemma_attr_find_from_range(attrs, other, 0);
    lemma_attr_find_from_range(s, other, 0);
    lemma_attr_find_from_range(attrs, name, 0);
    match attr_find(attrs, name) {
        Some(i) => {
            assert(forall|k: int| 0 <= k < attrs.len() ==> #[trigger] s[k].name == attrs[k].name);
            assert(forall|k: int| 0 <= k < attrs.len() && k != i ==> #[trigger] s[k].value == attrs[k].value);
            match attr_find(attrs, other) {
                Some(j) => {
                    assert forall|k: int| 0 <= k < j implies s[k].name != other by {
                        assert(s[k].name == attrs[k].name);
                    }
                    lemma_first_match(s, other, j);
                    assert(j != i);
                },
                None => {
                    if let Some(j2) = attr_find(s, other) {
                        assert(s[j2].name == attrs[j2].name);
                    }
                },
            }
        },
        None => {
            assert(forall|k: int| 0 <= k < attrs.len() ==> #[trigger] s[k] == attrs[k]);
            match attr_find(attrs, other) {
                Some(j) => {
                    assert forall|k: int| 0 <= k < j implies s[k].name != other by {
                        assert(s[k] == attrs[k]);
                    }
                    lemma_first_match(s, other, j);
                },
                None => {
                    if let Some(j2) = attr_find(s, other) {
                        if j2 < attrs.len() {
                            assert(s[j2] == attrs[j2]);
                        } else {
                            assert(s[attrs.len() as int].name == name);
                        }
                    }
                },
            }
        },
    }
}

/// An attribute set on an element reads back as the value set; the other
/// attributes of the element read as before.
pub proof fn law_attribute_read_after_set(d: DocV, id: NodeId, name: Seq<char>, value: Seq<char>, other: Seq<char>)
    requires
        d.is_element(id as int),
    ensures
        with_attribute_set(d, id, name, value).attribute(id as int, name) == Some(value),
        other != name ==> with_attribute_set(d, id, name, value).attribute(id as int, other) == d.attribute(
            id as int,
            other,
        ),
{
    let attrs = d.nodes[id as int].kind->Element_attributes;
    let s = crate::node::attrs_set(attrs, name, value);
    let d2 = with_attribute_set(d, id, name, value);
    assert(d2.nodes[id as int].kind == KindV::Element { name: d.nodes[id as int].kind->Element_name, attributes: s });
    lemma_attr_find_from_range(attrs, name, 0);
    lemma_attr_find_from_range(s, name, 0);
    match attr_find(attrs, name) {
        Some(i) => {
            assert forall|k: int| 0 <= k < i implies s[k].name != name by {
                assert(s[k] == attrs[k]);
            }
            lemma_first_match(s, name, i);
        },
        None => {
            assert forall|k: int| 0 <= k < attrs.len() implies s[k].name != name by {
                assert(s[k] == attrs[k]);
            }
            lemma_first_match(s, name, attrs.len() as int);
        },
    }
    if other != name {
        lemma_set_keeps_other_names(attrs, name, value, other);
    }
}

/// An attribute removed from an element whose attribute names differ no
/// longer reads.
pub proof fn law_attribute_gone_after_remove(d: DocV, id: NodeId, name: Seq<char>)
    requires
        d.is_element(id as int),
        distinct_names(d.nodes[id as int].kind->Element_attributes),
    ensures
        with_attribute_removed(d, id, name).attribute(id as int, name) is None,
{
    let attrs = d.nodes[id as int].kind->Element_attributes;
    let s = crate::node::attrs_remove(attrs, name);
    let d2 = with_attribute_removed(d, id, name);
    assert(d2.nodes[id as int].kind == KindV::Element { name: d.nodes[id as int].kind->Element_name, attributes: s });
    lemma_attr_find_from_range(attrs, name, 0);
    lemma_attr_find_from_range(s, name, 0);
    match attr_find(attrs, name) {
        Some(i) => {
            if let Some(j) = attr_find(s, name) {
                if j < i {
                    assert(s[j] == attrs[j]);
                } else {
                    assert(s[j] == attrs[j + 1]);
                    assert(attrs[i].name == attrs[j + 1].name);
                }
            }
        },
        None => {},
    }
}

/// A child linked under a parent points to the parent and is listed, once,
/// among its children.
pub proof fn law_linked_child(d: DocV, p: NodeId, c: NodeId)
    requires
        d.valid(p as int),
        d.valid(c as int),
    ensures
        link_child(d.nodes, p as int, c as int)[c as int].parent == Some(p) || p == c,
        link_child(d.nodes, p as int, c as int)[p as int].children.contains(c),
{
    let n1 = d.nodes.update(c as int, crate::document::with_parent(d.nodes[c as int], Some(p)));
    if !n1[p as int].children.contains(c) {
        let r = link_child(d.nodes, p as int, c as int);
        assert(r[p as int].children.last() == c);
        assert(r[p as int].children[r[p as int].children.len() - 1] == c);
    }
}

/// The text set on an element reads back as its text content.
pub proof fn law_text_read_after_set(d: DocV, id: NodeId, text: Seq<char>, fuel: nat)
    requires
        d.wf(),
        d.is_element(id as int),
        d.nodes.len() < u32::MAX,
    ensures
        d.with_nodes(with_text_child(d.nodes, id as int, text)).text_content(id as int, fuel) == text,
{
    let d2 = d.with_nodes(with_text_child(d.nodes, id as int, text));
    let n = d.nodes.len() as int;
    assert(d2.nodes[id as int].children =~= seq![n as NodeId]);
    assert(d2.nodes[n].kind == KindV::Text(text));
    assert(d2.nodes[id as int].kind is Element);
    assert(d2.children_text(id as int, 0, fuel) == Seq::<char>::empty());
    assert(d2.children_text(id as int, 1, fuel) =~= text);
}

/// A lookup over the levels below the innermost one ignores it.
proof fn lemma_lookup_lower(a: Seq<Seq<Binding>>, b: Seq<Seq<Binding>>, key: Seq<char>, k: int)
    requires
        a.drop_last() == b.drop_last(),
        a.len() == b.len(),
        k < a.len(),
    ensures
        scopes_lookup(a, key, k) == scopes_lookup(b, key, k),
    decreases k,
{
    if k > 0 {
        assert(a[k - 1] == a.drop_last()[k - 1]);
        assert(b[k - 1] == b.drop_last()[k - 1]);
        lemma_lookup_lower(a, b, key, k - 1);
    }
}

/// A prefix declared in the innermost scope resolves to the declared URI
/// (to nothing for an empty URI, which undeclares it); other prefixes
/// resolve as before.
pub proof fn law_declared_prefix_resolves(
    before: Seq<Seq<Binding>>,
    after: Seq<Seq<Binding>>,
    key: Seq<char>,
    uri: Seq<char>,
    other: Seq<char>,
)
    requires
        before.len() >= 1,
        after.len() == before.len(),
        after.drop_last() == before.drop_last(),
        forall|k: Seq<char>|
            #![trigger level_lookup(after.last(), k, 0)]
            level_lookup(after.last(), k, 0) == if k == key {
                Some(uri)
            } else {
                level_lookup(before.last(), k, 0)
            },
    ensures
        resolve_spec(after, key) == if uri.len() == 0 {
            None::<Seq<char>>
        } else {
            Some(uri)
        },
        other != key ==> resolve_spec(after, other) == resolve_spec(before, other),
{
    let n = after.len() as int;
    assert(after[n - 1] == after.last());
    assert(level_lookup(after.last(), key, 0) == Some(uri));
    if other != key {
        assert(level_lookup(after.last(), other, 0) == level_lookup(before.last(), other, 0));
        assert(before[n - 1] == before.last());
        lemma_lookup_lower(after, before, other, n - 1);
    }
}

/// Where a parent lists each child once and every child it lists points
/// back to it, the sibling before a node has that node as its next sibling,
/// and the sibling after it has it as its previous sibling.
pub proof fn law_siblings_inverse(d: DocV, x: NodeId, p: NodeId)
    requires
        d.parent_of(x as int) == Some(p),
        d.valid(p as int),
        d.nodes[p as int].children.no_duplicates(),
        forall|j: int|
            0 <= j < d.nodes[p as int].children.len() ==> d.parent_of(#[trigger] d.nodes[p as int].children[j] as int)
                == Some(p),
    ensures
        d.previous_sibling(x as int) matches Some(y) ==> d.next_sibling(y as int) == Some(x),
        d.next_sibling(x as int) matches Some(y) ==> d.previous_sibling(y as int) == Some(x),
{
    let cs = d.nodes[p as int].children;
    crate::seqs::lemma_find_from(cs, x, 0);
    if let Some(pos) = crate::seqs::find_first(cs, x) {
        if pos > 0 {
            let y = cs[pos - 1];
            crate::seqs::lemma_find_from(cs, y, 0);
            assert(d.parent_of(y as int) == Some(p));
            if let Some(q) = crate::seqs::find_first(cs, y) {
                assert(q == pos - 1);
            }
        }
        if pos + 1 < cs.len() {
            let y = cs[pos + 1];
            crate::seqs::lemma_find_from(cs, y, 0);
            assert(d.parent_of(y as int) == Some(p));
            if let Some(q) = crate::seqs::find_first(cs, y) {
                assert(q == pos + 1);
            }
        }
    }
}

} // verus!
