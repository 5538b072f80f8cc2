//! Nodes of the document arena: attributes, node kinds and node records.

use vstd::prelude::*;
use crate::text::{string_from_chars, str_chars};

verus! {

/// Index of a node within the arena of a [`crate::document::Document`].
pub type NodeId = u32;

/// Key-value attribute pair on an element tag.
#[derive(Debug, Clone, PartialEq, Eq)]
pub struct Attribute {
    /// Attribute name (e.g. `id`, `xmlns:xs`).
    pub name: String,
    /// Attribute value.
    pub value: String,
}

/// The abstract content of an attribute: its name and its value.
pub struct AttrV {
    pub name: Seq<char>,
    pub value: Seq<char>,
}

impl View for Attribute {
    type V = AttrV;

    open spec fn view(&self) -> AttrV {
        AttrV { name: self.name@, value: self.value@ }
    }
}

/// The abstract content of a sequence of attributes.
pub open spec fn attrs_view(attrs: Seq<Attribute>) -> Seq<AttrV> {
    attrs.map_values(|a: Attribute| a@)
}

/// The first index at or after `i` whose attribute has the given name.
pub open spec fn attr_find_from(attrs: Seq<AttrV>, name: Seq<char>, i: int) -> Option<int>
    decreases attrs.len() - i,
{
    if i < 0 || i >= attrs.len() {
        None
    } else if attrs[i].name == name {
        Some(i)
    } else {
        attr_find_from(attrs, name, i + 1)
    }
}

/// The index of the first attribute with the given name.
pub open spec fn attr_find(attrs: Seq<AttrV>, name: Seq<char>) -> Option<int> {
    attr_find_from(attrs, name, 0)
}

/// The value of the first attribute with the given name.
pub open spec fn attr_value(attrs: Seq<AttrV>, name: Seq<char>) -> Option<Seq<char>> {
    match attr_find(attrs, name) {
        Some(i) => Some(attrs[i].value),
        None => None,
    }
}

/// The attributes after setting `name` to `value`: the first attribute of that
/// name takes the new value, or a new attribute is appended.
pub open spec fn attrs_set(attrs: Seq<AttrV>, name: Seq<char>, value: Seq<char>) -> Seq<AttrV> {
    match attr_find(attrs, name) {
        Some(i) => attrs.update(i, AttrV { name: name, value: value }),
        None => attrs.push(AttrV { name: name, value: value }),
    }
}

/// The attributes after removing the first attribute named `name`.
pub open spec fn attrs_remove(attrs: Seq<AttrV>, name: Seq<char>) -> Seq<AttrV> {
    match attr_find(attrs, name) {
        Some(i) => attrs.remove(i),
        None => attrs,
    }
}

/// Facts about searching from a position.
pub proof fn lemma_attr_find_from_range(attrs: Seq<AttrV>, name: Seq<char>, i: int)
    requires
        0 <= i,
    ensures
        attr_find_from(attrs, name, i) matches Some(j) ==> i <= j < attrs.len() && attrs[j].name
            == name && forall|k: int| i <= k < j ==> attrs[k].name != name,
        attr_find_from(attrs, name, i) is None ==> forall|k: int|
            i <= k < attrs.len() ==> attrs[k].name != name,
    decreases attrs.len() - i,
{
    if i < attrs.len() && attrs[i].name != name {
        lemma_attr_find_from_range(attrs, name, i + 1);
    }
}

/// All node variants.
#[derive(Debug, Clone, PartialEq, Eq)]
pub enum NodeKind {
    /// Top-level prolog container.
    Prolog,
    /// XML declaration.
    Declaration { version: String, encoding: Option<String>, standalone: Option<bool> },
    /// Top-level root container.
    Root,
    /// Element tag.
    Element { name: String, attributes: Vec<Attribute> },
    /// Text content.
    Text(String),
    /// CDATA section.
    CData(String),
    /// Comment.
    Comment(String),
    /// Processing instruction.
    ProcessingInstruction { target: String, data: String },
    /// DOCTYPE definition.
    DocTypeDefinition {
        name: String,
        public_id: Option<String>,
        system_id: Option<String>,
        internal_subset: Option<String>,
    },
    /// Entity reference.
    EntityReference(String),
}

/// The abstract content of a node kind.
pub enum KindV {
    Prolog,
    Declaration { version: Seq<char>, encoding: Option<Seq<char>>, standalone: Option<bool> },
    Root,
    Element { name: Seq<char>, attributes: Seq<AttrV> },
    Text(Seq<char>),
    CData(Seq<char>),
    Comment(Seq<char>),
    ProcessingInstruction { target: Seq<char>, data: Seq<char> },
    DocTypeDefinition {
        name: Seq<char>,
        public_id: Option<Seq<char>>,
        system_id: Option<Seq<char>>,
        internal_subset: Option<Seq<char>>,
    },
    EntityReference(Seq<char>),
}

/// The view of an optional string.
pub open spec fn opt_view(s: Option<String>) -> Option<Seq<char>> {
    match s {
        Some(x) => Some(x@),
        None => None,
    }
}

impl View for NodeKind {
    type V = KindV;

    open spec fn view(&self) -> KindV {
        match self {
            NodeKind::Prolog => KindV::Prolog,
            NodeKind::Declaration { version, encoding, standalone } => KindV::Declaration {
                version: version@,
                encoding: opt_view(*encoding),
                standalone: *standalone,
            },
            NodeKind::Root => KindV::Root,
            NodeKind::Element { name, attributes } => KindV::Element {
                name: name@,
                attributes: attrs_view(attributes@),
            },
            NodeKind::Text(t) => KindV::Text(t@),
            NodeKind::CData(t) => KindV::CData(t@),
            NodeKind::Comment(t) => KindV::Comment(t@),
            NodeKind::ProcessingInstruction { target, data } => KindV::ProcessingInstruction {
                target: target@,
                data: data@,
            },
            NodeKind::DocTypeDefinition { name, public_id, system_id, internal_subset } =>
                KindV::DocTypeDefinition {
                name: name@,
                public_id: opt_view(*public_id),
                system_id: opt_view(*system_id),
                internal_subset: opt_view(*internal_subset),
            },
            NodeKind::EntityReference(n) => KindV::EntityReference(n@),
        }
    }
}

impl KindV {
    /// The name a node kind reports: the tag, target or entity name, or a
    /// fixed label for the other kinds.
    pub open spec fn name(self) -> Seq<char> {
        match self {
            KindV::Element { name, .. } => name,
            KindV::ProcessingInstruction { target, .. } => target,
            KindV::DocTypeDefinition { name, .. } => name,
            KindV::EntityReference(n) => n,
            KindV::Declaration { .. } => "xml"@,
            KindV::CData(_) => "#cdata"@,
            KindV::Comment(_) => "#comment"@,
            KindV::Text(_) => "#text"@,
            KindV::Prolog => "#prolog"@,
            KindV::Root => "#document"@,
        }
    }

    /// The value of an attribute of an element; `None` for other kinds.
    pub open spec fn attribute(self, target: Seq<char>) -> Option<Seq<char>> {
        match self {
            KindV::Element { attributes, .. } => attr_value(attributes, target),
            _ => None,
        }
    }
}

impl Attribute {
    /// Creates an attribute from a name and a value.
    pub fn new(name: &str, value: &str) -> (r: Self)
        ensures
            r@.name == name@,
            r@.value == value@,
    {
        let n = str_chars(name);
        let v = str_chars(value);
        Attribute { name: string_from_chars(&n), value: string_from_chars(&v) }
    }
}

/// The position of the first attribute named `target`, found by a scan.
pub(crate) fn find_attr_index(attributes: &Vec<Attribute>, target: &str) -> (r: Option<usize>)
    ensures
        r matches Some(i) ==> attr_find(attrs_view(attributes@), target@) == Some(i as int) && i
            < attributes@.len() && attributes@[i as int].name@ == target@,
        r is None ==> attr_find(attrs_view(attributes@), target@) is None,
{
    proof {
        lemma_attr_find_from_range(attrs_view(attributes@), target@, 0);
    }
    let ghost av = attrs_view(attributes@);
    let t = str_chars(target);
    let mut i: usize = 0;
    while i < attributes.len()
        invariant
            i <= attributes@.len(),
            av == attrs_view(attributes@),
            t@ == target@,
            attr_find(av, target@) == attr_find_from(av, target@, i as int),
        decreases attributes@.len() - i,
    {
        let n = str_chars(attributes[i].name.as_str());
        if crate::text::chars_eq(&n, &t) {
            return Some(i);
        }
        i = i + 1;
    }
    None
}

impl NodeKind {
    /// The element name or a label of the node kind.
    pub fn name(&self) -> (r: &str)
        ensures
            r@ == self@.name(),
    {
        match self {
            NodeKind::Element { name, .. } => name.as_str(),
            NodeKind::ProcessingInstruction { target, .. } => target.as_str(),
            NodeKind::DocTypeDefinition { name, .. } => name.as_str(),
            NodeKind::EntityReference(name) => name.as_str(),
            NodeKind::Declaration { .. } => "xml",
            NodeKind::CData(_) => "#cdata",
            NodeKind::Comment(_) => "#comment",
            NodeKind::Text(_) => "#text",
            NodeKind::Prolog => "#prolog",
            NodeKind::Root => "#document",
        }
    }

    /// The value of the first attribute named `target`, for an element.
    pub fn get_attribute<'a>(&'a self, target: &str) -> (r: Option<&'a str>)
        ensures
            r matches Some(v) ==> self@.attribute(target@) == Some(v@),
            r is None ==> self@.attribute(target@) is None,
    {
        match self {
            NodeKind::Element { attributes, .. } => {
                match find_attr_index(attributes, target) {
                    Some(i) => Some(attributes[i].value.as_str()),
                    None => None,
                }
            },
            _ => None,
        }
    }

    /// Whether this is an element carrying an attribute named `target`.
    pub fn has_attribute(&self, target: &str) -> (r: bool)
        ensures
            r == self@.attribute(target@) is Some,
    {
        self.get_attribute(target).is_some()
    }

    /// Sets an attribute of an element: the first attribute of that name is
    /// overwritten, or a new one appended. Returns `false` for other kinds.
    pub fn set_attribute(&mut self, name: &str, value: &str) -> (r: bool)
        ensures
            r == old(self)@ is Element,
            r ==> final(self)@ == (KindV::Element {
                name: old(self)@->Element_name,
                attributes: attrs_set(old(self)@->Element_attributes, name@, value@),
            }),
            !r ==> *final(self) == *old(self),
    {
        match self {
            NodeKind::Element { attributes, .. } => {
                let ghost old_av = attrs_view(attributes@);
                match find_attr_index(attributes, name) {
                    Some(i) => {
                        let v = str_chars(value);
                        let n = str_chars(name);
                        attributes.set(i, Attribute { name: string_from_chars(&n), value: string_from_chars(&v) });
                        assert(attrs_view(attributes@) =~= old_av.update(i as int, AttrV { name: name@, value: value@ }));
                    },
                    None => {
                        attributes.push(Attribute::new(name, value));
                        assert(attrs_view(attributes@) =~= old_av.push(AttrV { name: name@, value: value@ }));
                    },
                }
                true
            },
            _ => false,
        }
    }

    /// Removes the first attribute named `target` of an element; returns
    /// whether one was removed.
    pub fn remove_attribute(&mut self, target: &str) -> (r: bool)
        ensures
            r == (old(self)@.attribute(target@) is Some),
            r ==> final(self)@ == (KindV::Element {
                name: old(self)@->Element_name,
                attributes: attrs_remove(old(self)@->Element_attributes, target@),
            }),
            !r ==> *final(self) == *old(self),
    {
        match self {
            NodeKind::Element { attributes, .. } => {
                let ghost old_av = attrs_view(attributes@);
                match find_attr_index(attributes, target) {
                    Some(i) => {
                        attributes.remove(i);
                        assert(attrs_view(attributes@) =~= old_av.remove(i as int));
                        true
                    },
                    None => false,
                }
            },
            _ => false,
        }
    }

    /// Whether this is an element.
    pub fn is_element(&self) -> (r: bool)
        ensures
            r == self@ is Element,
    {
        matches!(self, NodeKind::Element { .. })
    }

    /// Whether this is a text node.
    pub fn is_text(&self) -> (r: bool)
        ensures
            r == self@ is Text,
    {
        matches!(self, NodeKind::Text(_))
    }

    /// Whether this is a comment.
    pub fn is_comment(&self) -> (r: bool)
        ensures
            r == self@ is Comment,
    {
        matches!(self, NodeKind::Comment(_))
    }

    /// Whether this is a CDATA section.
    pub fn is_cdata(&self) -> (r: bool)
        ensures
            r == self@ is CData,
    {
        matches!(self, NodeKind::CData(_))
    }

    /// Whether this is a processing instruction.
    pub fn is_processing_instruction(&self) -> (r: bool)
        ensures
            r == self@ is ProcessingInstruction,
    {
        matches!(self, NodeKind::ProcessingInstruction { .. })
    }
}

/// A node record: its identity, parent link, child links and payload.
#[derive(Debug, Clone, PartialEq, Eq)]
pub struct NodeData {
    /// Arena index of the node.
    pub id: NodeId,
    /// Parent node, if linked.
    pub parent: Option<NodeId>,
    /// Child nodes, in order.
    pub children: Vec<NodeId>,
    /// Kind and payload.
    pub kind: NodeKind,
}

/// The abstract content of a node record.
pub struct NodeV {
    pub id: NodeId,
    pub parent: Option<NodeId>,
    pub children: Seq<NodeId>,
    pub kind: KindV,
}

impl View for NodeData {
    type V = NodeV;

    open spec fn view(&self) -> NodeV {
        NodeV { id: self.id, parent: self.parent, children: self.children@, kind: self.kind@ }
    }
}

impl NodeData {
    /// A node with the given id and kind, no parent and no children.
    pub fn new(id: NodeId, kind: NodeKind) -> (r: Self)
        ensures
            r.id == id,
            r.parent is None,
            r.children@ == Seq::<NodeId>::empty(),
            r.kind == kind,
    {
        NodeData { id, parent: None, children: Vec::new(), kind }
    }
}

} // verus!

verus! {

/// A copy of an optional string.
fn copy_opt(s: &Option<String>) -> (r: Option<String>)
    ensures
        opt_view(r) == opt_view(*s),
{
    match s {
        Some(x) => Some(x.clone()),
        None => None,
    }
}

/// A copy of a list of attributes.
pub fn copy_attributes(attrs: &Vec<Attribute>) -> (r: Vec<Attribute>)
    ensures
        attrs_view(r@) == attrs_view(attrs@),
{
    let mut out: Vec<Attribute> = Vec::new();
    let mut i: usize = 0;
    while i < attrs.len()
        invariant
            i <= attrs@.len(),
            attrs_view(out@) == attrs_view(attrs@.take(i as int)),
        decreases attrs@.len() - i,
    {
        let a = Attribute { name: attrs[i].name.clone(), value: attrs[i].value.clone() };
        let ghost prev = out@;
        out.push(a);
        assert(out@ == prev.push(a));
        assert(attrs_view(out@) =~= attrs_view(prev).push(a@));
        assert(attrs@.take(i + 1) =~= attrs@.take(i as int).push(attrs@[i as int]));
        assert(attrs_view(attrs@.take(i + 1)) =~= attrs_view(attrs@.take(i as int)).push(
            attrs@[i as int]@,
        ));
        i = i + 1;
    }
    assert(attrs@.take(attrs@.len() as int) =~= attrs@);
    out
}

/// A copy of a node kind with the same content.
pub fn copy_kind(k: &NodeKind) -> (r: NodeKind)
    ensures
        r@ == k@,
{
    match k {
        NodeKind::Prolog => NodeKind::Prolog,
        NodeKind::Declaration { version, encoding, standalone } => NodeKind::Declaration {
            version: version.clone(),
            encoding: copy_opt(encoding),
            standalone: *standalone,
        },
        NodeKind::Root => NodeKind::Root,
        NodeKind::Element { name, attributes } => NodeKind::Element {
            name: name.clone(),
            attributes: copy_attributes(attributes),
        },
        NodeKind::Text(t) => NodeKind::Text(t.clone()),
        NodeKind::CData(t) => NodeKind::CData(t.clone()),
        NodeKind::Comment(t) => NodeKind::Comment(t.clone()),
        NodeKind::ProcessingInstruction { target, data } => NodeKind::ProcessingInstruction {
            target: target.clone(),
            data: data.clone(),
        },
        NodeKind::DocTypeDefinition { name, public_id, system_id, internal_subset } =>
            NodeKind::DocTypeDefinition {
            name: name.clone(),
            public_id: copy_opt(public_id),
            system_id: copy_opt(system_id),
            internal_subset: copy_opt(internal_subset),
        },
        NodeKind::EntityReference(n) => NodeKind::EntityReference(n.clone()),
    }
}

} // verus!
