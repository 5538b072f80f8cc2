//! Reading schema components out of a parsed schema document: element
//! declarations, complex types, model groups, attribute declarations and
//! restriction facets.

use vstd::prelude::*;
use crate::document::{DocV, Document};
use crate::node::{KindV, NodeId, NodeKind};
use crate::numbers::{parse_i64, parse_i64_spec, parse_usize, parse_usize_spec};
use crate::text::{chars_eq, str_chars, string_from_chars};
use crate::textops::{pieces, split_chars};
use crate::xsd::validator::{local_name, Compositor, XsdAttributeRule, XsdComplexType, XsdElementRule, XsdRestriction, XsdV, XsdValidator};

verus! {

/// The abstract content of a set of facets.
pub struct RestrV {
    pub min_inclusive: Option<i64>,
    pub max_inclusive: Option<i64>,
    pub min_length: Option<usize>,
    pub max_length: Option<usize>,
    pub enumerations: Seq<Seq<char>>,
    pub pattern: Option<Seq<char>>,
}

/// The text of an optional string.
pub open spec fn opt_text(s: Option<String>) -> Option<Seq<char>> {
    match s {
        Some(x) => Some(x@),
        None => None,
    }
}

/// The text of an optional string slice.
pub open spec fn opt_str(s: Option<&str>) -> Option<Seq<char>> {
    match s {
        Some(x) => Some(x@),
        None => None,
    }
}

impl View for XsdRestriction {
    type V = RestrV;

    open spec fn view(&self) -> RestrV {
        RestrV {
            min_inclusive: self.min_inclusive,
            max_inclusive: self.max_inclusive,
            min_length: self.min_length,
            max_length: self.max_length,
            enumerations: self.enumerations@.map_values(|s: String| s@),
            pattern: opt_text(self.pattern),
        }
    }
}

/// The local name of node `id` when it addresses an element.
pub open spec fn local_of(d: DocV, id: int) -> Option<Seq<char>> {
    if d.valid(id) {
        match d.nodes[id].kind {
            KindV::Element { name, .. } => Some(local_name(name)),
            _ => None,
        }
    } else {
        None
    }
}

/// The value of attribute `name` on node `id`, or `dflt` when it has none.
pub open spec fn attr_or(d: DocV, id: int, name: Seq<char>, dflt: Seq<char>) -> Seq<char> {
    match d.attribute(id, name) {
        Some(v) => v,
        None => dflt,
    }
}

/// Occurrence bounds from the `minOccurs` and `maxOccurs` values: one by
/// default, the lower bound also where its value is no number, no upper
/// bound for `unbounded` or a value that is no number.
pub open spec fn occurs_of(min: Option<Seq<char>>, max: Option<Seq<char>>) -> (usize, Option<usize>) {
    let lo = match min {
        Some(s) => match parse_usize_spec(s) {
            Some(v) => v,
            None => 1,
        },
        None => 1,
    };
    let hi = match max {
        Some(s) => if s == "unbounded"@ {
            None
        } else {
            parse_usize_spec(s)
        },
        None => Some(1),
    };
    (lo, hi)
}

/// The ids among `cs` that address elements with local name `ln`, in order.
pub open spec fn named_children(d: DocV, cs: Seq<NodeId>, ln: Seq<char>) -> Seq<NodeId>
    decreases cs.len(),
{
    if cs.len() == 0 {
        Seq::empty()
    } else {
        named_children(d, cs.drop_last(), ln) + if local_of(d, cs.last() as int) == Some(ln) {
            seq![cs.last()]
        } else {
            Seq::empty()
        }
    }
}

/// The first child of `id` that is an element with local name `ln`.
pub open spec fn first_named(d: DocV, id: int, ln: Seq<char>) -> Option<NodeId> {
    let n = named_children(d, d.children_of(id), ln);
    if n.len() > 0 {
        Some(n[0])
    } else {
        None
    }
}

/// The base type that the restriction of the inline simple type of
/// declaration `id` names, when it names one.
pub open spec fn inline_base(d: DocV, id: int) -> Option<Seq<char>> {
    match first_named(d, id, "simpleType"@) {
        Some(st) => match first_named(d, st as int, "restriction"@) {
            Some(rs) => match d.attribute(rs as int, "base"@) {
                Some(b) => if b.len() > 0 {
                    Some(b)
                } else {
                    None
                },
                None => None,
            },
            None => None,
        },
        None => None,
    }
}

/// The compositor a model group element's local name stands for.
pub open spec fn compositor_of(ln: Seq<char>) -> Option<Compositor> {
    if ln == "sequence"@ {
        Some(Compositor::Sequence)
    } else if ln == "choice"@ {
        Some(Compositor::Choice)
    } else if ln == "all"@ {
        Some(Compositor::All)
    } else {
        None
    }
}

/// The last model group among `cs`, with its compositor.
pub open spec fn last_group(d: DocV, cs: Seq<NodeId>) -> Option<(NodeId, Compositor)>
    decreases cs.len(),
{
    if cs.len() == 0 {
        None
    } else {
        match local_of(d, cs.last() as int) {
            Some(ln) => match compositor_of(ln) {
                Some(k) => Some((cs.last(), k)),
                None => last_group(d, cs.drop_last()),
            },
            None => last_group(d, cs.drop_last()),
        }
    }
}

/// The nodes below and including `id` in the order the facet search takes
/// them: a node, then the subtrees of its children from the last to the first.
pub open spec fn visit_order(d: DocV, id: int) -> Seq<NodeId>
    decreases d.nodes.len() - id, 1int, 0int,
{
    if !d.valid(id) {
        Seq::empty()
    } else {
        seq![id as NodeId] + visit_children(d, id, d.nodes[id].children, d.nodes[id].children.len() as int)
    }
}

/// The subtrees of `cs[k-1]`, ..., `cs[0]`, children of `id`, in facet-search order.
pub open spec fn visit_children(d: DocV, id: int, cs: Seq<NodeId>, k: int) -> Seq<NodeId>
    decreases d.nodes.len() - id, 0int, k,
{
    if k <= 0 || k > cs.len() || !d.valid(id) {
        Seq::empty()
    } else {
        (if id < cs[k - 1] && d.valid(cs[k - 1] as int) {
            visit_order(d, cs[k - 1] as int)
        } else {
            Seq::empty()
        }) + visit_children(d, id, cs, k - 1)
    }
}

/// No facet.
pub open spec fn no_facets() -> RestrV {
    RestrV {
        min_inclusive: None,
        max_inclusive: None,
        min_length: None,
        max_length: None,
        enumerations: Seq::empty(),
        pattern: None,
    }
}

/// The facets after node `n` is taken into account.
pub open spec fn facet_step(r: RestrV, d: DocV, n: int) -> RestrV {
    match local_of(d, n) {
        Some(ln) => match d.attribute(n, "value"@) {
            Some(v) => if ln == "minInclusive"@ {
                match parse_i64_spec(v) {
                    Some(x) => RestrV { min_inclusive: Some(x), ..r },
                    None => r,
                }
            } else if ln == "maxInclusive"@ {
                match parse_i64_spec(v) {
                    Some(x) => RestrV { max_inclusive: Some(x), ..r },
                    None => r,
                }
            } else if ln == "minLength"@ {
                match parse_usize_spec(v) {
                    Some(x) => RestrV { min_length: Some(x), ..r },
                    None => r,
                }
            } else if ln == "maxLength"@ {
                match parse_usize_spec(v) {
                    Some(x) => RestrV { max_length: Some(x), ..r },
                    None => r,
                }
            } else if ln == "enumeration"@ {
                RestrV { enumerations: r.enumerations.push(v), ..r }
            } else if ln == "pattern"@ {
                RestrV { pattern: Some(v), ..r }
            } else {
                r
            },
            None => r,
        },
        None => r,
    }
}

/// The facets the nodes of `order` declare, taken in order.
pub open spec fn facets_over(d: DocV, order: Seq<NodeId>) -> RestrV
    decreases order.len(),
{
    if order.len() == 0 {
        no_facets()
    } else {
        facet_step(facets_over(d, order.drop_last()), d, order.last() as int)
    }
}

/// Whether `ar` is the attribute rule that declaration `a` makes.
pub open spec fn attribute_rule_of(d: DocV, a: int, ar: XsdAttributeRule) -> bool {
    &&& ar.name@ == attr_or(d, a, "name"@, Seq::empty())
    &&& ar.attr_type@ == attr_or(d, a, "type"@, "xs:string"@)
    &&& ar.required == (attr_or(d, a, "use"@, "optional"@) == "required"@)
    &&& opt_text(ar.default) == d.attribute(a, "default"@)
}

/// Whether `r` is the element rule that declaration `id` makes.
pub open spec fn rule_of(d: DocV, id: int, r: XsdElementRule) -> bool
    decreases d.nodes.len() - id,
{
    let t = attr_or(d, id, "type"@, Seq::empty());
    &&& r.name@ == attr_or(d, id, "name"@, Seq::empty())
    &&& r.elem_type@ == (if t.len() == 0 {
        match inline_base(d, id) {
            Some(b) => b,
            None => "xs:string"@,
        }
    } else {
        t
    })
    &&& (r.min_occurs, r.max_occurs) == occurs_of(d.attribute(id, "minOccurs"@), d.attribute(id, "maxOccurs"@))
    &&& r.restriction@ == facets_over(d, visit_order(d, id))
    &&& match first_named(d, id, "complexType"@) {
        Some(c) => match r.complex_type {
            Some(ct) => id < c < d.nodes.len() ==> type_body_of(d, c as int, ct),
            None => false,
        },
        None => r.complex_type is None,
    }
}

/// Whether `ct` has the model group, element rules and attribute rules that
/// complex type declaration `id` makes.
pub open spec fn type_body_of(d: DocV, id: int, ct: XsdComplexType) -> bool
    decreases d.nodes.len() - id,
{
    let cs = d.children_of(id);
    let attrs = named_children(d, cs, "attribute"@);
    &&& ct.attributes@.len() == attrs.len()
    &&& forall|i: int| 0 <= i < attrs.len() ==> attribute_rule_of(d, attrs[i] as int, #[trigger] ct.attributes@[i])
    &&& match last_group(d, cs) {
        Some((g, k)) => ct.compositor == Some(k) && (id < g < d.nodes.len() ==> group_of(d, g as int, ct.elements@)),
        None => ct.compositor is None && ct.elements@.len() == 0,
    }
}

/// Whether `es` are the element rules that the declarations in model group
/// `g` make, in order.
pub open spec fn group_of(d: DocV, g: int, es: Seq<XsdElementRule>) -> bool
    decreases d.nodes.len() - g,
{
    let ids = named_children(d, d.children_of(g), "element"@);
    &&& es.len() == ids.len()
    &&& forall|i: int| 0 <= i < ids.len() ==> (g < ids[i] < d.nodes.len() ==> rule_of(d, ids[i] as int, #[trigger] es[i]))
}

/// What reading a schema has gathered so far: the names of all element
/// rules, the declarations of the element rules added, and the declarations
/// of the complex types added, each in the order they were added.
pub struct SchemaRead {
    pub names: Seq<Seq<char>>,
    pub rules: Seq<NodeId>,
    pub types: Seq<NodeId>,
}

/// The names of a list of element rules.
pub open spec fn rule_names(rules: Seq<XsdElementRule>) -> Seq<Seq<char>> {
    rules.map_values(|r: XsdElementRule| r.name@)
}

/// Adds the element declarations `es` whose names no rule has yet.
pub open spec fn add_absent(d: DocV, st: SchemaRead, es: Seq<NodeId>) -> SchemaRead
    decreases es.len(),
{
    if es.len() == 0 {
        st
    } else {
        let s1 = add_absent(d, st, es.drop_last());
        let n = attr_or(d, es.last() as int, "name"@, Seq::empty());
        if s1.names.contains(n) {
            s1
        } else {
            SchemaRead { names: s1.names.push(n), rules: s1.rules.push(es.last()), types: s1.types }
        }
    }
}

/// Adds the element declarations of the model group of complex type
/// declaration `t` whose names no rule has yet.
pub open spec fn add_members(d: DocV, st: SchemaRead, t: int) -> SchemaRead {
    match last_group(d, d.children_of(t)) {
        Some((g, _)) => add_absent(d, st, named_children(d, d.children_of(g as int), "element"@)),
        None => st,
    }
}

/// What a top-level schema component `c` adds: a named complex type with
/// the missing element rules of its group, or a named element rule after the
/// missing element rules of its own complex type's group.
pub open spec fn read_component(d: DocV, st: SchemaRead, c: int) -> SchemaRead {
    match local_of(d, c) {
        Some(ln) => if ln == "complexType"@ {
            match d.attribute(c, "name"@) {
                Some(_) => {
                    let s1 = add_members(d, st, c);
                    SchemaRead { names: s1.names, rules: s1.rules, types: s1.types.push(c as NodeId) }
                },
                None => st,
            }
        } else if ln == "element"@ {
            let n = attr_or(d, c, "name"@, Seq::empty());
            if n.len() == 0 {
                st
            } else {
                let s1 = match first_named(d, c, "complexType"@) {
                    Some(t) => add_members(d, st, t as int),
                    None => st,
                };
                SchemaRead { names: s1.names.push(n), rules: s1.rules.push(c as NodeId), types: s1.types }
            }
        } else {
            st
        },
        None => st,
    }
}

/// What the top-level components `cs` add, in order.
pub open spec fn read_components(d: DocV, st: SchemaRead, cs: Seq<NodeId>) -> SchemaRead
    decreases cs.len(),
{
    if cs.len() == 0 {
        st
    } else {
        read_component(d, read_components(d, st, cs.drop_last()), cs.last() as int)
    }
}

/// Whether `v` is `v0` with the element rules and complex types that `st`
/// records as added, and `st` records the names of all of `v`'s rules.
pub open spec fn tracks(d: DocV, v0: XsdV, st: SchemaRead, v: XsdV) -> bool {
    &&& st.names == rule_names(v.elements)
    &&& v.elements.len() == v0.elements.len() + st.rules.len()
    &&& v.elements.take(v0.elements.len() as int) == v0.elements
    &&& forall|i: int|
        0 <= i < st.rules.len() ==> rule_of(d, st.rules[i] as int, #[trigger] v.elements[v0.elements.len() + i])
    &&& v.complex_types.len() == v0.complex_types.len() + st.types.len()
    &&& v.complex_types.take(v0.complex_types.len() as int) == v0.complex_types
    &&& forall|i: int|
        0 <= i < st.types.len() ==> {
            let ct = #[trigger] v.complex_types[v0.complex_types.len() + i];
            &&& type_body_of(d, st.types[i] as int, ct)
            &&& ct.name@ == attr_or(d, st.types[i] as int, "name"@, Seq::empty())
        }
}

/// Nothing read yet over the rules of `v0`.
pub open spec fn read_start(v0: XsdV) -> SchemaRead {
    SchemaRead { names: rule_names(v0.elements), rules: Seq::empty(), types: Seq::empty() }
}

/// Whether `v1` is `v0` with the element rules and complex types that
/// reading the top-level components of schema root `root` adds: element
/// rules are appended (a later rule for a name takes precedence), the rules
/// of a group are appended only under names no rule has yet.
pub open spec fn schema_read(d: DocV, root: int, v0: XsdV, v1: XsdV) -> bool {
    tracks(d, v0, read_components(d, read_start(v0), d.children_of(root)), v1)
}

/// The last model group among the children of `t`.
pub(crate) fn last_group_child(doc: &Document, t: NodeId) -> (r: Option<NodeId>)
    ensures
        match last_group(doc@, doc@.children_of(t as int)) {
            Some((g, _)) => r == Some(g),
            None => r is None,
        },
        r matches Some(g) ==> doc@.children_of(t as int).contains(g),
{
    let ghost d = doc@;
    match doc.get_node(t) {
        Some(node) => {
            let ghost cs = node.children@;
            let mut k: usize = node.children.len();
            assert(cs.take(k as int) =~= cs);
            while k > 0
                invariant
                    d == doc@,
                    cs == node.children@,
                    cs == d.children_of(t as int),
                    k <= cs.len(),
                    last_group(d, cs) == last_group(d, cs.take(k as int)),
                decreases k,
            {
                let c = node.children[k - 1];
                assert(cs.take(k as int).drop_last() =~= cs.take(k - 1));
                assert(cs.take(k as int).last() == c);
                proof {
                    lemma_group_names();
                }
                let hit = match local_at(doc, c) {
                    Some(ln) => spells(&ln, "sequence") || spells(&ln, "choice") || spells(&ln, "all"),
                    None => false,
                };
                if hit {
                    assert(cs[k - 1] == c);
                    return Some(c);
                }
                k = k - 1;
            }
            None
        },
        None => {
            assert(d.children_of(t as int) =~= Seq::<NodeId>::empty());
            None
        },
    }
}

/// The nodes still to visit for a stack of pending subtrees, the top first.
pub open spec fn pending(d: DocV, st: Seq<NodeId>) -> Seq<NodeId>
    decreases st.len(),
{
    if st.len() == 0 {
        Seq::empty()
    } else {
        visit_order(d, st.last() as int) + pending(d, st.drop_last())
    }
}

/// The matches among a prefix of a list come first among the matches of the list.
proof fn lemma_named_prefix(d: DocV, cs: Seq<NodeId>, m: int, ln: Seq<char>)
    requires
        0 <= m <= cs.len(),
    ensures
        named_children(d, cs.take(m), ln).len() <= named_children(d, cs, ln).len(),
        named_children(d, cs, ln).take(named_children(d, cs.take(m), ln).len() as int) == named_children(
            d,
            cs.take(m),
            ln,
        ),
    decreases cs.len(),
{
    if m == cs.len() {
        assert(cs.take(m) =~= cs);
        assert(named_children(d, cs, ln).take(named_children(d, cs, ln).len() as int) =~= named_children(d, cs, ln));
    } else {
        assert(cs.drop_last().take(m) =~= cs.take(m));
        lemma_named_prefix(d, cs.drop_last(), m, ln);
        let a = named_children(d, cs.drop_last(), ln);
        let n = named_children(d, cs.take(m), ln).len() as int;
        assert((a + if local_of(d, cs.last() as int) == Some(ln) {
            seq![cs.last()]
        } else {
            Seq::empty()
        }).take(n) =~= a.take(n));
    }
}

/// Every match is one of the listed ids.
proof fn lemma_named_in(d: DocV, cs: Seq<NodeId>, ln: Seq<char>, i: int)
    requires
        0 <= i < named_children(d, cs, ln).len(),
    ensures
        cs.contains(named_children(d, cs, ln)[i]),
        local_of(d, named_children(d, cs, ln)[i] as int) == Some(ln),
    decreases cs.len(),
{
    let a = named_children(d, cs.drop_last(), ln);
    if i < a.len() {
        lemma_named_in(d, cs.drop_last(), ln, i);
        let x = a[i];
        let j = choose|j: int| 0 <= j < cs.drop_last().len() && cs.drop_last()[j] == x;
        assert(cs[j] == x);
    } else {
        assert(cs[cs.len() - 1] == cs.last());
    }
}

/// The model group names differ from each other and from `attribute`.
proof fn lemma_group_names()
    ensures
        "sequence"@ != "attribute"@,
        "choice"@ != "attribute"@,
        "all"@ != "attribute"@,
        "sequence"@ != "choice"@,
        "sequence"@ != "all"@,
        "choice"@ != "all"@,
{
    reveal_strlit("sequence");
    reveal_strlit("choice");
    reveal_strlit("all");
    reveal_strlit("attribute");
    assert("sequence"@.len() == 8);
    assert("choice"@.len() == 6);
    assert("all"@.len() == 3);
    assert("attribute"@.len() == 9);
}

/// A copy of a string slice.
pub(crate) fn owned(s: &str) -> (r: String)
    ensures
        r@ == s@,
{
    string_from_chars(&str_chars(s))
}

/// The part of a name after its last `:` (the whole name when it has none).
pub(crate) fn local_part(name: &str) -> (r: Vec<char>)
    ensures
        r@ == local_name(name@),
{
    let cs = str_chars(name);
    let mut parts = split_chars(&cs, ':');
    assert(pieces(cs@, ':').len() > 0);
    assert(parts@.len() > 0);
    let ghost n = parts@.len();
    let last = parts.pop().unwrap();
    assert(last@ == pieces(cs@, ':')[n - 1]);
    last
}

/// The local name of node `id` when it addresses an element.
pub(crate) fn local_at(doc: &Document, id: NodeId) -> (r: Option<Vec<char>>)
    ensures
        match r {
            Some(v) => local_of(doc@, id as int) == Some(v@),
            None => local_of(doc@, id as int) is None,
        },
{
    match doc.get_node(id) {
        Some(n) => match &n.kind {
            NodeKind::Element { name, .. } => Some(local_part(name.as_str())),
            _ => None,
        },
        None => None,
    }
}

/// Whether the characters spell `lit`.
pub(crate) fn spells(ln: &Vec<char>, lit: &str) -> (r: bool)
    ensures
        r == (ln@ == lit@),
{
    let lc = str_chars(lit);
    chars_eq(ln.as_slice(), lc.as_slice())
}

/// The base type of the restriction of the inline simple type of `id`.
fn inline_base_of(doc: &Document, id: NodeId) -> (r: Option<String>)
    ensures
        (match r {
            Some(b) => Some(b@),
            None => None,
        }) == inline_base(doc@, id as int),
{
    match first_named_child(doc, id, "simpleType") {
        Some(st) => match first_named_child(doc, st, "restriction") {
            Some(rs) => match doc.get_attribute(rs, "base") {
                Some(b) => {
                    let bc = str_chars(b);
                    if bc.len() > 0 {
                        Some(owned(b))
                    } else {
                        None
                    }
                },
                None => None,
            },
            None => None,
        },
        None => None,
    }
}

/// The first child of `id` that is an element with local name `ln`.
pub(crate) fn first_named_child(doc: &Document, id: NodeId, ln: &str) -> (r: Option<NodeId>)
    ensures
        r == first_named(doc@, id as int, ln@),
        r matches Some(c) ==> doc@.children_of(id as int).contains(c),
{
    let ghost d = doc@;
    match doc.get_node(id) {
        Some(node) => {
            let ghost cs = node.children@;
            assert(cs == d.children_of(id as int));
            let mut k: usize = 0;
            assert(cs.take(0) =~= Seq::<NodeId>::empty());
            while k < node.children.len()
                invariant
                    d == doc@,
                    cs == node.children@,
                    cs == d.children_of(id as int),
                    k <= cs.len(),
                    named_children(d, cs.take(k as int), ln@).len() == 0,
                decreases cs.len() - k,
            {
                let c = node.children[k];
                assert(cs.take(k + 1).drop_last() =~= cs.take(k as int));
                assert(cs.take(k + 1).last() == c);
                let hit = match local_at(doc, c) {
                    Some(l) => spells(&l, ln),
                    None => false,
                };
                if hit {
                    proof {
                        lemma_named_prefix(d, cs, k + 1, ln@);
                        assert(named_children(d, cs.take(k + 1), ln@) =~= seq![c]);
                        assert(cs[k as int] == c);
                        assert(named_children(d, cs, ln@).take(1)[0] == c);
                        assert(cs.contains(c));
                    }
                    return Some(c);
                }
                k = k + 1;
            }
            assert(cs.take(cs.len() as int) =~= cs);
            None
        },
        None => {
            assert(d.children_of(id as int) =~= Seq::<NodeId>::empty());
            None
        },
    }
}

impl XsdValidator {
    /// Occurrence bounds from `minOccurs` and `maxOccurs` values.
    pub(crate) fn parse_occurs(min_str: Option<&str>, max_str: Option<&str>) -> (r: (usize, Option<usize>))
        ensures
            r == occurs_of(opt_str(min_str), opt_str(max_str)),
    {
        let min = match min_str {
            Some(s) => match parse_usize(str_chars(s).as_slice()) {
                Some(v) => v,
                None => 1,
            },
            None => 1,
        };
        let max = match max_str {
            Some(s) => if crate::text::str_eq(s, "unbounded") {
                None
            } else {
                parse_usize(str_chars(s).as_slice())
            },
            None => Some(1),
        };
        (min, max)
    }

    /// The attribute rule that declaration `attr_id` makes.
    pub(crate) fn parse_attribute_node(&self, doc: &Document, attr_id: NodeId) -> (r: XsdAttributeRule)
        ensures
            attribute_rule_of(doc@, attr_id as int, r),
    {
        let name = match doc.get_attribute(attr_id, "name") {
            Some(s) => owned(s),
            None => String::new(),
        };
        let attr_type = match doc.get_attribute(attr_id, "type") {
            Some(s) => owned(s),
            None => owned("xs:string"),
        };
        let use_val = match doc.get_attribute(attr_id, "use") {
            Some(s) => s,
            None => "optional",
        };
        let default = match doc.get_attribute(attr_id, "default") {
            Some(s) => Some(owned(s)),
            None => None,
        };
        XsdAttributeRule { name, attr_type, required: crate::text::str_eq(use_val, "required"), default }
    }

    /// The facets declared in the subtree of `elem_id`, searched from the
    /// node down, the children of each node from the last to the first.
    pub(crate) fn extract_restriction(&self, doc: &Document, elem_id: NodeId) -> (r: XsdRestriction)
        requires
            doc@.wf(),
            doc@.ordered(),
            doc@.valid(elem_id as int),
        ensures
            r@ == facets_over(doc@, visit_order(doc@, elem_id as int)),
    {
        let ghost d = doc@;
        let mut rest = XsdRestriction::default();
        assert(rest@.enumerations =~= Seq::<Seq<char>>::empty());
        let mut stack: Vec<NodeId> = Vec::new();
        stack.push(elem_id);
        let ghost mut done: Seq<NodeId> = Seq::empty();
        assert(stack@.drop_last() =~= Seq::<NodeId>::empty());
        assert(pending(d, stack@) =~= visit_order(d, elem_id as int) + pending(d, Seq::<NodeId>::empty()));
        assert(done + pending(d, stack@) =~= visit_order(d, elem_id as int));
        while stack.len() > 0
            invariant
                d == doc@,
                d.wf(),
                d.ordered(),
                done + pending(d, stack@) == visit_order(d, elem_id as int),
                rest@ == facets_over(d, done),
                forall|i: int| 0 <= i < stack@.len() ==> d.valid(#[trigger] stack@[i] as int),
            decreases pending(d, stack@).len(),
        {
            let ghost st0 = stack@;
            let nid = stack.pop().unwrap();
            let ghost rest0 = stack@;
            assert(st0.drop_last() =~= rest0);
            assert(d.valid(st0[st0.len() - 1] as int));
            let node = doc.get_node(nid).unwrap();
            let ghost cs = node.children@;
            let ghost before = rest@;
            match &node.kind {
                NodeKind::Element { name, .. } => {
                    let ln = local_part(name.as_str());
                    match doc.get_attribute(nid, "value") {
                        Some(v) => {
                            let vc = str_chars(v);
                            if spells(&ln, "minInclusive") {
                                if let Some(x) = parse_i64(vc.as_slice()) {
                                    rest.min_inclusive = Some(x);
                                }
                            } else if spells(&ln, "maxInclusive") {
                                if let Some(x) = parse_i64(vc.as_slice()) {
                                    rest.max_inclusive = Some(x);
                                }
                            } else if spells(&ln, "minLength") {
                                if let Some(x) = parse_usize(vc.as_slice()) {
                                    rest.min_length = Some(x);
                                }
                            } else if spells(&ln, "maxLength") {
                                if let Some(x) = parse_usize(vc.as_slice()) {
                                    rest.max_length = Some(x);
                                }
                            } else if spells(&ln, "enumeration") {
                                let ghost e0 = rest.enumerations@;
                                rest.enumerations.push(owned(v));
                                assert(rest.enumerations@.map_values(|s: String| s@) =~= e0.map_values(
                                    |s: String| s@,
                                ).push(v@));
                            } else if spells(&ln, "pattern") {
                                rest.pattern = Some(owned(v));
                            }
                        },
                        None => {},
                    }
                },
                _ => {},
            }
            assert(rest@ == facet_step(before, d, nid as int));
            proof {
                assert((done.push(nid)).drop_last() =~= done);
            }
            let mut j: usize = 0;
            assert(visit_children(d, nid as int, cs, 0) =~= Seq::<NodeId>::empty());
            assert(pending(d, stack@) =~= visit_children(d, nid as int, cs, 0) + pending(d, rest0));
            while j < node.children.len()
                invariant
                    d == doc@,
                    d.wf(),
                    d.ordered(),
                    d.valid(nid as int),
                    cs == node.children@,
                    cs == d.nodes[nid as int].children,
                    j <= cs.len(),
                    stack@ == rest0 + cs.take(j as int),
                    pending(d, stack@) == visit_children(d, nid as int, cs, j as int) + pending(d, rest0),
                    forall|i: int| 0 <= i < rest0.len() ==> d.valid(#[trigger] rest0[i] as int),
                decreases cs.len() - j,
            {
                let c = node.children[j];
                assert(nid < cs[j as int]);
                assert(d.valid(c as int));
                let ghost s0 = stack@;
                stack.push(c);
                assert(stack@.drop_last() =~= s0);
                assert(stack@ =~= rest0 + cs.take(j + 1));
                assert(pending(d, stack@) =~= visit_order(d, c as int) + visit_children(d, nid as int, cs, j as int)
                    + pending(d, rest0));
                j = j + 1;
            }
            proof {
                assert(cs.take(cs.len() as int) =~= cs);
                assert forall|i: int| 0 <= i < stack@.len() implies d.valid(#[trigger] stack@[i] as int) by {
                    if i >= rest0.len() {
                        assert(stack@[i] == cs[i - rest0.len()]);
                    }
                }
                assert(pending(d, st0) =~= visit_order(d, nid as int) + pending(d, rest0));
                assert(visit_order(d, nid as int) =~= seq![nid] + visit_children(d, nid as int, cs, cs.len() as int));
                assert(done.push(nid) + pending(d, stack@) =~= done + pending(d, st0));
                done = done.push(nid);
            }
        }
        rest
    }

    /// The element rule that declaration `node_id` makes.
    pub(crate) fn parse_element_node(&self, doc: &Document, node_id: NodeId) -> (r: XsdElementRule)
        requires
            doc@.wf(),
            doc@.ordered(),
            doc@.valid(node_id as int),
        ensures
            rule_of(doc@, node_id as int, r),
        decreases doc@.nodes.len() - node_id,
    {
        let ghost d = doc@;
        let elem_name = match doc.get_attribute(node_id, "name") {
            Some(s) => owned(s),
            None => String::new(),
        };
        let elem_type = match doc.get_attribute(node_id, "type") {
            Some(s) => owned(s),
            None => String::new(),
        };
        let (min_occurs, max_occurs) = Self::parse_occurs(
            doc.get_attribute(node_id, "minOccurs"),
            doc.get_attribute(node_id, "maxOccurs"),
        );
        let restriction = self.extract_restriction(doc, node_id);
        let complex_type = match first_named_child(doc, node_id, "complexType") {
            Some(c) => {
                proof {
                    let j = choose|j: int| 0 <= j < d.children_of(node_id as int).len() && d.children_of(
                        node_id as int,
                    )[j] == c;
                    assert(d.nodes[node_id as int].children[j] == c);
                }
                Some(self.parse_complex_type(doc, c))
            },
            None => None,
        };
        let elem_type = if str_chars(elem_type.as_str()).len() == 0 {
            match inline_base_of(doc, node_id) {
                Some(b) => b,
                None => owned("xs:string"),
            }
        } else {
            elem_type
        };
        XsdElementRule { name: elem_name, elem_type, min_occurs, max_occurs, restriction, complex_type }
    }

    /// The model group, element rules and attribute rules that complex type
    /// declaration `ct_id` makes, under an empty name.
    pub(crate) fn parse_complex_type(&self, doc: &Document, ct_id: NodeId) -> (ct: XsdComplexType)
        requires
            doc@.wf(),
            doc@.ordered(),
            doc@.valid(ct_id as int),
        ensures
            type_body_of(doc@, ct_id as int, ct),
            ct.name@.len() == 0,
        decreases doc@.nodes.len() - ct_id,
    {
        let ghost d = doc@;
        let mut ct = XsdComplexType::default();
        let node = doc.get_node(ct_id).unwrap();
        let ghost cs = node.children@;
        let mut k: usize = 0;
        assert(cs.take(0) =~= Seq::<NodeId>::empty());
        while k < node.children.len()
            invariant
                d == doc@,
                d.wf(),
                d.ordered(),
                d.valid(ct_id as int),
                cs == node.children@,
                cs == d.children_of(ct_id as int),
                k <= cs.len(),
                ct.name@.len() == 0,
                ct.attributes@.len() == named_children(d, cs.take(k as int), "attribute"@).len(),
                forall|i: int|
                    0 <= i < ct.attributes@.len() ==> attribute_rule_of(
                        d,
                        named_children(d, cs.take(k as int), "attribute"@)[i] as int,
                        #[trigger] ct.attributes@[i],
                    ),
                match last_group(d, cs.take(k as int)) {
                    Some((g, kd)) => ct.compositor == Some(kd) && group_of(d, g as int, ct.elements@),
                    None => ct.compositor is None && ct.elements@.len() == 0,
                },
            decreases cs.len() - k,
        {
            let c = node.children[k];
            assert(cs.take(k + 1).drop_last() =~= cs.take(k as int));
            assert(cs.take(k + 1).last() == c);
            assert(ct_id < cs[k as int]);
            proof {
                lemma_group_names();
            }
            let ghost a0 = ct.attributes@;
            match local_at(doc, c) {
                Some(ln) => {
                    if spells(&ln, "sequence") {
                        ct.compositor = Some(Compositor::Sequence);
                        ct.elements = self.collect_group_elements(doc, c);
                    } else if spells(&ln, "choice") {
                        ct.compositor = Some(Compositor::Choice);
                        ct.elements = self.collect_group_elements(doc, c);
                    } else if spells(&ln, "all") {
                        ct.compositor = Some(Compositor::All);
                        ct.elements = self.collect_group_elements(doc, c);
                    } else if spells(&ln, "attribute") {
                        let ar = self.parse_attribute_node(doc, c);
                        ct.attributes.push(ar);
                        assert(ct.attributes@ =~= a0.push(ar));
                    }
                },
                None => {},
            }
            k = k + 1;
        }
        assert(cs.take(cs.len() as int) =~= cs);
        ct
    }

    /// The element rules that the declarations in model group `group_id`
    /// make, in order.
    pub(crate) fn collect_group_elements(&self, doc: &Document, group_id: NodeId) -> (es: Vec<XsdElementRule>)
        requires
            doc@.wf(),
            doc@.ordered(),
            doc@.valid(group_id as int),
        ensures
            group_of(doc@, group_id as int, es@),
        decreases doc@.nodes.len() - group_id,
    {
        let ghost d = doc@;
        let mut elements: Vec<XsdElementRule> = Vec::new();
        let node = doc.get_node(group_id).unwrap();
        let ghost cs = node.children@;
        let mut k: usize = 0;
        assert(cs.take(0) =~= Seq::<NodeId>::empty());
        while k < node.children.len()
            invariant
                d == doc@,
                d.wf(),
                d.ordered(),
                d.valid(group_id as int),
                cs == node.children@,
                cs == d.children_of(group_id as int),
                k <= cs.len(),
                elements@.len() == named_children(d, cs.take(k as int), "element"@).len(),
                forall|i: int|
                    0 <= i < elements@.len() ==> rule_of(
                        d,
                        named_children(d, cs.take(k as int), "element"@)[i] as int,
                        #[trigger] elements@[i],
                    ),
            decreases cs.len() - k,
        {
            let c = node.children[k];
            assert(cs.take(k + 1).drop_last() =~= cs.take(k as int));
            assert(cs.take(k + 1).last() == c);
            assert(group_id < cs[k as int]);
            let ghost e0 = elements@;
            let hit = match local_at(doc, c) {
                Some(ln) => spells(&ln, "element"),
                None => false,
            };
            if hit {
                let r = self.parse_element_node(doc, c);
                elements.push(r);
                assert(elements@ =~= e0.push(r));
            }
            k = k + 1;
        }
        assert(cs.take(cs.len() as int) =~= cs);
        elements
    }
}

} // verus!
