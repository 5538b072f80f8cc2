//! XML Schema rules read from a schema document, and the checks they
//! impose: attribute presence and integer values, compositor occurrence
//! counts, and simple-type facets on element text.

use vstd::prelude::*;
use crate::document::{DocV, Document};
use crate::dtd::validator::{child_element_names, child_names};
use crate::error::XmlError;
use crate::node::{KindV, NodeId, NodeKind};
use crate::numbers::{parse_i64, parse_i64_spec};
use crate::text::{str_chars, str_eq, string_from_chars};
use crate::textops::{pieces, trim_class, trim_ws};
use crate::xsd::schema::{
    add_absent, add_members, attr_or, first_named, first_named_child, last_group_child, local_at, named_children, owned,
    read_component, read_components, read_start, rule_names, rule_of, schema_read, spells, tracks, type_body_of,
    SchemaRead,
};
use crate::parser::xml_parser::parsed_document;
use crate::default_parse_options;

verus! {

/// Facets restricting an element's text.
#[derive(Debug, Clone)]
pub struct XsdRestriction {
    pub min_inclusive: Option<i64>,
    pub max_inclusive: Option<i64>,
    pub min_length: Option<usize>,
    pub max_length: Option<usize>,
    pub enumerations: Vec<String>,
    pub pattern: Option<String>,
}

/// The model group of a complex type.
#[derive(Debug, Clone, Copy, PartialEq, Eq, Structural)]
pub enum Compositor {
    Sequence,
    Choice,
    All,
}

/// A declared attribute of a complex type.
#[derive(Debug, Clone, PartialEq, Eq)]
pub struct XsdAttributeRule {
    pub name: String,
    pub attr_type: String,
    pub required: bool,
    pub default: Option<String>,
}

/// A complex type: its model group, child element rules and attributes.
#[derive(Debug)]
pub struct XsdComplexType {
    pub name: String,
    pub compositor: Option<Compositor>,
    pub elements: Vec<XsdElementRule>,
    pub attributes: Vec<XsdAttributeRule>,
}

/// A declared element.
#[derive(Debug)]
pub struct XsdElementRule {
    pub name: String,
    pub elem_type: String,
    pub min_occurs: usize,
    pub max_occurs: Option<usize>,
    pub restriction: XsdRestriction,
    pub complex_type: Option<XsdComplexType>,
}

/// The element rules and named complex types loaded so far; a name looks up
/// the latest rule or type registered under it.
#[derive(Debug)]
pub struct XsdValidator {
    elements: Vec<XsdElementRule>,
    complex_types: Vec<XsdComplexType>,
}

/// The abstract content of a schema validator.
pub struct XsdV {
    pub elements: Seq<XsdElementRule>,
    pub complex_types: Seq<XsdComplexType>,
}

impl View for XsdValidator {
    type V = XsdV;

    closed spec fn view(&self) -> XsdV {
        XsdV { elements: self.elements@, complex_types: self.complex_types@ }
    }
}

impl Default for XsdRestriction {
    /// No facet.
    fn default() -> (r: Self)
        ensures
            r.min_inclusive is None && r.max_inclusive is None && r.min_length is None && r.max_length is None
                && r.enumerations@.len() == 0 && r.pattern is None,
    {
        XsdRestriction {
            min_inclusive: None,
            max_inclusive: None,
            min_length: None,
            max_length: None,
            enumerations: Vec::new(),
            pattern: None,
        }
    }
}

impl Default for XsdComplexType {
    /// An anonymous type without model group, elements or attributes.
    fn default() -> (r: Self)
        ensures
            r.name@.len() == 0 && r.compositor is None && r.elements@.len() == 0 && r.attributes@.len() == 0,
    {
        XsdComplexType { name: String::new(), compositor: None, elements: Vec::new(), attributes: Vec::new() }
    }
}

impl Default for XsdValidator {
    /// A validator with no rules.
    fn default() -> (r: Self)
        ensures
            r@.elements.len() == 0 && r@.complex_types.len() == 0,
    {
        XsdValidator { elements: Vec::new(), complex_types: Vec::new() }
    }
}

/// The last `:`-separated piece of a name (the whole name when it has no `:`).
pub open spec fn local_name(n: Seq<char>) -> Seq<char> {
    pieces(n, ':').last()
}

/// The latest element rule registered under `name`.
pub open spec fn rule_for(rules: Seq<XsdElementRule>, name: Seq<char>) -> Option<XsdElementRule>
    decreases rules.len(),
{
    if rules.len() == 0 {
        None
    } else if rules.last().name@ == name {
        Some(rules.last())
    } else {
        rule_for(rules.drop_last(), name)
    }
}

/// The latest complex type registered under `name`.
pub open spec fn type_for(types: Seq<XsdComplexType>, name: Seq<char>) -> Option<XsdComplexType>
    decreases types.len(),
{
    if types.len() == 0 {
        None
    } else if types.last().name@ == name {
        Some(types.last())
    } else {
        type_for(types.drop_last(), name)
    }
}

/// The complex type a rule uses: its own, or the named type of its type name.
pub open spec fn resolved_type(v: XsdV, r: XsdElementRule) -> Option<XsdComplexType> {
    match r.complex_type {
        Some(ct) => Some(ct),
        None => type_for(v.complex_types, r.elem_type@),
    }
}

/// Whether the attributes of element `id` meet the attribute rules: required
/// ones present, and `xs:integer` ones holding an integer.
pub open spec fn attrs_meet(d: DocV, id: NodeId, rules: Seq<XsdAttributeRule>) -> bool {
    forall|i: int|
        0 <= i < rules.len() ==> {
            let ar = #[trigger] rules[i];
            let val = d.attribute(id as int, ar.name@);
            (ar.required ==> val is Some) && match val {
                Some(x) => ar.attr_type@ == "xs:integer"@ ==> parse_i64_spec(x) is Some,
                None => true,
            }
        }
}

/// How many times `n` occurs among `names`.
pub open spec fn count_of(names: Seq<Seq<char>>, n: Seq<char>) -> nat
    decreases names.len(),
{
    if names.len() == 0 {
        0
    } else {
        count_of(names.drop_last(), n) + if names.last() == n { 1nat } else { 0nat }
    }
}

/// Whether some rule of a model group has the given name.
pub open spec fn name_in_group(es: Seq<XsdElementRule>, n: Seq<char>) -> bool {
    exists|j: int| 0 <= j < es.len() && #[trigger] es[j].name@ == n
}

/// Whether the element children (by name) meet the model group.
pub open spec fn group_meets(ct: XsdComplexType, names: Seq<Seq<char>>) -> bool {
    let es = ct.elements@;
    match ct.compositor {
        Some(Compositor::Choice) => !(names.len() == 0 && exists|j: int| 0 <= j < es.len() && #[trigger] es[j].min_occurs
            > 0) && forall|i: int|
            0 <= i < names.len() ==> name_in_group(es, #[trigger] names[i]),
        Some(Compositor::Sequence) => forall|j: int|
            0 <= j < es.len() ==> count_of(names, #[trigger] es[j].name@) >= es[j].min_occurs && (es[j].max_occurs matches Some(
                m,
            ) ==> count_of(names, es[j].name@) <= m),
        Some(Compositor::All) => forall|j: int|
            0 <= j < es.len() ==> count_of(names, #[trigger] es[j].name@) >= es[j].min_occurs && count_of(
                names,
                es[j].name@,
            ) <= match es[j].max_occurs {
                Some(m) => m,
                None => 1,
            },
        None => true,
    }
}

/// Distinct places of `names` holding `n` count towards the occurrences of `n`.
proof fn lemma_count_places(names: Seq<Seq<char>>, n: Seq<char>, ps: Seq<int>)
    requires
        forall|a: int, b: int| 0 <= a < b < ps.len() ==> ps[a] < ps[b],
        forall|a: int| 0 <= a < ps.len() ==> 0 <= #[trigger] ps[a] < names.len() && names[ps[a]] == n,
    ensures
        count_of(names, n) >= ps.len(),
    decreases names.len(),
{
    if names.len() == 0 {
        if ps.len() > 0 {
            assert(0 <= ps[0] < names.len());
        }
    } else {
        let last = names.len() - 1;
        if ps.len() > 0 && ps.last() == last {
            let qs = ps.drop_last();
            assert forall|a: int| 0 <= a < qs.len() implies 0 <= #[trigger] qs[a] < names.drop_last().len()
                && names.drop_last()[qs[a]] == n by {
                assert(qs[a] == ps[a]);
                assert(ps[a] < ps[ps.len() - 1]);
            }
            lemma_count_places(names.drop_last(), n, qs);
            assert(names.last() == names[ps[ps.len() - 1]]);
        } else {
            assert forall|a: int| 0 <= a < ps.len() implies 0 <= #[trigger] ps[a] < names.drop_last().len()
                && names.drop_last()[ps[a]] == n by {
                if ps[a] == last {
                    if a < ps.len() - 1 {
                        assert(ps[a] < ps[ps.len() - 1]);
                    }
                }
            }
            lemma_count_places(names.drop_last(), n, ps);
        }
    }
}

/// Under an `xs:all` model group, child elements that name a member at more
/// places than its `maxOccurs` allows (one when it is absent) do not meet
/// the group.
pub proof fn law_all_group_max_occurs(ct: XsdComplexType, names: Seq<Seq<char>>, j: int, ps: Seq<int>)
    requires
        ct.compositor == Some(Compositor::All),
        0 <= j < ct.elements@.len(),
        forall|a: int, b: int| 0 <= a < b < ps.len() ==> ps[a] < ps[b],
        forall|a: int| 0 <= a < ps.len() ==> 0 <= #[trigger] ps[a] < names.len() && names[ps[a]] == ct.elements@[j].name@,
        ps.len() > match ct.elements@[j].max_occurs {
            Some(m) => m as int,
            None => 1,
        },
    ensures
        !group_meets(ct, names),
{
    lemma_count_places(names, ct.elements@[j].name@, ps);
}

/// A name that does not occur does not count.
proof fn lemma_count_absent(names: Seq<Seq<char>>, n: Seq<char>)
    requires
        !names.contains(n),
    ensures
        count_of(names, n) == 0,
    decreases names.len(),
{
    if names.len() > 0 {
        assert(!names.drop_last().contains(n)) by {
            if names.drop_last().contains(n) {
                let i = choose|i: int| 0 <= i < names.drop_last().len() && names.drop_last()[i] == n;
                assert(names[i] == n);
            }
        }
        lemma_count_absent(names.drop_last(), n);
        assert(names.last() != n) by {
            if names.last() == n {
                assert(names[names.len() - 1] == n);
            }
        }
    }
}

/// Under an `xs:sequence` model group, child elements that name a member at
/// more places than its `maxOccurs` do not meet the group.
pub proof fn law_sequence_group_max_occurs(ct: XsdComplexType, names: Seq<Seq<char>>, j: int, ps: Seq<int>)
    requires
        ct.compositor == Some(Compositor::Sequence),
        0 <= j < ct.elements@.len(),
        ct.elements@[j].max_occurs is Some,
        forall|a: int, b: int| 0 <= a < b < ps.len() ==> ps[a] < ps[b],
        forall|a: int| 0 <= a < ps.len() ==> 0 <= #[trigger] ps[a] < names.len() && names[ps[a]] == ct.elements@[j].name@,
        ps.len() > ct.elements@[j].max_occurs->0,
    ensures
        !group_meets(ct, names),
{
    lemma_count_places(names, ct.elements@[j].name@, ps);
}

/// Under an `xs:sequence` or `xs:all` model group, child elements that
/// never name a member whose `minOccurs` is positive do not meet the group.
pub proof fn law_group_min_occurs(ct: XsdComplexType, names: Seq<Seq<char>>, j: int)
    requires
        ct.compositor == Some(Compositor::Sequence) || ct.compositor == Some(Compositor::All),
        0 <= j < ct.elements@.len(),
        ct.elements@[j].min_occurs > 0,
        !names.contains(ct.elements@[j].name@),
    ensures
        !group_meets(ct, names),
{
    lemma_count_absent(names, ct.elements@[j].name@);
}

/// An element whose rule has an `xs:all` type and whose child elements name
/// a member more often than its `maxOccurs` allows fails validation, at any
/// depth; as the document element, the whole document is not valid.
pub proof fn law_all_group_repeats_invalid(
    d: DocV,
    v: XsdV,
    id: NodeId,
    depth: int,
    r: XsdElementRule,
    ct: XsdComplexType,
    j: int,
    ps: Seq<int>,
)
    requires
        d.is_element(id as int),
        rule_for(v.elements, d.nodes[id as int].kind->Element_name) == Some(r),
        resolved_type(v, r) == Some(ct),
        ct.compositor == Some(Compositor::All),
        0 <= j < ct.elements@.len(),
        forall|a: int, b: int| 0 <= a < b < ps.len() ==> ps[a] < ps[b],
        forall|a: int|
            0 <= a < ps.len() ==> 0 <= #[trigger] ps[a] < child_element_names(d, d.nodes[id as int].children).len()
                && child_element_names(d, d.nodes[id as int].children)[ps[a]] == ct.elements@[j].name@,
        ps.len() > match ct.elements@[j].max_occurs {
            Some(m) => m as int,
            None => 1,
        },
    ensures
        !xsd_node_ok(d, v, id, depth),
        (d.root_id matches Some(rt) && d.valid(rt as int) && d.first_element_child(rt as int) == Some(id))
            ==> !xsd_valid(d, v),
{
    law_all_group_max_occurs(ct, child_element_names(d, d.nodes[id as int].children), j, ps);
    assert(!own_meets(d, v, id));
}

/// The text of the direct text children of a node, concatenated.
pub open spec fn direct_text(d: DocV, cs: Seq<NodeId>) -> Seq<char>
    decreases cs.len(),
{
    if cs.len() == 0 {
        Seq::empty()
    } else {
        direct_text(d, cs.drop_last()) + if d.valid(cs.last() as int) {
            match d.nodes[cs.last() as int].kind {
                KindV::Text(t) => t,
                _ => Seq::empty(),
            }
        } else {
            Seq::empty()
        }
    }
}

/// Whether element text (already trimmed) meets the rule's type and facets.
pub open spec fn text_meets(r: XsdElementRule, t: Seq<char>) -> bool {
    let ty = r.elem_type@;
    let rs = r.restriction;
    &&& (ty == "xs:integer"@ || ty == "xsd:integer"@) ==> (t.len() > 0 ==> match parse_i64_spec(t) {
        Some(x) => (rs.min_inclusive matches Some(lo) ==> x >= lo) && (rs.max_inclusive matches Some(hi) ==> x <= hi),
        None => false,
    })
    &&& (!(ty == "xs:integer"@ || ty == "xsd:integer"@) && (ty == "xs:boolean"@ || ty == "xsd:boolean"@)) ==> (t.len()
        > 0 ==> (t == "true"@ || t == "false"@ || t == "1"@ || t == "0"@))
    &&& (rs.min_length matches Some(m) ==> t.len() >= m)
    &&& (rs.max_length matches Some(m) ==> t.len() <= m)
    &&& (rs.enumerations@.len() > 0 ==> exists|i: int| 0 <= i < rs.enumerations@.len() && #[trigger] rs.enumerations@[i]@ == t)
}

/// Whether element `id` meets the rule registered for its name (if any).
pub open spec fn own_meets(d: DocV, v: XsdV, id: NodeId) -> bool {
    match d.nodes[id as int].kind {
        KindV::Element { name, .. } => match rule_for(v.elements, name) {
            Some(r) => (match resolved_type(v, r) {
                Some(ct) => attrs_meet(d, id, ct.attributes@) && group_meets(
                    ct,
                    child_element_names(d, d.nodes[id as int].children),
                ),
                None => true,
            }) && text_meets(r, trim_ws(direct_text(d, d.nodes[id as int].children))),
            None => true,
        },
        _ => true,
    }
}

/// Whether element `id` at nesting `depth` and its element descendants meet
/// the schema, within the nesting limit.
pub open spec fn xsd_node_ok(d: DocV, v: XsdV, id: NodeId, depth: int) -> bool
    decreases 513 - depth, 1int, 0int,
{
    if depth > 512 || depth < 0 {
        false
    } else if !d.is_element(id as int) {
        true
    } else {
        own_meets(d, v, id) && xsd_children_ok(d, v, d.nodes[id as int].children, depth + 1, 0)
    }
}

/// Whether the element children `cs[k..]` at nesting `depth` meet the schema.
pub open spec fn xsd_children_ok(d: DocV, v: XsdV, cs: Seq<NodeId>, depth: int, k: int) -> bool
    decreases 514 - depth, 0int, cs.len() - k,
{
    if depth > 513 || depth < 0 || k < 0 || k >= cs.len() {
        true
    } else {
        (d.is_element(cs[k] as int) ==> xsd_node_ok(d, v, cs[k], depth)) && xsd_children_ok(d, v, cs, depth, k + 1)
    }
}

/// Whether the document meets the schema from its root element.
pub open spec fn xsd_valid(d: DocV, v: XsdV) -> bool {
    match d.root_id {
        Some(r) => match (if d.valid(r as int) { d.first_element_child(r as int) } else { None }) {
            Some(e) => xsd_node_ok(d, v, e, 0),
            None => true,
        },
        None => true,
    }
}

/// The deepest element nesting validation walks into.
pub const MAX_VALIDATION_DEPTH: usize = 512;

/// The text of the direct text children, concatenated.
fn element_text(doc: &Document, cs: &Vec<NodeId>) -> (r: Vec<char>)
    ensures
        r@ == direct_text(doc@, cs@),
{
    let mut out: Vec<char> = Vec::new();
    let mut i: usize = 0;
    while i < cs.len()
        invariant
            i <= cs@.len(),
            out@ == direct_text(doc@, cs@.take(i as int)),
        decreases cs@.len() - i,
    {
        assert(cs@.take(i + 1).drop_last() =~= cs@.take(i as int));
        assert(cs@.take(i + 1).last() == cs@[i as int]);
        let ghost before = out@;
        match doc.get_node(cs[i]) {
            Some(n) => match &n.kind {
                NodeKind::Text(t) => {
                    let tc = str_chars(t.as_str());
                    let mut j: usize = 0;
                    while j < tc.len()
                        invariant
                            j <= tc@.len(),
                            out@ == before + tc@.take(j as int),
                        decreases tc@.len() - j,
                    {
                        out.push(tc[j]);
                        assert(tc@.take(j + 1) =~= tc@.take(j as int).push(tc@[j as int]));
                        j = j + 1;
                    }
                    assert(tc@.take(tc@.len() as int) =~= tc@);
                },
                _ => {
                    assert(out@ =~= before + Seq::<char>::empty());
                },
            },
            None => {
                assert(out@ =~= before + Seq::<char>::empty());
            },
        }
        i = i + 1;
    }
    assert(cs@.take(cs@.len() as int) =~= cs@);
    out
}

/// How many times `n` occurs among `names`.
fn count_name(names: &Vec<Vec<char>>, n: &[char]) -> (r: usize)
    ensures
        r == count_of(crate::dtd::validator::vv(names@), n@),
{
    let ghost nv = crate::dtd::validator::vv(names@);
    let mut c: usize = 0;
    let mut i: usize = 0;
    while i < names.len()
        invariant
            i <= names@.len(),
            nv == crate::dtd::validator::vv(names@),
            c == count_of(nv.take(i as int), n@),
            c <= i,
        decreases names@.len() - i,
    {
        assert(nv.take(i + 1).drop_last() =~= nv.take(i as int));
        assert(nv.take(i + 1).last() == names@[i as int]@);
        if crate::text::chars_eq(names[i].as_slice(), n) {
            c = c + 1;
        }
        i = i + 1;
    }
    assert(nv.take(nv.len() as int) =~= nv);
    c
}

/// Whether some rule of the group has the given name.
fn in_group(es: &Vec<XsdElementRule>, n: &[char]) -> (r: bool)
    ensures
        r == name_in_group(es@, n@),
{
    let mut j: usize = 0;
    while j < es.len()
        invariant
            j <= es@.len(),
            forall|q: int| 0 <= q < j ==> #[trigger] es@[q].name@ != n@,
        decreases es@.len() - j,
    {
        let ec = str_chars(es[j].name.as_str());
        if crate::text::chars_eq(&ec, n) {
            assert(es@[j as int].name@ == n@);
            return true;
        }
        j = j + 1;
    }
    false
}

/// Whether the element children (by name) meet the model group.
fn group_check(ct: &XsdComplexType, names: &Vec<Vec<char>>) -> (r: bool)
    ensures
        r == group_meets(*ct, crate::dtd::validator::vv(names@)),
{
    let ghost nv = crate::dtd::validator::vv(names@);
    let es = &ct.elements;
    match ct.compositor {
        Some(Compositor::Choice) => {
            if names.len() == 0 {
                let mut j: usize = 0;
                while j < es.len()
                    invariant
                        j <= es@.len(),
                        names@.len() == 0,
                        nv == crate::dtd::validator::vv(names@),
                        es == &ct.elements,
                        ct.compositor == Some(Compositor::Choice),
                        forall|q: int| 0 <= q < j ==> !(#[trigger] es@[q].min_occurs > 0),
                    decreases es@.len() - j,
                {
                    if es[j].min_occurs > 0 {
                        assert(es@[j as int].min_occurs > 0);
                        return false;
                    }
                    j = j + 1;
                }
            }
            let mut i: usize = 0;
            while i < names.len()
                invariant
                    i <= names@.len(),
                    nv == crate::dtd::validator::vv(names@),
                    es == &ct.elements,
                    ct.compositor == Some(Compositor::Choice),
                    names@.len() == 0 ==> forall|q: int| 0 <= q < es@.len() ==> !(#[trigger] es@[q].min_occurs > 0),
                    forall|q: int| 0 <= q < i ==> name_in_group(es@, #[trigger] nv[q]),
                decreases names@.len() - i,
            {
                assert(nv[i as int] == names@[i as int]@);
                if !in_group(es, names[i].as_slice()) {
                    return false;
                }
                i = i + 1;
            }
            true
        },
        Some(Compositor::Sequence) => {
            let mut j: usize = 0;
            while j < es.len()
                invariant
                    j <= es@.len(),
                    nv == crate::dtd::validator::vv(names@),
                    es == &ct.elements,
                    ct.compositor == Some(Compositor::Sequence),
                    forall|q: int|
                        0 <= q < j ==> count_of(nv, #[trigger] es@[q].name@) >= es@[q].min_occurs && (es@[q].max_occurs matches Some(
                            m,
                        ) ==> count_of(nv, es@[q].name@) <= m),
                decreases es@.len() - j,
            {
                let ec = str_chars(es[j].name.as_str());
                let c = count_name(names, &ec);
                if c < es[j].min_occurs {
                    return false;
                }
                if let Some(m) = es[j].max_occurs {
                    if c > m {
                        return false;
                    }
                }
                j = j + 1;
            }
            true
        },
        Some(Compositor::All) => {
            let mut j: usize = 0;
            while j < es.len()
                invariant
                    j <= es@.len(),
                    nv == crate::dtd::validator::vv(names@),
                    es == &ct.elements,
                    ct.compositor == Some(Compositor::All),
                    forall|q: int|
                        0 <= q < j ==> count_of(nv, #[trigger] es@[q].name@) >= es@[q].min_occurs && count_of(
                            nv,
                            es@[q].name@,
                        ) <= match es@[q].max_occurs {
                            Some(m) => m,
                            None => 1,
                        },
                decreases es@.len() - j,
            {
                let ec = str_chars(es[j].name.as_str());
                let c = count_name(names, &ec);
                if c < es[j].min_occurs {
                    return false;
                }
                let m = match es[j].max_occurs {
                    Some(m) => m,
                    None => 1,
                };
                if c > m {
                    return false;
                }
                j = j + 1;
            }
            true
        },
        None => true,
    }
}

/// Whether trimmed element text meets the rule's type and facets.
fn text_check(r: &XsdElementRule, t: &Vec<char>) -> (ok: bool)
    ensures
        ok == text_meets(*r, t@),
{
    let ty = r.elem_type.as_str();
    let rs = &r.restriction;
    proof {
        reveal_strlit("xs:integer");
        reveal_strlit("xsd:integer");
        reveal_strlit("xs:boolean");
        reveal_strlit("xsd:boolean");
        reveal_strlit("true");
        reveal_strlit("false");
        reveal_strlit("1");
        reveal_strlit("0");
    }
    let is_int = str_eq(ty, "xs:integer") || str_eq(ty, "xsd:integer");
    if is_int {
        if t.len() > 0 {
            match parse_i64(t.as_slice()) {
                Some(x) => {
                    if let Some(lo) = rs.min_inclusive {
                        if x < lo {
                            return false;
                        }
                    }
                    if let Some(hi) = rs.max_inclusive {
                        if x > hi {
                            return false;
                        }
                    }
                },
                None => {
                    return false;
                },
            }
        }
    } else if str_eq(ty, "xs:boolean") || str_eq(ty, "xsd:boolean") {
        if t.len() > 0 {
            let tt: [char; 4] = ['t', 'r', 'u', 'e'];
            let ff: [char; 5] = ['f', 'a', 'l', 's', 'e'];
            let one: [char; 1] = ['1'];
            let zero: [char; 1] = ['0'];
            assert(tt@ =~= "true"@);
            assert(ff@ =~= "false"@);
            assert(one@ =~= "1"@);
            assert(zero@ =~= "0"@);
            if !(crate::text::chars_eq(t.as_slice(), &tt) || crate::text::chars_eq(t.as_slice(), &ff)
                || crate::text::chars_eq(t.as_slice(), &one) || crate::text::chars_eq(t.as_slice(), &zero)) {
                return false;
            }
        }
    }
    if let Some(m) = rs.min_length {
        if t.len() < m {
            return false;
        }
    }
    if let Some(m) = rs.max_length {
        if t.len() > m {
            return false;
        }
    }
    if rs.enumerations.len() > 0 {
        return enumerated(&rs.enumerations, t.as_slice());
    }
    true
}

/// Whether `t` is one of the listed values.
fn enumerated(list: &Vec<String>, t: &[char]) -> (found: bool)
    ensures
        found == exists|i: int| 0 <= i < list@.len() && #[trigger] list@[i]@ == t@,
{
    let mut i: usize = 0;
    while i < list.len()
        invariant
            i <= list@.len(),
            forall|q: int| 0 <= q < i ==> #[trigger] list@[q]@ != t@,
        decreases list@.len() - i,
    {
        let ec = str_chars(list[i].as_str());
        if crate::text::chars_eq(&ec, t) {
            assert(list@[i as int]@ == t@);
            return true;
        }
        i = i + 1;
    }
    false
}

/// Whether element `id`'s attributes meet the attribute rules.
fn attrs_check(doc: &Document, id: NodeId, rules: &Vec<XsdAttributeRule>) -> (ok: bool)
    ensures
        ok == attrs_meet(doc@, id, rules@),
{
    proof {
        reveal_strlit("xs:integer");
    }
    let mut i: usize = 0;
    while i < rules.len()
        invariant
            i <= rules@.len(),
            forall|q: int|
                0 <= q < i ==> {
                    let ar = #[trigger] rules@[q];
                    let val = doc@.attribute(id as int, ar.name@);
                    (ar.required ==> val is Some) && match val {
                        Some(x) => ar.attr_type@ == "xs:integer"@ ==> parse_i64_spec(x) is Some,
                        None => true,
                    }
                },
        decreases rules@.len() - i,
    {
        let ar = &rules[i];
        let val = doc.get_attribute(id, ar.name.as_str());
        match val {
            None => {
                if ar.required {
                    return false;
                }
            },
            Some(x) => {
                if str_eq(ar.attr_type.as_str(), "xs:integer") {
                    let xc = str_chars(x);
                    if parse_i64(&xc).is_none() {
                        return false;
                    }
                }
            },
        }
        i = i + 1;
    }
    true
}


impl XsdValidator {
    /// A validator with no rules.
    pub fn new() -> (r: Self)
        ensures
            r@.elements.len() == 0 && r@.complex_types.len() == 0,
    {
        XsdValidator { elements: Vec::new(), complex_types: Vec::new() }
    }

    /// The latest element rule registered under `name`.
    fn rule_named(&self, name: &str) -> (r: Option<&XsdElementRule>)
        ensures
            match r {
                Some(x) => rule_for(self@.elements, name@) == Some(*x),
                None => rule_for(self@.elements, name@) is None,
            },
    {
        let mut i: usize = self.elements.len();
        assert(self.elements@.take(i as int) =~= self.elements@);
        while i > 0
            invariant
                i <= self.elements@.len(),
                rule_for(self.elements@, name@) == rule_for(self.elements@.take(i as int), name@),
            decreases i,
        {
            let ghost pre = self.elements@.take(i as int);
            assert(pre.drop_last() =~= self.elements@.take(i - 1));
            let r = &self.elements[i - 1];
            if str_eq(r.name.as_str(), name) {
                return Some(r);
            }
            i = i - 1;
        }
        None
    }

    /// The latest complex type registered under `name`.
    fn type_named(&self, name: &str) -> (r: Option<&XsdComplexType>)
        ensures
            match r {
                Some(x) => type_for(self@.complex_types, name@) == Some(*x),
                None => type_for(self@.complex_types, name@) is None,
            },
    {
        let mut i: usize = self.complex_types.len();
        assert(self.complex_types@.take(i as int) =~= self.complex_types@);
        while i > 0
            invariant
                i <= self.complex_types@.len(),
                type_for(self.complex_types@, name@) == type_for(self.complex_types@.take(i as int), name@),
            decreases i,
        {
            let ghost pre = self.complex_types@.take(i as int);
            assert(pre.drop_last() =~= self.complex_types@.take(i - 1));
            let r = &self.complex_types[i - 1];
            if str_eq(r.name.as_str(), name) {
                return Some(r);
            }
            i = i - 1;
        }
        None
    }

    /// Checks element `id` alone against the rule registered for its name.
    fn own_check(&self, doc: &Document, id: NodeId) -> (r: Result<(), XmlError>)
        requires
            doc@.is_element(id as int),
        ensures
            (r is Ok) == own_meets(doc@, self@, id),
            r matches Err(e) ==> e is XsdError,
    {
        let node = doc.get_node(id).unwrap();
        match &node.kind {
            NodeKind::Element { name, .. } => {
                match self.rule_named(name.as_str()) {
                    Some(rule) => {
                        let ct_opt: Option<&XsdComplexType> = match &rule.complex_type {
                            Some(ct) => Some(ct),
                            None => self.type_named(rule.elem_type.as_str()),
                        };
                        assert(match ct_opt {
                            Some(c) => resolved_type(self@, *rule) == Some(*c),
                            None => resolved_type(self@, *rule) is None,
                        });
                        if let Some(ct) = ct_opt {
                            if !attrs_check(doc, id, &ct.attributes) {
                                return Err(XmlError::XsdError("Attribute rule violated".to_string()));
                            }
                            let names = child_names(doc, &node.children);
                            if !group_check(ct, &names) {
                                return Err(XmlError::XsdError("Child elements violate the content model".to_string()));
                            }
                        }
                        let text = element_text(doc, &node.children);
                        let empty: [char; 0] = [];
                        assert(empty@ =~= Seq::<char>::empty());
                        let t = trim_class(text.as_slice(), true, &empty, true, true);
                        if !text_check(rule, &t) {
                            return Err(XmlError::XsdError("Element text violates its simple type".to_string()));
                        }
                        Ok(())
                    },
                    None => Ok(()),
                }
            },
            _ => Ok(()),
        }
    }

    /// Checks element `id` at nesting `depth` and its element descendants.
    fn validate_element(&self, doc: &Document, id: NodeId, depth: usize) -> (r: Result<(), XmlError>)
        requires
            doc@.is_element(id as int),
            depth <= MAX_VALIDATION_DEPTH + 1,
        ensures
            (r is Ok) == xsd_node_ok(doc@, self@, id, depth as int),
            r matches Err(e) ==> e is XsdError,
        decreases MAX_VALIDATION_DEPTH + 1 - depth,
    {
        if depth > MAX_VALIDATION_DEPTH {
            return Err(XmlError::XsdError("Document exceeds maximum validation nesting depth (512)".to_string()));
        }
        let ghost d = doc@;
        let ghost v = self@;
        self.own_check(doc, id)?;
        let node = doc.get_node(id).unwrap();
        let ghost cs = node.children@;
        assert(xsd_node_ok(d, v, id, depth as int) == xsd_children_ok(d, v, cs, depth + 1, 0));
        let mut k: usize = 0;
        while k < node.children.len()
            invariant
                d == doc@,
                v == self@,
                depth <= MAX_VALIDATION_DEPTH,
                cs == node.children@,
                cs == d.nodes[id as int].children,
                k <= cs.len(),
                xsd_children_ok(d, v, cs, depth + 1, 0) == xsd_children_ok(d, v, cs, depth + 1, k as int),
                xsd_node_ok(d, v, id, depth as int) == xsd_children_ok(d, v, cs, depth + 1, 0),
            decreases cs.len() - k,
        {
            let c = node.children[k];
            let is_elem = match doc.get_node(c) {
                Some(ch) => match &ch.kind {
                    NodeKind::Element { .. } => true,
                    _ => false,
                },
                None => false,
            };
            assert(is_elem == d.is_element(c as int));
            assert(xsd_children_ok(d, v, cs, depth + 1, k as int) == ((d.is_element(c as int) ==> xsd_node_ok(
                d,
                v,
                c,
                depth + 1,
            )) && xsd_children_ok(d, v, cs, depth + 1, k + 1)));
            if is_elem {
                let res = self.validate_element(doc, c, depth + 1);
                if res.is_err() {
                    assert(!xsd_node_ok(d, v, id, depth as int));
                    return res;
                }
            }
            k = k + 1;
        }
        Ok(())
    }

    /// Checks the document, from its root element, against the loaded rules.
    pub fn validate(&self, doc: &Document) -> (r: Result<(), XmlError>)
        ensures
            (r is Ok) == xsd_valid(doc@, self@),
            r matches Err(e) ==> e is XsdError,
    {
        match doc.root_element_id() {
            Some(e) => {
                proof {
                    let rid = doc@.root_id->0;
                    crate::dtd::validator::lemma_first_element_from(doc@, doc@.children_of(rid as int), 0);
                }
                self.validate_element(doc, e, 0)
            },
            None => Ok(()),
        }
    }
}

/// No rule is registered under a name exactly when no rule has that name.
proof fn lemma_rule_for_names(rules: Seq<XsdElementRule>, n: Seq<char>)
    ensures
        (rule_for(rules, n) is None) == !rule_names(rules).contains(n),
    decreases rules.len(),
{
    if rules.len() > 0 {
        lemma_rule_for_names(rules.drop_last(), n);
        assert(rule_names(rules) =~= rule_names(rules.drop_last()).push(rules.last().name@));
        if rule_names(rules.drop_last()).contains(n) {
            let j = choose|j: int| 0 <= j < rule_names(rules.drop_last()).len() && rule_names(rules.drop_last())[j] == n;
            assert(rule_names(rules)[j] == n);
        }
        if rules.last().name@ == n {
            assert(rule_names(rules)[rules.len() - 1] == n);
        }
    }
}

impl XsdValidator {
    /// Adds the rules of the element declarations in model group `g` whose
    /// names no rule has yet.
    fn add_absent_members(&mut self, doc: &Document, g: NodeId, Ghost(v0): Ghost<XsdV>, Ghost(st): Ghost<SchemaRead>)
        requires
            doc@.wf(),
            doc@.ordered(),
            doc@.valid(g as int),
            tracks(doc@, v0, st, old(self)@),
        ensures
            tracks(doc@, v0, add_absent(doc@, st, named_children(doc@, doc@.children_of(g as int), "element"@)), final(self)@),
    {
        let ghost d = doc@;
        let node = doc.get_node(g).unwrap();
        let ghost cs = node.children@;
        let mut k: usize = 0;
        assert(cs.take(0) =~= Seq::<NodeId>::empty());
        while k < node.children.len()
            invariant
                d == doc@,
                d.wf(),
                d.ordered(),
                d.valid(g as int),
                cs == node.children@,
                cs == d.children_of(g as int),
                k <= cs.len(),
                tracks(d, v0, add_absent(d, st, named_children(d, cs.take(k as int), "element"@)), self@),
            decreases cs.len() - k,
        {
            let c = node.children[k];
            let ghost es0 = named_children(d, cs.take(k as int), "element"@);
            let ghost s0 = add_absent(d, st, es0);
            assert(cs.take(k + 1).drop_last() =~= cs.take(k as int));
            assert(cs.take(k + 1).last() == c);
            assert(g < cs[k as int]);
            let hit = match local_at(doc, c) {
                Some(ln) => spells(&ln, "element"),
                None => false,
            };
            if hit {
                assert(named_children(d, cs.take(k + 1), "element"@) =~= es0.push(c));
                assert(es0.push(c).drop_last() =~= es0);
                proof {
                    reveal_strlit("");
                }
                let name = match doc.get_attribute(c, "name") {
                    Some(x) => x,
                    None => "",
                };
                assert(name@ == attr_or(d, c as int, "name"@, Seq::empty()));
                proof {
                    lemma_rule_for_names(self@.elements, name@);
                }
                if self.rule_named(name).is_none() {
                    let r = self.parse_element_node(doc, c);
                    let ghost e0 = self.elements@;
                    self.elements.push(r);
                    proof {
                        let s1 = add_absent(d, st, es0.push(c));
                        let n0 = v0.elements.len();
                        assert(self.elements@ =~= e0.push(r));
                        assert(rule_names(self.elements@) =~= rule_names(e0).push(r.name@));
                        assert(self.elements@.take(n0 as int) =~= e0.take(n0 as int));
                        assert forall|i: int| 0 <= i < s1.rules.len() implies rule_of(
                            d,
                            s1.rules[i] as int,
                            #[trigger] self@.elements[n0 + i],
                        ) by {
                            if i < s0.rules.len() {
                                assert(self@.elements[n0 + i] == e0[n0 + i]);
                            }
                        }
                    }
                }
            } else {
                assert(named_children(d, cs.take(k + 1), "element"@) =~= es0);
            }
            k = k + 1;
        }
        assert(cs.take(cs.len() as int) =~= cs);
    }

    /// Adds the rules of the element declarations in the model group of
    /// complex type declaration `t` whose names no rule has yet.
    fn add_members_of(&mut self, doc: &Document, t: NodeId, Ghost(v0): Ghost<XsdV>, Ghost(st): Ghost<SchemaRead>)
        requires
            doc@.wf(),
            doc@.ordered(),
            doc@.valid(t as int),
            tracks(doc@, v0, st, old(self)@),
        ensures
            tracks(doc@, v0, add_members(doc@, st, t as int), final(self)@),
    {
        match last_group_child(doc, t) {
            Some(g) => {
                proof {
                    let cs = doc@.children_of(t as int);
                    let j = choose|j: int| 0 <= j < cs.len() && cs[j] == g;
                    assert(doc@.nodes[t as int].children[j] == g);
                }
                self.add_absent_members(doc, g, Ghost(v0), Ghost(st));
            },
            None => {},
        }
    }

    /// Reads the top-level element declarations and named complex types of
    /// schema root `root_id`.
    fn collect_schema_components(&mut self, schema_doc: &Document, root_id: NodeId)
        requires
            schema_doc@.wf(),
            schema_doc@.ordered(),
        ensures
            schema_read(schema_doc@, root_id as int, old(self)@, final(self)@),
    {
        let ghost d = schema_doc@;
        let ghost v0 = self@;
        proof {
            assert(self@.elements.take(v0.elements.len() as int) =~= v0.elements);
            assert(self@.complex_types.take(v0.complex_types.len() as int) =~= v0.complex_types);
        }
        match schema_doc.get_node(root_id) {
            Some(root_node) => {
                let ghost cs = root_node.children@;
                let mut k: usize = 0;
                assert(cs.take(0) =~= Seq::<NodeId>::empty());
                while k < root_node.children.len()
                    invariant
                        d == schema_doc@,
                        d.wf(),
                        d.ordered(),
                        d.valid(root_id as int),
                        cs == root_node.children@,
                        cs == d.children_of(root_id as int),
                        k <= cs.len(),
                        tracks(d, v0, read_components(d, read_start(v0), cs.take(k as int)), self@),
                    decreases cs.len() - k,
                {
                    let c = root_node.children[k];
                    let ghost s0 = read_components(d, read_start(v0), cs.take(k as int));
                    assert(cs.take(k + 1).drop_last() =~= cs.take(k as int));
                    assert(cs.take(k + 1).last() == c);
                    assert(root_id < cs[k as int]);
                    assert(d.valid(c as int));
                    proof {
                        reveal_strlit("complexType");
                        reveal_strlit("element");
                        assert("complexType"@.len() == 11);
                        assert("element"@.len() == 7);
                    }
                    match local_at(schema_doc, c) {
                        Some(ln) => {
                            if spells(&ln, "complexType") {
                                if let Some(ct_name) = schema_doc.get_attribute(c, "name") {
                                    let mut ct = self.parse_complex_type(schema_doc, c);
                                    ct.name = owned(ct_name);
                                    self.add_members_of(schema_doc, c, Ghost(v0), Ghost(s0));
                                    let ghost t0 = self.complex_types@;
                                    let ghost s1 = add_members(d, s0, c as int);
                                    self.complex_types.push(ct);
                                    proof {
                                        let n0 = v0.complex_types.len();
                                        assert(self.complex_types@ =~= t0.push(ct));
                                        assert(self.complex_types@.take(n0 as int) =~= t0.take(n0 as int));
                                        let s2 = read_component(d, s0, c as int);
                                        assert(s2.types =~= s1.types.push(c));
                                        assert forall|i: int| 0 <= i < s2.types.len() implies {
                                            let x = #[trigger] self@.complex_types[n0 + i];
                                            &&& type_body_of(d, s2.types[i] as int, x)
                                            &&& x.name@ == attr_or(d, s2.types[i] as int, "name"@, Seq::empty())
                                        } by {
                                            if i < s1.types.len() {
                                                assert(self@.complex_types[n0 + i] == t0[n0 + i]);
                                            }
                                        }
                                    }
                                }
                            } else if spells(&ln, "element") {
                                let rule = self.parse_element_node(schema_doc, c);
                                if str_chars(rule.name.as_str()).len() > 0 {
                                    match first_named_child(schema_doc, c, "complexType") {
                                        Some(t) => {
                                            proof {
                                                let ccs = d.children_of(c as int);
                                                let j = choose|j: int| 0 <= j < ccs.len() && ccs[j] == t;
                                                assert(d.nodes[c as int].children[j] == t);
                                            }
                                            self.add_members_of(schema_doc, t, Ghost(v0), Ghost(s0));
                                        },
                                        None => {},
                                    }
                                    let ghost e0 = self.elements@;
                                    let ghost s1 = match first_named(d, c as int, "complexType"@) {
                                        Some(t) => add_members(d, s0, t as int),
                                        None => s0,
                                    };
                                    self.elements.push(rule);
                                    proof {
                                        let n0 = v0.elements.len();
                                        let s2 = read_component(d, s0, c as int);
                                        assert(self.elements@ =~= e0.push(rule));
                                        assert(rule_names(self.elements@) =~= rule_names(e0).push(rule.name@));
                                        assert(self.elements@.take(n0 as int) =~= e0.take(n0 as int));
                                        assert(s2.rules =~= s1.rules.push(c));
                                        assert forall|i: int| 0 <= i < s2.rules.len() implies rule_of(
                                            d,
                                            s2.rules[i] as int,
                                            #[trigger] self@.elements[n0 + i],
                                        ) by {
                                            if i < s1.rules.len() {
                                                assert(self@.elements[n0 + i] == e0[n0 + i]);
                                            }
                                        }
                                    }
                                }
                            }
                        },
                        None => {},
                    }
                    k = k + 1;
                }
                assert(cs.take(cs.len() as int) =~= cs);
            },
            None => {
                assert(d.children_of(root_id as int) =~= Seq::<NodeId>::empty());
            },
        }
    }

    /// Parses a schema document (with the default limits) and reads its
    /// top-level element declarations and named complex types into the
    /// rules. A schema that does not parse leaves the rules unchanged.
    pub fn parse_schema(&mut self, schema_xml: &str) -> (r: Result<(), XmlError>)
        ensures
            r matches Err(e) ==> e is SyntaxError || e is SecurityLimitExceeded || e is EntityError,
            match crate::document_of(schema_xml@, default_parse_options()) {
                Some(d) => r is Ok && schema_read(d, d.nodes[1].children[0] as int, old(self)@, final(self)@),
                None => r is Err && final(self)@ == old(self)@,
            },
    {
        let schema_doc = crate::parse(schema_xml)?;
        let ghost d = schema_doc@;
        match schema_doc.root_element_id() {
            Some(root_elem_id) => {
                assert(d.first_element_child(1) == Some(d.nodes[1].children[0]));
                self.collect_schema_components(&schema_doc, root_elem_id);
            },
            None => {},
        }
        assert(parsed_document(d, default_parse_options()));
        Ok(())
    }
}

} // verus!
