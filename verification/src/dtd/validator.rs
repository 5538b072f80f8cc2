//! DTD rules read from `<!ELEMENT>` and `<!ATTLIST>` lines, and the checks
//! they impose: content models, required attributes, default values, and
//! ID/IDREF integrity.

use vstd::prelude::*;
use crate::document::with_attribute_set;
use crate::document::{DocV, Document};
use crate::error::XmlError;
use crate::node::{attr_find, AttrV, Attribute, KindV, NodeId, NodeKind};
use crate::parser::subset::{concat_all, join_from, join_spaced, non_space, split_words, word_starts, words_of};
use crate::io::char_utils::unicode_whitespace;
use crate::text::{chars_eq, str_chars, string_from_chars};
use crate::textops::{contains_chars, contains_seq, pieces, split_chars, trim_class, trim_ws, trimmed};

verus! {

/// A content model.
#[derive(Debug, Clone, PartialEq, Eq)]
pub enum ContentModel {
    /// No child content.
    Empty,
    /// Any content.
    Any,
    /// Text mixed with the listed elements.
    Mixed(Vec<String>),
    /// A model over child elements, kept as written.
    Children(String),
}

/// A declared element and its content model.
#[derive(Debug, Clone, PartialEq, Eq)]
pub struct DtdElementRule {
    pub name: String,
    pub model: ContentModel,
}

/// A declared attribute.
#[derive(Debug, Clone, PartialEq, Eq)]
pub struct DtdAttributeRule {
    pub element_name: String,
    pub attr_name: String,
    pub attr_type: String,
    pub default_decl: String,
    pub default_value: Option<String>,
}

/// The rules loaded so far, in the order they were read.
#[derive(Debug, Clone, Default)]
pub struct DtdValidator {
    elements: Vec<DtdElementRule>,
    attributes: Vec<DtdAttributeRule>,
}

/// The abstract content of a content model.
pub enum ModelV {
    Empty,
    Any,
    Mixed(Seq<Seq<char>>),
    Children(Seq<char>),
}

/// The abstract content of an element rule.
pub struct ElemRuleV {
    pub name: Seq<char>,
    pub model: ModelV,
}

/// The abstract content of an attribute rule.
pub struct AttrRuleV {
    pub element_name: Seq<char>,
    pub attr_name: Seq<char>,
    pub attr_type: Seq<char>,
    pub default_decl: Seq<char>,
    pub default_value: Option<Seq<char>>,
}

/// The abstract content of a validator.
pub struct DtdV {
    pub elements: Seq<ElemRuleV>,
    pub attributes: Seq<AttrRuleV>,
}

impl View for ContentModel {
    type V = ModelV;

    open spec fn view(&self) -> ModelV {
        match self {
            ContentModel::Empty => ModelV::Empty,
            ContentModel::Any => ModelV::Any,
            ContentModel::Mixed(v) => ModelV::Mixed(v@.map_values(|s: String| s@)),
            ContentModel::Children(s) => ModelV::Children(s@),
        }
    }
}

impl View for DtdElementRule {
    type V = ElemRuleV;

    open spec fn view(&self) -> ElemRuleV {
        ElemRuleV { name: self.name@, model: self.model@ }
    }
}

impl View for DtdAttributeRule {
    type V = AttrRuleV;

    open spec fn view(&self) -> AttrRuleV {
        AttrRuleV {
            element_name: self.element_name@,
            attr_name: self.attr_name@,
            attr_type: self.attr_type@,
            default_decl: self.default_decl@,
            default_value: crate::node::opt_view(self.default_value),
        }
    }
}

impl View for DtdValidator {
    type V = DtdV;

    closed spec fn view(&self) -> DtdV {
        DtdV {
            elements: self.elements@.map_values(|r: DtdElementRule| r@),
            attributes: self.attributes@.map_values(|r: DtdAttributeRule| r@),
        }
    }
}

/// Whether `w` begins with `kw`.
pub open spec fn begins(w: Seq<char>, kw: Seq<char>) -> bool {
    w.len() >= kw.len() && w.take(kw.len() as int) == kw
}

/// The content model a declaration's model text stands for.
pub open spec fn model_of(m: Seq<char>) -> ModelV {
    if contains_seq(m, "EMPTY"@) {
        ModelV::Empty
    } else if contains_seq(m, "ANY"@) {
        ModelV::Any
    } else {
        ModelV::Children(m)
    }
}

/// The element rule a line declares: `<!ELEMENT name model...>`.
pub open spec fn element_decl(line: Seq<char>) -> Option<ElemRuleV> {
    let w = words_of(line);
    if w.len() >= 3 && begins(w[0], "<!ELEMENT"@) {
        Some(ElemRuleV { name: w[1], model: model_of(join_spaced(w.skip(2))) })
    } else {
        None
    }
}

/// The default value an attribute's default declaration gives: the word
/// after `#FIXED`, or a quoted literal, without its quotes.
pub open spec fn default_of(raw: Seq<char>) -> Option<Seq<char>> {
    if contains_seq(raw, "#FIXED"@) {
        let ws = words_of(raw);
        if ws.len() >= 2 {
            Some(trimmed(ws[1], false, seq!['"', '\''], true, true))
        } else {
            None
        }
    } else if raw.len() > 0 && (raw[0] == '"' || raw[0] == '\'') {
        Some(trimmed(raw, false, seq!['"', '\''], true, true))
    } else {
        None
    }
}

/// The attribute rule a line declares: `<!ATTLIST element name type [default...]>`.
pub open spec fn attlist_decl(line: Seq<char>) -> Option<AttrRuleV> {
    let w = words_of(line);
    if w.len() >= 4 && begins(w[0], "<!ATTLIST"@) {
        let raw = trim_ws(trimmed(join_spaced(w.skip(4)), false, seq!['>'], false, true));
        Some(
            AttrRuleV {
                element_name: w[1],
                attr_name: w[2],
                attr_type: w[3],
                default_decl: if w.len() >= 5 { raw } else { "#IMPLIED"@ },
                default_value: if w.len() >= 5 { default_of(raw) } else { None },
            },
        )
    } else {
        None
    }
}

/// The element rules declared by a sequence of lines, in order.
pub open spec fn element_decls(lines: Seq<Seq<char>>) -> Seq<ElemRuleV>
    decreases lines.len(),
{
    if lines.len() == 0 {
        Seq::empty()
    } else {
        element_decls(lines.drop_last()) + match element_decl(lines.last()) {
            Some(r) => seq![r],
            None => Seq::empty(),
        }
    }
}

/// The attribute rules declared by a sequence of lines, in order.
pub open spec fn attlist_decls(lines: Seq<Seq<char>>) -> Seq<AttrRuleV>
    decreases lines.len(),
{
    if lines.len() == 0 {
        Seq::empty()
    } else {
        attlist_decls(lines.drop_last()) + match attlist_decl(lines.last()) {
            Some(r) => seq![r],
            None => Seq::empty(),
        }
    }
}

/// The rules after reading a subset: the declarations of its lines appended.
pub open spec fn with_subset(v: DtdV, subset: Seq<char>) -> DtdV {
    DtdV {
        elements: v.elements + element_decls(pieces(subset, '\n')),
        attributes: v.attributes + attlist_decls(pieces(subset, '\n')),
    }
}

/// The content model of the last rule for `name`, if any.
pub open spec fn model_for(rules: Seq<ElemRuleV>, name: Seq<char>) -> Option<ModelV>
    decreases rules.len(),
{
    if rules.len() == 0 {
        None
    } else if rules.last().name == name {
        Some(rules.last().model)
    } else {
        model_for(rules.drop_last(), name)
    }
}

/// The attribute rules for element `name`, in order.
pub open spec fn attr_rules_for(rules: Seq<AttrRuleV>, name: Seq<char>) -> Seq<AttrRuleV>
    decreases rules.len(),
{
    if rules.len() == 0 {
        Seq::empty()
    } else {
        attr_rules_for(rules.drop_last(), name) + if rules.last().element_name == name {
            seq![rules.last()]
        } else {
            Seq::empty()
        }
    }
}

/// A copy of a string.
fn copy_string(s: &String) -> (r: String)
    ensures
        r@ == s@,
{
    string_from_chars(&str_chars(s.as_str()))
}

/// The element rule a line declares.
fn line_element_rule(line: &[char]) -> (r: Option<DtdElementRule>)
    ensures
        match element_decl(line@) {
            Some(e) => r matches Some(x) && x@ == e,
            None => r is None,
        },
{
    let ws = split_words(line);
    let ghost v = ws@.map_values(|w: Vec<char>| w@);
    assert(v =~= words_of(line@));
    if ws.len() < 3 {
        return None;
    }
    let kw: [char; 9] = ['<', '!', 'E', 'L', 'E', 'M', 'E', 'N', 'T'];
    proof {
        reveal_strlit("<!ELEMENT");
        assert(kw@ =~= "<!ELEMENT"@);
    }
    if !crate::text::starts_with_chars(ws[0].as_slice(), &kw) {
        return None;
    }
    let name = string_from_chars(&ws[1]);
    let m = join_from(&ws, 2);
    let empty: [char; 5] = ['E', 'M', 'P', 'T', 'Y'];
    let any: [char; 3] = ['A', 'N', 'Y'];
    proof {
        reveal_strlit("EMPTY");
        reveal_strlit("ANY");
        assert(empty@ =~= "EMPTY"@);
        assert(any@ =~= "ANY"@);
    }
    let model = if contains_chars(&m, &empty) {
        ContentModel::Empty
    } else if contains_chars(&m, &any) {
        ContentModel::Any
    } else {
        ContentModel::Children(string_from_chars(&m))
    };
    Some(DtdElementRule { name, model })
}

/// The default value a default declaration gives.
fn default_value_of(raw: &Vec<char>) -> (r: Option<String>)
    ensures
        crate::node::opt_view(r) == default_of(raw@),
{
    let fixed: [char; 6] = ['#', 'F', 'I', 'X', 'E', 'D'];
    let quotes: [char; 2] = ['"', '\''];
    proof {
        reveal_strlit("#FIXED");
        assert(fixed@ =~= "#FIXED"@);
        assert(quotes@ =~= seq!['"', '\'']);
    }
    if contains_chars(raw, &fixed) {
        let ws = split_words(raw.as_slice());
        let ghost v = ws@.map_values(|w: Vec<char>| w@);
        assert(v =~= words_of(raw@));
        if ws.len() >= 2 {
            let t = trim_class(ws[1].as_slice(), false, &quotes, true, true);
            Some(string_from_chars(&t))
        } else {
            None
        }
    } else if raw.len() > 0 && (raw[0] == '"' || raw[0] == '\'') {
        let t = trim_class(raw.as_slice(), false, &quotes, true, true);
        Some(string_from_chars(&t))
    } else {
        None
    }
}

/// The attribute rule a line declares.
fn line_attribute_rule(line: &[char]) -> (r: Option<DtdAttributeRule>)
    ensures
        match attlist_decl(line@) {
            Some(a) => r matches Some(x) && x@ == a,
            None => r is None,
        },
{
    let ws = split_words(line);
    let ghost v = ws@.map_values(|w: Vec<char>| w@);
    assert(v =~= words_of(line@));
    if ws.len() < 4 {
        return None;
    }
    let kw: [char; 9] = ['<', '!', 'A', 'T', 'T', 'L', 'I', 'S', 'T'];
    proof {
        reveal_strlit("<!ATTLIST");
        assert(kw@ =~= "<!ATTLIST"@);
    }
    if !crate::text::starts_with_chars(ws[0].as_slice(), &kw) {
        return None;
    }
    let gt: [char; 1] = ['>'];
    assert(gt@ =~= seq!['>']);
    let joined = join_from(&ws, 4);
    let no_gt = trim_class(&joined, false, &gt, false, true);
    let empty: [char; 0] = [];
    assert(empty@ =~= Seq::<char>::empty());
    let raw = trim_class(&no_gt, true, &empty, true, true);
    let (default_decl, default_value) = if ws.len() >= 5 {
        let dv = default_value_of(&raw);
        (string_from_chars(&raw), dv)
    } else {
        proof {
            reveal_strlit("#IMPLIED");
        }
        ("#IMPLIED".to_string(), None)
    };
    Some(
        DtdAttributeRule {
            element_name: string_from_chars(&ws[1]),
            attr_name: string_from_chars(&ws[2]),
            attr_type: string_from_chars(&ws[3]),
            default_decl,
            default_value,
        },
    )
}

impl DtdValidator {
    /// A validator with no rules.
    pub fn new() -> (r: Self)
        ensures
            r@.elements == Seq::<ElemRuleV>::empty(),
            r@.attributes == Seq::<AttrRuleV>::empty(),
    {
        let r = DtdValidator { elements: Vec::new(), attributes: Vec::new() };
        assert(r@.elements =~= Seq::<ElemRuleV>::empty());
        assert(r@.attributes =~= Seq::<AttrRuleV>::empty());
        r
    }

    /// Reads `<!ELEMENT>` and `<!ATTLIST>` declarations, one per line, and
    /// adds their rules after the ones already loaded. Other lines are
    /// ignored; this never fails.
    pub fn parse_subset(&mut self, subset: &str) -> (r: Result<(), XmlError>)
        ensures
            r is Ok,
            final(self)@ == with_subset(old(self)@, subset@),
    {
        let cs = str_chars(subset);
        let lines = split_chars(&cs, '\n');
        let ghost ls = pieces(subset@, '\n');
        let ghost e0 = self@.elements;
        let ghost a0 = self@.attributes;
        let mut i: usize = 0;
        while i < lines.len()
            invariant
                i <= lines@.len(),
                lines@.len() == ls.len(),
                forall|j: int| 0 <= j < lines@.len() ==> #[trigger] lines@[j]@ == ls[j],
                self@.elements == e0 + element_decls(ls.take(i as int)),
                self@.attributes == a0 + attlist_decls(ls.take(i as int)),
            decreases lines@.len() - i,
        {
            let ghost before = self@;
            let ghost line = lines@[i as int]@;
            match line_element_rule(lines[i].as_slice()) {
                Some(rule) => {
                    let ghost rv = rule@;
                    self.elements.push(rule);
                    assert(self@.elements =~= before.elements.push(rv));
                },
                None => {},
            }
            assert(self@.elements =~= before.elements + match element_decl(line) {
                Some(r) => seq![r],
                None => Seq::empty(),
            });
            let ghost mid = self@;
            match line_attribute_rule(lines[i].as_slice()) {
                Some(rule) => {
                    let ghost rv = rule@;
                    self.attributes.push(rule);
                    assert(self@.attributes =~= mid.attributes.push(rv));
                },
                None => {},
            }
            assert(self@.attributes =~= before.attributes + match attlist_decl(line) {
                Some(r) => seq![r],
                None => Seq::empty(),
            });
            proof {
                assert(ls.take(i + 1).drop_last() =~= ls.take(i as int));
                assert(ls.take(i + 1).last() == lines@[i as int]@);
                assert(self@.elements =~= e0 + element_decls(ls.take(i + 1)));
                assert(self@.attributes =~= a0 + attlist_decls(ls.take(i + 1)));
            }
            i = i + 1;
        }
        assert(ls.take(ls.len() as int) =~= ls);
        Ok(())
    }
}

/// The deepest element nesting validation walks into.
pub const MAX_VALIDATION_DEPTH: usize = 512;

/// The type of the first rule declaring attribute `attr` of element `elem`.
pub open spec fn rule_type(rules: Seq<AttrRuleV>, elem: Seq<char>, attr: Seq<char>, i: int) -> Option<Seq<char>>
    decreases rules.len() - i,
{
    if i < 0 || i >= rules.len() {
        None
    } else if rules[i].element_name == elem && rules[i].attr_name == attr {
        Some(rules[i].attr_type)
    } else {
        rule_type(rules, elem, attr, i + 1)
    }
}

/// Whether some rule for `elem` marks an attribute `#REQUIRED` that `attrs`
/// lacks.
pub open spec fn required_missing(rules: Seq<AttrRuleV>, elem: Seq<char>, attrs: Seq<AttrV>) -> bool {
    exists|i: int|
        0 <= i < rules.len() && #[trigger] rules[i].element_name == elem && contains_seq(
            rules[i].default_decl,
            "#REQUIRED"@,
        ) && attr_find(attrs, rules[i].attr_name) is None
}

/// A piece of a sequence model cleaned of white space and `>`.
pub open spec fn clean_name(p: Seq<char>) -> Seq<char> {
    trim_ws(trimmed(trim_ws(p), false, seq!['>'], true, true))
}

/// The cleaned pieces that name elements (nonempty, not starting with `#`).
pub open spec fn clean_names(ps: Seq<Seq<char>>) -> Seq<Seq<char>>
    decreases ps.len(),
{
    if ps.len() == 0 {
        Seq::empty()
    } else {
        let c = clean_name(ps.last());
        clean_names(ps.drop_last()) + if c.len() > 0 && c[0] != '#' {
            seq![c]
        } else {
            Seq::empty()
        }
    }
}

/// The child names a plain sequence model `(a, b, c)` requires.
pub open spec fn required_names(spec: Seq<char>) -> Seq<Seq<char>> {
    clean_names(pieces(trimmed(spec, false, seq!['(', ')', '>', ' '], true, true), ','))
}

/// Whether a children model is checked: it has a comma and no `*` or `?`.
pub open spec fn checks_sequence(spec: Seq<char>) -> bool {
    contains_seq(spec, ","@) && !contains_seq(spec, "*"@) && !contains_seq(spec, "?"@)
}

/// The names of the element children, in order.
pub open spec fn child_element_names(d: DocV, cs: Seq<NodeId>) -> Seq<Seq<char>>
    decreases cs.len(),
{
    if cs.len() == 0 {
        Seq::empty()
    } else {
        child_element_names(d, cs.drop_last()) + if d.valid(cs.last() as int) && d.nodes[cs.last() as int].kind is Element {
            seq![d.nodes[cs.last() as int].kind->Element_name]
        } else {
            Seq::empty()
        }
    }
}

/// Whether the children satisfy the content model: no element or text child
/// under `EMPTY`; under a plain sequence `(a, b, c)` the element children
/// are exactly the named ones, in that order.
pub open spec fn model_ok(d: DocV, m: Option<ModelV>, cs: Seq<NodeId>) -> bool {
    match m {
        Some(ModelV::Empty) => !exists|i: int|
            0 <= i < cs.len() && d.valid(#[trigger] cs[i] as int) && (d.nodes[cs[i] as int].kind is Element
                || d.nodes[cs[i] as int].kind is Text),
        Some(ModelV::Children(sp)) => checks_sequence(sp) ==> child_element_names(d, cs) == required_names(sp),
        _ => true,
    }
}

/// Whether element `id` satisfies its own rules (content model and required
/// attributes).
pub open spec fn element_conforms(d: DocV, v: DtdV, id: NodeId) -> bool {
    match d.nodes[id as int].kind {
        KindV::Element { name, attributes } => model_ok(d, model_for(v.elements, name), d.nodes[id as int].children)
            && !required_missing(v.attributes, name, attributes),
        _ => true,
    }
}

/// The ID values and IDREF values one attribute contributes.
pub open spec fn attr_ids(v: DtdV, elem: Seq<char>, a: AttrV) -> (Seq<Seq<char>>, Seq<Seq<char>>) {
    match rule_type(v.attributes, elem, a.name, 0) {
        Some(t) => if t == "ID"@ {
            (seq![a.value], Seq::empty())
        } else if t == "IDREF"@ {
            (Seq::empty(), seq![a.value])
        } else if t == "IDREFS"@ {
            (Seq::empty(), words_of(a.value))
        } else {
            (Seq::empty(), Seq::empty())
        },
        None => (Seq::empty(), Seq::empty()),
    }
}

/// An `IDREFS` attribute contributes no ID and one reference per word of
/// its value: each reference is a nonempty run without white space, the
/// references together hold exactly the characters of the value that are
/// not white space, and there are as many as places where a word starts.
pub proof fn law_idrefs_tokens(v: DtdV, elem: Seq<char>, a: AttrV)
    requires
        rule_type(v.attributes, elem, a.name, 0) == Some("IDREFS"@),
    ensures
        attr_ids(v, elem, a).0.len() == 0,
        forall|j: int|
            0 <= j < attr_ids(v, elem, a).1.len() ==> #[trigger] attr_ids(v, elem, a).1[j].len() > 0 && forall|i: int|
                0 <= i < attr_ids(v, elem, a).1[j].len() ==> !unicode_whitespace(
                    #[trigger] attr_ids(v, elem, a).1[j][i],
                ),
        concat_all(attr_ids(v, elem, a).1) == non_space(a.value),
        attr_ids(v, elem, a).1.len() == word_starts(a.value, true),
{
    reveal_strlit("IDREFS");
    reveal_strlit("IDREF");
    reveal_strlit("ID");
    assert("IDREFS"@ != "ID"@) by {
        assert("IDREFS"@.len() != "ID"@.len());
    }
    assert("IDREFS"@ != "IDREF"@) by {
        assert("IDREFS"@.len() != "IDREF"@.len());
    }
    assert(attr_ids(v, elem, a) == (Seq::<Seq<char>>::empty(), words_of(a.value)));
    crate::parser::subset::lemma_words_of(a.value);
}

/// The ID and IDREF values of a list of attributes, in order.
pub open spec fn attrs_ids(v: DtdV, elem: Seq<char>, attrs: Seq<AttrV>) -> (Seq<Seq<char>>, Seq<Seq<char>>)
    decreases attrs.len(),
{
    if attrs.len() == 0 {
        (Seq::empty(), Seq::empty())
    } else {
        let p = attrs_ids(v, elem, attrs.drop_last());
        let q = attr_ids(v, elem, attrs.last());
        (p.0 + q.0, p.1 + q.1)
    }
}

/// What a validation walk gathers: whether it went too deep, the ID and
/// IDREF values in document order, and whether every element conformed.
pub struct WalkV {
    pub deep: bool,
    pub ids: Seq<Seq<char>>,
    pub refs: Seq<Seq<char>>,
    pub conform: bool,
}

/// Nothing gathered.
pub open spec fn walk_empty() -> WalkV {
    WalkV { deep: false, ids: Seq::empty(), refs: Seq::empty(), conform: true }
}

/// Two walks one after the other.
pub open spec fn walk_then(a: WalkV, b: WalkV) -> WalkV {
    WalkV { deep: a.deep || b.deep, ids: a.ids + b.ids, refs: a.refs + b.refs, conform: a.conform && b.conform }
}

/// The walk over element `id` at nesting `depth` and its element
/// descendants.
pub open spec fn walk_node(d: DocV, v: DtdV, id: NodeId, depth: int) -> WalkV
    decreases 513 - depth, 1int, 0int,
{
    if depth > 512 || depth < 0 {
        WalkV { deep: true, ids: Seq::empty(), refs: Seq::empty(), conform: true }
    } else if !d.valid(id as int) {
        walk_empty()
    } else {
        let own = match d.nodes[id as int].kind {
            KindV::Element { name, attributes } => {
                let p = attrs_ids(v, name, attributes);
                WalkV { deep: false, ids: p.0, refs: p.1, conform: element_conforms(d, v, id) }
            },
            _ => walk_empty(),
        };
        walk_then(own, walk_children(d, v, d.nodes[id as int].children, depth + 1, 0))
    }
}

/// The walks over the element children `cs[k..]` at nesting `depth`.
pub open spec fn walk_children(d: DocV, v: DtdV, cs: Seq<NodeId>, depth: int, k: int) -> WalkV
    decreases 514 - depth, 0int, cs.len() - k,
{
    if depth > 513 || depth < 0 || k < 0 || k >= cs.len() {
        walk_empty()
    } else {
        walk_then(
            if d.valid(cs[k] as int) && d.nodes[cs[k] as int].kind is Element {
                walk_node(d, v, cs[k], depth)
            } else {
                walk_empty()
            },
            walk_children(d, v, cs, depth, k + 1),
        )
    }
}

/// No value occurs twice.
pub open spec fn no_dup(s: Seq<Seq<char>>) -> bool {
    forall|i: int, j: int| 0 <= i < j < s.len() ==> #[trigger] s[i] != #[trigger] s[j]
}

/// Every IDREF value of the walk names one of its ID values.
pub open spec fn refs_resolved(w: WalkV) -> bool {
    forall|i: int| 0 <= i < w.refs.len() ==> w.ids.contains(#[trigger] w.refs[i])
}

/// Whether the document satisfies the rules: from its root element, no
/// element nests deeper than the validation limit, ID values are unique,
/// every element conforms, and every IDREF names an ID.
pub open spec fn dtd_valid(d: DocV, v: DtdV) -> bool {
    match d.root_id {
        Some(r) => match (if d.valid(r as int) { d.first_element_child(r as int) } else { None }) {
            Some(e) => {
                let w = walk_node(d, v, e, 0);
                !w.deep && no_dup(w.ids) && w.conform && refs_resolved(w)
            },
            None => true,
        },
        None => true,
    }
}

/// The views of a list of character vectors.
pub open spec fn vv(s: Seq<Vec<char>>) -> Seq<Seq<char>> {
    s.map_values(|v: Vec<char>| v@)
}

proof fn lemma_no_dup_prefix(s: Seq<Seq<char>>, t: Seq<Seq<char>>)
    requires
        no_dup(s + t),
    ensures
        no_dup(s),
{
    assert forall|i: int, j: int| 0 <= i < j < s.len() implies #[trigger] s[i] != #[trigger] s[j] by {
        assert((s + t)[i] == s[i] && (s + t)[j] == s[j]);
    }
}

proof fn lemma_walk_then_assoc(a: WalkV, b: WalkV, c: WalkV)
    ensures
        walk_then(walk_then(a, b), c) == walk_then(a, walk_then(b, c)),
{
    assert(walk_then(walk_then(a, b), c).ids =~= walk_then(a, walk_then(b, c)).ids);
    assert(walk_then(walk_then(a, b), c).refs =~= walk_then(a, walk_then(b, c)).refs);
}

/// Whether a list holds a value.
fn holds(list: &Vec<Vec<char>>, x: &Vec<char>) -> (r: bool)
    ensures
        r == vv(list@).contains(x@),
{
    let mut i: usize = 0;
    while i < list.len()
        invariant
            i <= list@.len(),
            forall|j: int| 0 <= j < i ==> #[trigger] vv(list@)[j] != x@,
        decreases list@.len() - i,
    {
        if crate::text::chars_eq(list[i].as_slice(), x.as_slice()) {
            assert(vv(list@)[i as int] == x@);
            return true;
        }
        i = i + 1;
    }
    false
}

/// Appends the words of `value` to `out`.
fn push_words(value: &Vec<char>, out: &mut Vec<Vec<char>>)
    ensures
        vv(final(out)@) == vv(old(out)@) + words_of(value@),
{
    let ws = split_words(value.as_slice());
    let ghost w = ws@.map_values(|x: Vec<char>| x@);
    assert(w =~= words_of(value@));
    let mut i: usize = 0;
    while i < ws.len()
        invariant
            i <= ws@.len(),
            w == ws@.map_values(|x: Vec<char>| x@),
            vv(out@) == vv(old(out)@) + w.take(i as int),
        decreases ws@.len() - i,
    {
        let ghost before = out@;
        let item = crate::entity::mapper::sub_chars(ws[i].as_slice(), 0, ws[i].len());
        assert(item@ =~= w[i as int]);
        out.push(item);
        assert(vv(out@) =~= vv(before).push(w[i as int]));
        assert(w.take(i + 1) =~= w.take(i as int).push(w[i as int]));
        assert(vv(out@) =~= vv(old(out)@) + w.take(i + 1));
        i = i + 1;
    }
    assert(w.take(w.len() as int) =~= w);
}

impl DtdValidator {
    /// The type of the first rule declaring attribute `attr` of element `elem`.
    fn rule_type_of(&self, elem: &str, attr: &str) -> (r: Option<String>)
        ensures
            crate::node::opt_view(r) == rule_type(self@.attributes, elem@, attr@, 0),
    {
        let mut i: usize = 0;
        while i < self.attributes.len()
            invariant
                i <= self.attributes@.len(),
                rule_type(self@.attributes, elem@, attr@, 0) == rule_type(self@.attributes, elem@, attr@, i as int),
            decreases self.attributes@.len() - i,
        {
            let r = &self.attributes[i];
            assert(self@.attributes[i as int] == r@);
            if crate::text::str_eq(r.element_name.as_str(), elem) && crate::text::str_eq(r.attr_name.as_str(), attr) {
                return Some(copy_string(&r.attr_type));
            }
            i = i + 1;
        }
        None
    }

    /// Whether some rule for `elem` marks an attribute `#REQUIRED` that
    /// `attrs` lacks.
    fn required_missing_in(&self, elem: &str, attrs: &Vec<Attribute>) -> (r: bool)
        ensures
            r == required_missing(self@.attributes, elem@, crate::node::attrs_view(attrs@)),
    {
        let req: [char; 9] = ['#', 'R', 'E', 'Q', 'U', 'I', 'R', 'E', 'D'];
        proof {
            reveal_strlit("#REQUIRED");
            assert(req@ =~= "#REQUIRED"@);
        }
        let ghost av = crate::node::attrs_view(attrs@);
        let mut i: usize = 0;
        while i < self.attributes.len()
            invariant
                i <= self.attributes@.len(),
                req@ == "#REQUIRED"@,
                av == crate::node::attrs_view(attrs@),
                forall|j: int|
                    0 <= j < i ==> !(#[trigger] self@.attributes[j].element_name == elem@ && contains_seq(
                        self@.attributes[j].default_decl,
                        "#REQUIRED"@,
                    ) && attr_find(av, self@.attributes[j].attr_name) is None),
            decreases self.attributes@.len() - i,
        {
            let r = &self.attributes[i];
            assert(self@.attributes[i as int] == r@);
            if crate::text::str_eq(r.element_name.as_str(), elem) {
                let dd = str_chars(r.default_decl.as_str());
                if contains_chars(&dd, &req) {
                    let present = crate::node::find_attr_index(attrs, r.attr_name.as_str());
                    if present.is_none() {
                        assert(self@.attributes[i as int].element_name == elem@);
                        assert(contains_seq(self@.attributes[i as int].default_decl, "#REQUIRED"@));
                        assert(attr_find(av, self@.attributes[i as int].attr_name) is None);
                        return true;
                    }
                }
            }
            i = i + 1;
        }
        false
    }
}

/// The child names a plain sequence model requires.
fn required_names_of(spec: &Vec<char>) -> (r: Vec<Vec<char>>)
    ensures
        vv(r@) == required_names(spec@),
{
    let strip: [char; 4] = ['(', ')', '>', ' '];
    let gt: [char; 1] = ['>'];
    let none: [char; 0] = [];
    assert(strip@ =~= seq!['(', ')', '>', ' ']);
    assert(gt@ =~= seq!['>']);
    assert(none@ =~= Seq::<char>::empty());
    let core = trim_class(spec.as_slice(), false, &strip, true, true);
    let ps = split_chars(&core, ',');
    let ghost pv = pieces(core@, ',');
    let mut out: Vec<Vec<char>> = Vec::new();
    let mut i: usize = 0;
    while i < ps.len()
        invariant
            i <= ps@.len(),
            ps@.len() == pv.len(),
            forall|j: int| 0 <= j < ps@.len() ==> #[trigger] ps@[j]@ == pv[j],
            gt@ == seq!['>'],
            none@ == Seq::<char>::empty(),
            vv(out@) == clean_names(pv.take(i as int)),
        decreases ps@.len() - i,
    {
        let a = trim_class(ps[i].as_slice(), true, &none, true, true);
        let b = trim_class(&a, false, &gt, true, true);
        let c = trim_class(&b, true, &none, true, true);
        let ghost before = out@;
        assert(pv.take(i + 1).drop_last() =~= pv.take(i as int));
        assert(pv.take(i + 1).last() == pv[i as int]);
        assert(c@ == clean_name(pv[i as int]));
        if c.len() > 0 && c[0] != '#' {
            out.push(c);
            assert(vv(out@) =~= vv(before).push(clean_name(pv[i as int])));
        } else {
            assert(vv(out@) =~= vv(before));
        }
        assert(vv(out@) =~= clean_names(pv.take(i + 1)));
        i = i + 1;
    }
    assert(pv.take(pv.len() as int) =~= pv);
    out
}

/// The names of the element children, in order.
pub(crate) fn child_names(doc: &Document, cs: &Vec<NodeId>) -> (r: Vec<Vec<char>>)
    ensures
        vv(r@) == child_element_names(doc@, cs@),
{
    let mut out: Vec<Vec<char>> = Vec::new();
    let mut i: usize = 0;
    while i < cs.len()
        invariant
            i <= cs@.len(),
            vv(out@) == child_element_names(doc@, cs@.take(i as int)),
        decreases cs@.len() - i,
    {
        let ghost before = out@;
        assert(cs@.take(i + 1).drop_last() =~= cs@.take(i as int));
        assert(cs@.take(i + 1).last() == cs@[i as int]);
        match doc.get_node(cs[i]) {
            Some(n) => match &n.kind {
                NodeKind::Element { name, .. } => {
                    out.push(str_chars(name.as_str()));
                    assert(vv(out@) =~= vv(before).push(name@));
                },
                _ => {
                    assert(vv(out@) =~= vv(before));
                },
            },
            None => {
                assert(vv(out@) =~= vv(before));
            },
        }
        assert(vv(out@) =~= child_element_names(doc@, cs@.take(i + 1)));
        i = i + 1;
    }
    assert(cs@.take(cs@.len() as int) =~= cs@);
    out
}

/// Whether two lists of names are equal.
fn same_names(a: &Vec<Vec<char>>, b: &Vec<Vec<char>>) -> (r: bool)
    ensures
        r == (vv(a@) == vv(b@)),
{
    if a.len() != b.len() {
        assert(vv(a@).len() != vv(b@).len());
        return false;
    }
    let mut i: usize = 0;
    while i < a.len()
        invariant
            a@.len() == b@.len(),
            i <= a@.len(),
            forall|q: int| 0 <= q < i ==> #[trigger] a@[q]@ == b@[q]@,
        decreases a@.len() - i,
    {
        if !chars_eq(&a[i], &b[i]) {
            assert(vv(a@)[i as int] != vv(b@)[i as int]);
            return false;
        }
        i = i + 1;
    }
    assert(vv(a@) =~= vv(b@));
    true
}

/// Whether the children satisfy a content model.
fn model_holds(doc: &Document, m: Option<&ContentModel>, cs: &Vec<NodeId>) -> (r: bool)
    ensures
        r == model_ok(
            doc@,
            match m {
                Some(x) => Some(x@),
                None => None,
            },
            cs@,
        ),
{
    match m {
        Some(ContentModel::Empty) => {
            let mut i: usize = 0;
            while i < cs.len()
                invariant
                    i <= cs@.len(),
                    (match m {
                        Some(x) => Some(x@),
                        None => None,
                    }) == Some(ModelV::Empty),
                    forall|j: int|
                        0 <= j < i ==> !(doc@.valid(#[trigger] cs@[j] as int) && (doc@.nodes[cs@[j] as int].kind is Element
                            || doc@.nodes[cs@[j] as int].kind is Text)),
                decreases cs@.len() - i,
            {
                let bad = match doc.get_node(cs[i]) {
                    Some(n) => match &n.kind {
                        NodeKind::Element { .. } => {
                            assert(doc@.nodes[cs@[i as int] as int].kind is Element);
                            true
                        },
                        NodeKind::Text(_) => {
                            assert(doc@.nodes[cs@[i as int] as int].kind is Text);
                            true
                        },
                        _ => false,
                    },
                    None => false,
                };
                if bad {
                    assert(doc@.valid(cs@[i as int] as int));
                    assert(0 <= i < cs@.len() && doc@.valid(cs@[i as int] as int) && (doc@.nodes[cs@[i as int] as int].kind is Element
                        || doc@.nodes[cs@[i as int] as int].kind is Text));
                    return false;
                }
                i = i + 1;
            }
            true
        },
        Some(ContentModel::Children(sp)) => {
            let spc = str_chars(sp.as_str());
            let comma: [char; 1] = [','];
            let star: [char; 1] = ['*'];
            let question: [char; 1] = ['?'];
            proof {
                reveal_strlit(",");
                reveal_strlit("*");
                reveal_strlit("?");
                assert(comma@ =~= ","@);
                assert(star@ =~= "*"@);
                assert(question@ =~= "?"@);
            }
            if !(contains_chars(&spc, &comma) && !contains_chars(&spc, &star) && !contains_chars(&spc, &question)) {
                return true;
            }
            let req = required_names_of(&spc);
            let names = child_names(doc, cs);
            same_names(&names, &req)
        },
        _ => true,
    }
}

impl DtdValidator {
    /// The content model of the last rule for `name`.
    fn model_for_name(&self, name: &str) -> (r: Option<&ContentModel>)
        ensures
            (match r {
                Some(x) => Some(x@),
                None => None,
            }) == model_for(self@.elements, name@),
    {
        let mut i = self.elements.len();
        assert(self@.elements.take(i as int) =~= self@.elements);
        while i > 0
            invariant
                i <= self.elements@.len(),
                model_for(self@.elements, name@) == model_for(self@.elements.take(i as int), name@),
            decreases i,
        {
            let r = &self.elements[i - 1];
            assert(self@.elements.take(i as int).last() == r@);
            assert(self@.elements.take(i as int).drop_last() =~= self@.elements.take(i - 1));
            if crate::text::str_eq(r.name.as_str(), name) {
                return Some(&r.model);
            }
            i = i - 1;
        }
        None
    }

    /// Whether element `id` satisfies its own rules.
    fn element_conforms_at(&self, doc: &Document, id: NodeId) -> (r: bool)
        requires
            doc@.valid(id as int),
        ensures
            r == element_conforms(doc@, self@, id),
    {
        let node = doc.get_node(id).unwrap();
        match &node.kind {
            NodeKind::Element { name, attributes } => {
                let m = self.model_for_name(name.as_str());
                if !model_holds(doc, m, &node.children) {
                    return false;
                }
                !self.required_missing_in(name.as_str(), attributes)
            },
            _ => true,
        }
    }
}

/// A first element found among ids is an element.
pub(crate) proof fn lemma_first_element_from(d: DocV, cs: Seq<NodeId>, i: int)
    requires
        0 <= i,
    ensures
        d.first_element_from(cs, i) matches Some(e) ==> d.is_element(e as int),
    decreases cs.len() - i,
{
    if i < cs.len() && !d.is_element(cs[i] as int) {
        lemma_first_element_from(d, cs, i + 1);
    }
}

proof fn lemma_attrs_ids_step(v: DtdV, elem: Seq<char>, s: Seq<AttrV>, i: int)
    requires
        0 <= i < s.len(),
    ensures
        attrs_ids(v, elem, s.take(i + 1)).0 == attrs_ids(v, elem, s.take(i)).0 + attr_ids(v, elem, s[i]).0,
        attrs_ids(v, elem, s.take(i + 1)).1 == attrs_ids(v, elem, s.take(i)).1 + attr_ids(v, elem, s[i]).1,
{
    assert(s.take(i + 1).drop_last() =~= s.take(i));
    assert(s.take(i + 1).last() == s[i]);
}

proof fn lemma_attrs_ids_prefix(v: DtdV, elem: Seq<char>, s: Seq<AttrV>, i: int) -> (t: Seq<Seq<char>>)
    requires
        0 <= i <= s.len(),
    ensures
        attrs_ids(v, elem, s).0 == attrs_ids(v, elem, s.take(i)).0 + t,
    decreases s.len() - i,
{
    if i == s.len() {
        assert(s.take(i) =~= s);
        assert(attrs_ids(v, elem, s).0 =~= attrs_ids(v, elem, s.take(i)).0 + Seq::<Seq<char>>::empty());
        Seq::empty()
    } else {
        let t1 = lemma_attrs_ids_prefix(v, elem, s, i + 1);
        lemma_attrs_ids_step(v, elem, s, i);
        assert(attrs_ids(v, elem, s).0 =~= attrs_ids(v, elem, s.take(i)).0 + (attr_ids(v, elem, s[i]).0 + t1));
        attr_ids(v, elem, s[i]).0 + t1
    }
}

impl DtdValidator {
    /// Gathers the ID and IDREF values of element `elem_id` and its element
    /// descendants, failing on a repeated ID or on nesting beyond the limit.
    fn collect_ids_and_idrefs(
        &self,
        doc: &Document,
        elem_id: NodeId,
        ids: &mut Vec<Vec<char>>,
        refs: &mut Vec<Vec<char>>,
        depth: usize,
    ) -> (r: Result<(), XmlError>)
        requires
            depth <= MAX_VALIDATION_DEPTH + 1,
            no_dup(vv(old(ids)@)),
        ensures
            (r is Ok) == (!walk_node(doc@, self@, elem_id, depth as int).deep && no_dup(
                vv(old(ids)@) + walk_node(doc@, self@, elem_id, depth as int).ids,
            )),
            r is Ok ==> vv(final(ids)@) == vv(old(ids)@) + walk_node(doc@, self@, elem_id, depth as int).ids
                && vv(final(refs)@) == vv(old(refs)@) + walk_node(doc@, self@, elem_id, depth as int).refs,
            r matches Err(e) ==> e is DtdError,
        decreases MAX_VALIDATION_DEPTH + 1 - depth,
    {
        if depth > MAX_VALIDATION_DEPTH {
            return Err(XmlError::DtdError("Document exceeds maximum validation nesting depth (512)".to_string()));
        }
        let ghost d = doc@;
        let ghost v = self@;
        let ghost w = walk_node(d, v, elem_id, depth as int);
        let node = match doc.get_node(elem_id) {
            Some(n) => n,
            None => {
                assert(vv(old(ids)@) + w.ids =~= vv(old(ids)@));
                assert(vv(old(refs)@) + w.refs =~= vv(old(refs)@));
                return Ok(());
            },
        };
        let ghost own: WalkV = match d.nodes[elem_id as int].kind {
            KindV::Element { name, attributes } => {
                let p = attrs_ids(v, name, attributes);
                WalkV { deep: false, ids: p.0, refs: p.1, conform: element_conforms(d, v, elem_id) }
            },
            _ => walk_empty(),
        };
        let ghost ids0 = vv(ids@);
        let ghost refs0 = vv(refs@);
        if let NodeKind::Element { name, attributes } = &node.kind {
            let ghost av = crate::node::attrs_view(attributes@);
            assert(own.ids == attrs_ids(v, name@, av).0);
            assert(w.ids == own.ids + walk_children(d, v, d.nodes[elem_id as int].children, depth + 1, 0).ids);
            let id_t: [char; 2] = ['I', 'D'];
            let idref_t: [char; 5] = ['I', 'D', 'R', 'E', 'F'];
            let idrefs_t: [char; 6] = ['I', 'D', 'R', 'E', 'F', 'S'];
            proof {
                reveal_strlit("ID");
                reveal_strlit("IDREF");
                reveal_strlit("IDREFS");
                assert(id_t@ =~= "ID"@);
                assert(idref_t@ =~= "IDREF"@);
                assert(idrefs_t@ =~= "IDREFS"@);
            }
            let mut i: usize = 0;
            while i < attributes.len()
                invariant
                    i <= attributes@.len(),
                    av == crate::node::attrs_view(attributes@),
                    v == self@,
                    id_t@ == "ID"@,
                    idref_t@ == "IDREF"@,
                    idrefs_t@ == "IDREFS"@,
                    vv(ids@) == ids0 + attrs_ids(v, name@, av.take(i as int)).0,
                    vv(refs@) == refs0 + attrs_ids(v, name@, av.take(i as int)).1,
                    no_dup(vv(ids@)),
                    ids0 == vv(old(ids)@),
                    d == doc@,
                    w == walk_node(d, v, elem_id, depth as int),
                    own.ids == attrs_ids(v, name@, av).0,
                    w.ids == own.ids + walk_children(d, v, d.nodes[elem_id as int].children, depth + 1, 0).ids,
                decreases attributes@.len() - i,
            {
                let a = &attributes[i];
                assert(av[i as int] == a@);
                proof {
                    lemma_attrs_ids_step(v, name@, av, i as int);
                }
                let t = self.rule_type_of(name.as_str(), a.name.as_str());
                let value = str_chars(a.value.as_str());
                let ghost before_ids = vv(ids@);
                let ghost before_refs = vv(refs@);
                match t {
                    Some(ty) => {
                        let tc = str_chars(ty.as_str());
                        if crate::text::chars_eq(&tc, &id_t) {
                            if holds(ids, &value) {
                                proof {
                                    let k = choose|k: int| 0 <= k < before_ids.len() && before_ids[k] == value@;
                                    let full = before_ids.push(value@);
                                    assert(full =~= ids0 + attrs_ids(v, name@, av.take(i + 1)).0);
                                    let tail = lemma_attrs_ids_prefix(v, name@, av, i + 1);
                                    assert(av.take(av.len() as int) =~= av);
                                    let allv = vv(old(ids)@) + w.ids;
                                    assert(allv =~= full + (tail + walk_children(d, v, d.nodes[elem_id as int].children, depth + 1, 0).ids));
                                    assert(allv[k] == allv[before_ids.len() as int]);
                                }
                                return Err(XmlError::DtdError("Duplicate ID value".to_string()));
                            }
                            ids.push(value);
                            assert(vv(ids@) =~= before_ids.push(a@.value));
                            assert(vv(refs@) =~= before_refs);
                        } else if crate::text::chars_eq(&tc, &idref_t) {
                            refs.push(value);
                            assert(vv(refs@) =~= before_refs.push(a@.value));
                        } else if crate::text::chars_eq(&tc, &idrefs_t) {
                            push_words(&value, refs);
                        }
                    },
                    None => {},
                }
                assert(vv(ids@) =~= ids0 + attrs_ids(v, name@, av.take(i + 1)).0);
                assert(vv(refs@) =~= refs0 + attrs_ids(v, name@, av.take(i + 1)).1);
                i = i + 1;
            }
            assert(av.take(av.len() as int) =~= av);
        } else {
            assert(vv(ids@) =~= ids0 + own.ids);
            assert(vv(refs@) =~= refs0 + own.refs);
        }
        let ghost cs = d.nodes[elem_id as int].children;
        let ghost mut acc = walk_empty();
        assert(walk_then(acc, walk_children(d, self@, cs, depth + 1, 0)) =~= walk_children(d, self@, cs, depth + 1, 0));
        let mut k: usize = 0;
        while k < node.children.len()
            invariant
                d == doc@,
                v == self@,
                depth <= MAX_VALIDATION_DEPTH,
                node@ == d.nodes[elem_id as int],
                cs == node.children@,
                k <= cs.len(),
                w == walk_then(own, walk_children(d, v, cs, depth + 1, 0)),
                w == walk_node(d, v, elem_id, depth as int),
                walk_then(acc, walk_children(d, v, cs, depth + 1, k as int)) == walk_children(d, v, cs, depth + 1, 0),
                !acc.deep,
                vv(ids@) == vv(old(ids)@) + own.ids + acc.ids,
                vv(refs@) == vv(old(refs)@) + own.refs + acc.refs,
                no_dup(vv(ids@)),
            decreases cs.len() - k,
        {
            let c = node.children[k];
            let ghost item = if d.valid(c as int) && d.nodes[c as int].kind is Element {
                walk_node(d, v, c, depth + 1)
            } else {
                walk_empty()
            };
            assert(walk_children(d, v, cs, depth + 1, k as int) == walk_then(item, walk_children(d, v, cs, depth + 1, k + 1)));
            proof {
                lemma_walk_then_assoc(acc, item, walk_children(d, v, cs, depth + 1, k + 1));
            }
            let is_elem = match doc.get_node(c) {
                Some(ch) => match &ch.kind {
                    NodeKind::Element { .. } => {
                        assert(d.nodes[c as int].kind is Element);
                        true
                    },
                    _ => false,
                },
                None => false,
            };
            if is_elem {
                let ghost ids_before = vv(ids@);
                let res = self.collect_ids_and_idrefs(doc, c, ids, refs, depth + 1);
                if res.is_err() {
                    proof {
                        let rest = walk_children(d, v, cs, depth + 1, k + 1);
                        let total = walk_then(walk_then(acc, item), rest);
                        assert(w.ids =~= own.ids + acc.ids + item.ids + rest.ids);
                        if !item.deep {
                            assert(vv(old(ids)@) + w.ids =~= (ids_before + item.ids) + rest.ids);
                            if no_dup(vv(old(ids)@) + w.ids) {
                                lemma_no_dup_prefix(ids_before + item.ids, rest.ids);
                            }
                        }
                    }
                    return res;
                }
            } else {
                assert(item == walk_empty());
            }
            proof {
                acc = walk_then(acc, item);
                assert(vv(ids@) =~= vv(old(ids)@) + own.ids + acc.ids);
                assert(vv(refs@) =~= vv(old(refs)@) + own.refs + acc.refs);
            }
            k = k + 1;
        }
        proof {
            assert(walk_children(d, v, cs, depth + 1, cs.len() as int) == walk_empty());
            assert(walk_then(acc, walk_empty()).ids =~= acc.ids);
            assert(walk_then(acc, walk_empty()).refs =~= acc.refs);
            assert(vv(ids@) =~= vv(old(ids)@) + w.ids);
            assert(vv(refs@) =~= vv(old(refs)@) + w.refs);
        }
        Ok(())
    }
}

impl DtdValidator {
    /// Checks element `elem_id` at nesting `depth` and its element
    /// descendants against the element and attribute rules.
    fn validate_element(&self, doc: &Document, elem_id: NodeId, depth: usize) -> (r: Result<(), XmlError>)
        requires
            depth <= MAX_VALIDATION_DEPTH + 1,
            doc@.is_element(elem_id as int),
        ensures
            (r is Ok) == (!walk_node(doc@, self@, elem_id, depth as int).deep && walk_node(
                doc@,
                self@,
                elem_id,
                depth as int,
            ).conform),
            r matches Err(e) ==> e is DtdError,
        decreases MAX_VALIDATION_DEPTH + 1 - depth,
    {
        if depth > MAX_VALIDATION_DEPTH {
            return Err(XmlError::DtdError("Document exceeds maximum validation nesting depth (512)".to_string()));
        }
        let ghost d = doc@;
        let ghost v = self@;
        let ghost w = walk_node(d, v, elem_id, depth as int);
        let node = doc.get_node(elem_id).unwrap();
        let ghost own: WalkV = match d.nodes[elem_id as int].kind {
            KindV::Element { name, attributes } => {
                let p = attrs_ids(v, name, attributes);
                WalkV { deep: false, ids: p.0, refs: p.1, conform: element_conforms(d, v, elem_id) }
            },
            _ => walk_empty(),
        };
        if !self.element_conforms_at(doc, elem_id) {
            return Err(XmlError::DtdError("Element does not conform to its declaration".to_string()));
        }
        let ghost cs = d.nodes[elem_id as int].children;
        let ghost mut acc = walk_empty();
        assert(walk_then(acc, walk_children(d, v, cs, depth + 1, 0)) =~= walk_children(d, v, cs, depth + 1, 0));
        let mut k: usize = 0;
        while k < node.children.len()
            invariant
                d == doc@,
                v == self@,
                depth <= MAX_VALIDATION_DEPTH,
                node@ == d.nodes[elem_id as int],
                cs == node.children@,
                k <= cs.len(),
                own.conform,
                !own.deep,
                w == walk_then(own, walk_children(d, v, cs, depth + 1, 0)),
                w == walk_node(d, v, elem_id, depth as int),
                walk_then(acc, walk_children(d, v, cs, depth + 1, k as int)) == walk_children(d, v, cs, depth + 1, 0),
                !acc.deep,
                acc.conform,
            decreases cs.len() - k,
        {
            let c = node.children[k];
            let ghost item = if d.valid(c as int) && d.nodes[c as int].kind is Element {
                walk_node(d, v, c, depth + 1)
            } else {
                walk_empty()
            };
            assert(walk_children(d, v, cs, depth + 1, k as int) == walk_then(item, walk_children(d, v, cs, depth + 1, k + 1)));
            proof {
                lemma_walk_then_assoc(acc, item, walk_children(d, v, cs, depth + 1, k + 1));
            }
            let is_elem = match doc.get_node(c) {
                Some(ch) => match &ch.kind {
                    NodeKind::Element { .. } => {
                        assert(d.nodes[c as int].kind is Element);
                        true
                    },
                    _ => false,
                },
                None => false,
            };
            if is_elem {
                let res = self.validate_element(doc, c, depth + 1);
                if res.is_err() {
                    return res;
                }
            }
            proof {
                acc = walk_then(acc, item);
            }
            k = k + 1;
        }
        proof {
            assert(walk_children(d, v, cs, depth + 1, cs.len() as int) == walk_empty());
        }
        Ok(())
    }

    /// Checks the document against the loaded rules.
    fn validate_doc(&self, doc: &Document) -> (r: Result<(), XmlError>)
        ensures
            (r is Ok) == dtd_valid(doc@, self@),
            r matches Err(e) ==> e is DtdError,
    {
        let mut ids: Vec<Vec<char>> = Vec::new();
        let mut refs: Vec<Vec<char>> = Vec::new();
        assert(vv(ids@) =~= Seq::<Seq<char>>::empty());
        assert(vv(refs@) =~= Seq::<Seq<char>>::empty());
        let root = doc.root_element_id();
        match root {
            Some(e) => {
                proof {
                    let r = doc@.root_id->0;
                    lemma_first_element_from(doc@, doc@.children_of(r as int), 0);
                }
                let ghost w = walk_node(doc@, self@, e, 0);
                let ghost ids0 = vv(ids@);
                self.collect_ids_and_idrefs(doc, e, &mut ids, &mut refs, 0)?;
                assert(ids0 + w.ids =~= w.ids);
                assert(!w.deep && no_dup(w.ids));
                assert(vv(ids@) =~= w.ids);
                assert(vv(refs@) =~= w.refs);
                self.validate_element(doc, e, 0)?;
                assert(w.conform);
                let ghost rid = doc@.root_id->0;
                assert(doc@.root_id == Some(rid));
                assert(doc@.valid(rid as int));
                assert(doc@.first_element_child(rid as int) == Some(e));
                assert(dtd_valid(doc@, self@) == refs_resolved(w));
                let mut i: usize = 0;
                while i < refs.len()
                    invariant
                        dtd_valid(doc@, self@) == refs_resolved(w),
                        i <= refs@.len(),
                        vv(ids@) == w.ids,
                        vv(refs@) == w.refs,
                        forall|j: int| 0 <= j < i ==> w.ids.contains(#[trigger] w.refs[j]),
                    decreases refs@.len() - i,
                {
                    assert(vv(refs@)[i as int] == refs@[i as int]@);
                    if !holds(&ids, &refs[i]) {
                        assert(!w.ids.contains(w.refs[i as int]));
                        return Err(XmlError::DtdError("IDREF does not match any declared ID".to_string()));
                    }
                    i = i + 1;
                }
                Ok(())
            },
            None => Ok(()),
        }
    }

    /// A copy of the rules.
    fn copy_rules(&self) -> (r: Self)
        ensures
            r@ == self@,
    {
        let mut elements: Vec<DtdElementRule> = Vec::new();
        let mut i: usize = 0;
        while i < self.elements.len()
            invariant
                i <= self.elements@.len(),
                elements@.map_values(|r: DtdElementRule| r@) == self@.elements.take(i as int),
            decreases self.elements@.len() - i,
        {
            let e = &self.elements[i];
            let model = match &e.model {
                ContentModel::Empty => ContentModel::Empty,
                ContentModel::Any => ContentModel::Any,
                ContentModel::Mixed(names) => {
                    let mut ns: Vec<String> = Vec::new();
                    let mut j: usize = 0;
                    while j < names.len()
                        invariant
                            j <= names@.len(),
                            ns@.map_values(|s: String| s@) == names@.map_values(|s: String| s@).take(j as int),
                        decreases names@.len() - j,
                    {
                        let ghost before = ns@;
                        let c = copy_string(&names[j]);
                        ns.push(c);
                        assert(ns@.map_values(|s: String| s@) =~= before.map_values(|s: String| s@).push(names@[j as int]@));
                        assert(names@.map_values(|s: String| s@).take(j + 1) =~= names@.map_values(|s: String| s@).take(j as int).push(names@[j as int]@));
                        j = j + 1;
                    }
                    assert(names@.map_values(|s: String| s@).take(names@.len() as int) =~= names@.map_values(|s: String| s@));
                    ContentModel::Mixed(ns)
                },
                ContentModel::Children(sp) => ContentModel::Children(copy_string(sp)),
            };
            let ghost before = elements@;
            assert(model@ == e.model@);
            let item = DtdElementRule { name: copy_string(&e.name), model };
            assert(item@ == e@);
            elements.push(item);
            assert(self@.elements[i as int] == e@);
            assert(elements@.map_values(|r: DtdElementRule| r@) =~= before.map_values(|r: DtdElementRule| r@).push(e@));
            assert(self@.elements.take(i + 1) =~= self@.elements.take(i as int).push(e@));
            i = i + 1;
        }
        let mut attributes: Vec<DtdAttributeRule> = Vec::new();
        let mut k: usize = 0;
        while k < self.attributes.len()
            invariant
                k <= self.attributes@.len(),
                attributes@.map_values(|r: DtdAttributeRule| r@) == self@.attributes.take(k as int),
            decreases self.attributes@.len() - k,
        {
            let a = &self.attributes[k];
            let dv = match &a.default_value {
                Some(x) => Some(copy_string(x)),
                None => None,
            };
            let ghost before = attributes@;
            let item = DtdAttributeRule {
                element_name: copy_string(&a.element_name),
                attr_name: copy_string(&a.attr_name),
                attr_type: copy_string(&a.attr_type),
                default_decl: copy_string(&a.default_decl),
                default_value: dv,
            };
            assert(item@ == a@);
            attributes.push(item);
            assert(self@.attributes[k as int] == a@);
            assert(attributes@.map_values(|r: DtdAttributeRule| r@) =~= before.map_values(|r: DtdAttributeRule| r@).push(a@));
            assert(self@.attributes.take(k + 1) =~= self@.attributes.take(k as int).push(a@));
            k = k + 1;
        }
        let r = DtdValidator { elements, attributes };
        assert(self@.elements.take(self@.elements.len() as int) =~= self@.elements);
        assert(self@.attributes.take(self@.attributes.len() as int) =~= self@.attributes);
        r
    }

    /// Validates the document, first adding the rules of `external_subset`
    /// (what the DOCTYPE's system identifier resolves to, when the caller
    /// resolved it) and of the internal subset when the document has a
    /// DOCTYPE.
    pub fn validate_with_external_subset(&self, doc: &Document, external_subset: Option<&str>) -> (r: Result<(), XmlError>)
        ensures
            (r is Ok) == dtd_valid(
                doc@,
                effective_rules(
                    doc@,
                    self@,
                    match external_subset {
                        Some(s) => Some(s@),
                        None => None,
                    },
                ),
            ),
            r matches Err(e) ==> e is DtdError,
    {
        if let Some(dtd_id) = doc.dtd_id() {
            if let Some(node) = doc.get_node(dtd_id) {
                if let NodeKind::DocTypeDefinition { system_id, internal_subset, .. } = &node.kind {
                    let mut rules = self.copy_rules();
                    if system_id.is_some() {
                        if let Some(ext) = external_subset {
                            let _ = rules.parse_subset(ext);
                        }
                    }
                    if let Some(subset) = internal_subset {
                        let _ = rules.parse_subset(subset.as_str());
                    }
                    return rules.validate_doc(doc);
                }
            }
        }
        self.validate_doc(doc)
    }

    /// Validates the document against the loaded rules and those of its
    /// internal subset.
    pub fn validate(&self, doc: &Document) -> (r: Result<(), XmlError>)
        ensures
            (r is Ok) == dtd_valid(doc@, effective_rules(doc@, self@, None)),
            r matches Err(e) ==> e is DtdError,
    {
        self.validate_with_external_subset(doc, None)
    }
}

/// The rules in force for a document: the loaded ones, then those of the
/// external subset (when the DOCTYPE names a system identifier and the
/// subset was resolved), then those of the internal subset.
pub open spec fn effective_rules(d: DocV, v: DtdV, ext: Option<Seq<char>>) -> DtdV {
    match d.dtd_id {
        Some(x) => if d.valid(x as int) {
            match d.nodes[x as int].kind {
                KindV::DocTypeDefinition { system_id, internal_subset, .. } => {
                    let v1 = match (system_id, ext) {
                        (Some(_), Some(e)) => with_subset(v, e),
                        _ => v,
                    };
                    match internal_subset {
                        Some(s) => with_subset(v1, s),
                        None => v1,
                    }
                },
                _ => v,
            }
        } else {
            v
        },
        None => v,
    }
}

/// The defaults an element lacks: for each rule of its name with a default
/// value, in order, the attribute name and value when the element's
/// attributes (as they were before any default was added) do not name it.
pub open spec fn own_defaults(rules: Seq<AttrRuleV>, id: NodeId, elem: Seq<char>, attrs: Seq<AttrV>) -> Seq<(NodeId, Seq<char>, Seq<char>)>
    decreases rules.len(),
{
    if rules.len() == 0 {
        Seq::empty()
    } else {
        let r = rules.last();
        own_defaults(rules.drop_last(), id, elem, attrs) + if r.element_name == elem && r.default_value is Some
            && attr_find(attrs, r.attr_name) is None {
            seq![(id, r.attr_name, r.default_value->0)]
        } else {
            Seq::empty()
        }
    }
}

/// The defaults to add in the subtree below `id`: the node's own, then those
/// of its subtrees from the last child to the first.
pub open spec fn pending_defaults(d: DocV, v: DtdV, id: NodeId, fuel: nat) -> Seq<(NodeId, Seq<char>, Seq<char>)>
    decreases fuel, 0nat, 0int,
{
    if !d.valid(id as int) {
        Seq::empty()
    } else {
        let own = match d.nodes[id as int].kind {
            KindV::Element { name, attributes } => own_defaults(v.attributes, id, name, attributes),
            _ => Seq::empty(),
        };
        own + if fuel > 0 {
            pending_from_children(d, v, d.nodes[id as int].children, (fuel - 1) as nat, d.nodes[id as int].children.len() as int)
        } else {
            Seq::empty()
        }
    }
}

/// The defaults of the subtrees below `cs[k-1]`, `cs[k-2]`, ..., `cs[0]`.
pub open spec fn pending_from_children(d: DocV, v: DtdV, cs: Seq<NodeId>, fuel: nat, k: int) -> Seq<(NodeId, Seq<char>, Seq<char>)>
    decreases fuel, 1nat, k,
{
    if k <= 0 || k > cs.len() {
        Seq::empty()
    } else {
        pending_defaults(d, v, cs[k - 1], fuel) + pending_from_children(d, v, cs, fuel, k - 1)
    }
}

/// The document after setting each pending attribute in turn.
pub open spec fn apply_pending(d: DocV, p: Seq<(NodeId, Seq<char>, Seq<char>)>) -> DocV
    decreases p.len(),
{
    if p.len() == 0 {
        d
    } else {
        let d1 = apply_pending(d, p.drop_last());
        with_attribute_set(d1, p.last().0, p.last().1, p.last().2)
    }
}

impl DtdValidator {
    /// Appends the defaults element `id` (with kind `name`, `attrs`) lacks.
    fn push_own_defaults(&self, id: NodeId, name: &str, attrs: &Vec<Attribute>, out: &mut Vec<(NodeId, String, String)>)
        ensures
            pend_view(final(out)@) == pend_view(old(out)@) + own_defaults(self@.attributes, id, name@, crate::node::attrs_view(attrs@)),
    {
        let ghost av = crate::node::attrs_view(attrs@);
        let mut i: usize = 0;
        while i < self.attributes.len()
            invariant
                i <= self.attributes@.len(),
                av == crate::node::attrs_view(attrs@),
                pend_view(out@) == pend_view(old(out)@) + own_defaults(self@.attributes.take(i as int), id, name@, av),
            decreases self.attributes@.len() - i,
        {
            let r = &self.attributes[i];
            let ghost before = pend_view(out@);
            assert(self@.attributes[i as int] == r@);
            assert(self@.attributes.take(i + 1).drop_last() =~= self@.attributes.take(i as int));
            assert(self@.attributes.take(i + 1).last() == r@);
            if crate::text::str_eq(r.element_name.as_str(), name) {
                if let Some(dv) = &r.default_value {
                    if crate::node::find_attr_index(attrs, r.attr_name.as_str()).is_none() {
                        out.push((id, copy_string(&r.attr_name), copy_string(dv)));
                        assert(pend_view(out@) =~= before.push((id, r@.attr_name, r@.default_value->0)));
                    }
                }
            }
            assert(pend_view(out@) =~= pend_view(old(out)@) + own_defaults(self@.attributes.take(i + 1), id, name@, av));
            i = i + 1;
        }
        assert(self@.attributes.take(self@.attributes.len() as int) =~= self@.attributes);
    }

    /// Appends the defaults of the subtree below `id`.
    fn gather_defaults(&self, doc: &Document, id: NodeId, out: &mut Vec<(NodeId, String, String)>, Ghost(fuel): Ghost<nat>)
        requires
            doc@.wf(),
            doc@.valid(id as int) ==> doc@.bounded(id as int, fuel),
        ensures
            pend_view(final(out)@) == pend_view(old(out)@) + pending_defaults(doc@, self@, id, fuel),
        decreases fuel, 1nat,
    {
        let node = match doc.get_node(id) {
            Some(n) => n,
            None => {
                assert(pend_view(old(out)@) + pending_defaults(doc@, self@, id, fuel) =~= pend_view(old(out)@));
                return;
            },
        };
        let ghost p0 = pend_view(out@);
        match &node.kind {
            NodeKind::Element { name, attributes } => {
                self.push_own_defaults(id, name.as_str(), attributes, out);
            },
            _ => {},
        }
        let ghost own = match doc@.nodes[id as int].kind {
            KindV::Element { name, attributes } => own_defaults(self@.attributes, id, name, attributes),
            _ => Seq::empty(),
        };
        assert(pend_view(out@) =~= p0 + own);
        let ghost cs = node.children@;
        let mut k = node.children.len();
        proof {
            if fuel == 0 {
                assert(cs.len() == 0);
            }
        }
        let ghost p1 = pend_view(out@);
        assert(p1 + pending_from_children(doc@, self@, cs, (fuel - 1) as nat, cs.len() as int) =~= p1 + pending_from_children(doc@, self@, cs, (fuel - 1) as nat, k as int));
        while k > 0
            invariant
                k <= cs.len(),
                cs == node.children@,
                node@ == doc@.nodes[id as int],
                doc@.wf(),
                doc@.valid(id as int),
                doc@.bounded(id as int, fuel),
                fuel > 0 || cs.len() == 0,
                p1 + pending_from_children(doc@, self@, cs, (fuel - 1) as nat, cs.len() as int) == pend_view(out@)
                    + pending_from_children(doc@, self@, cs, (fuel - 1) as nat, k as int),
            decreases k,
        {
            let c = node.children[k - 1];
            let ghost before = pend_view(out@);
            assert(doc@.nodes[id as int].children[k - 1] == c);
            assert(doc@.bounded(c as int, (fuel - 1) as nat));
            self.gather_defaults(doc, c, out, Ghost((fuel - 1) as nat));
            assert(pending_from_children(doc@, self@, cs, (fuel - 1) as nat, k as int) == pending_defaults(doc@, self@, c, (fuel - 1) as nat) + pending_from_children(doc@, self@, cs, (fuel - 1) as nat, k - 1));
            assert(before + pending_from_children(doc@, self@, cs, (fuel - 1) as nat, k as int) =~= pend_view(out@) + pending_from_children(doc@, self@, cs, (fuel - 1) as nat, k - 1));
            k = k - 1;
        }
        assert(pending_from_children(doc@, self@, cs, (fuel - 1) as nat, 0) =~= Seq::<(NodeId, Seq<char>, Seq<char>)>::empty());
        proof {
            if fuel > 0 {
                assert(pend_view(out@) =~= pend_view(old(out)@) + pending_defaults(doc@, self@, id, fuel));
            } else {
                assert(pend_view(out@) =~= pend_view(old(out)@) + pending_defaults(doc@, self@, id, fuel));
            }
        }
    }

    /// Adds, to every element below the root container that lacks them, the
    /// attributes the rules give default values for; returns how many were
    /// added (an attribute set twice counts twice).
    pub fn apply_defaults(&self, doc: &mut Document) -> (r: Result<usize, XmlError>)
        requires
            old(doc).wf(),
            old(doc)@.root_id matches Some(rid) ==> (old(doc)@.valid(rid as int) ==> old(doc)@.acyclic_below(rid as int)),
        ensures
            final(doc).wf(),
            match old(doc)@.root_id {
                Some(rid) => r matches Ok(n) && n == pending_defaults(old(doc)@, self@, rid, old(doc)@.nodes.len()).len()
                    && final(doc)@ == apply_pending(old(doc)@, pending_defaults(old(doc)@, self@, rid, old(doc)@.nodes.len())),
                None => r matches Ok(n) && n == 0 && final(doc)@ == old(doc)@,
            },
    {
        let root = match doc.root_id() {
            Some(r) => r,
            None => {
                return Ok(0);
            },
        };
        let mut to_insert: Vec<(NodeId, String, String)> = Vec::new();
        self.gather_defaults(doc, root, &mut to_insert, Ghost(doc@.nodes.len()));
        let ghost p = pend_view(to_insert@);
        let ghost d0 = doc@;
        proof {
            lemma_pending_elements(d0, self@, root, d0.nodes.len());
        }
        assert(pend_view(to_insert@) =~= pending_defaults(d0, self@, root, d0.nodes.len()));
        let mut count: usize = 0;
        while count < to_insert.len()
            invariant
                count <= to_insert@.len(),
                p == pend_view(to_insert@),
                doc.wf(),
                doc@ == apply_pending(d0, p.take(count as int)),
                forall|j: int| 0 <= j < p.len() ==> d0.is_element(#[trigger] p[j].0 as int),
                d0.wf(),
            decreases to_insert@.len() - count,
        {
            let e = &to_insert[count];
            proof {
                lemma_apply_keeps_elements(d0, p.take(count as int), p[count as int].0);
                assert(p.take(count as int).len() == count);
            }
            let _ = doc.set_attribute(e.0, e.1.as_str(), e.2.as_str());
            assert(p.take(count + 1).drop_last() =~= p.take(count as int));
            assert(p[count as int] == (e.0, e.1@, e.2@));
            count = count + 1;
        }
        assert(p.take(p.len() as int) =~= p);
        Ok(count)
    }
}

/// The views of pending entries.
pub open spec fn pend_view(s: Seq<(NodeId, String, String)>) -> Seq<(NodeId, Seq<char>, Seq<char>)> {
    s.map_values(|e: (NodeId, String, String)| (e.0, e.1@, e.2@))
}

/// Every pending entry names an element.
proof fn lemma_pending_elements(d: DocV, v: DtdV, id: NodeId, fuel: nat)
    ensures
        forall|j: int| 0 <= j < pending_defaults(d, v, id, fuel).len() ==> d.is_element(
            #[trigger] pending_defaults(d, v, id, fuel)[j].0 as int,
        ),
    decreases fuel, 0nat, 0int,
{
    if d.valid(id as int) {
        let own = match d.nodes[id as int].kind {
            KindV::Element { name, attributes } => own_defaults(v.attributes, id, name, attributes),
            _ => Seq::empty(),
        };
        match d.nodes[id as int].kind {
            KindV::Element { name, attributes } => {
                lemma_own_defaults_id(v.attributes, id, name, attributes);
            },
            _ => {},
        }
        let cs = d.nodes[id as int].children;
        let rest = if fuel > 0 {
            pending_from_children(d, v, cs, (fuel - 1) as nat, cs.len() as int)
        } else {
            Seq::empty()
        };
        if fuel > 0 {
            lemma_pending_children_elements(d, v, cs, (fuel - 1) as nat, cs.len() as int);
        }
        assert(pending_defaults(d, v, id, fuel) == own + rest);
        assert forall|j: int| 0 <= j < (own + rest).len() implies d.is_element(#[trigger] (own + rest)[j].0 as int) by {
            if j < own.len() {
                assert((own + rest)[j] == own[j]);
                assert(own[j].0 == id);
            } else {
                assert((own + rest)[j] == rest[j - own.len()]);
            }
        }
    }
}

proof fn lemma_pending_children_elements(d: DocV, v: DtdV, cs: Seq<NodeId>, fuel: nat, k: int)
    ensures
        forall|j: int| 0 <= j < pending_from_children(d, v, cs, fuel, k).len() ==> d.is_element(
            #[trigger] pending_from_children(d, v, cs, fuel, k)[j].0 as int,
        ),
    decreases fuel, 1nat, k,
{
    if 0 < k <= cs.len() {
        lemma_pending_elements(d, v, cs[k - 1], fuel);
        lemma_pending_children_elements(d, v, cs, fuel, k - 1);
        let a = pending_defaults(d, v, cs[k - 1], fuel);
        let b = pending_from_children(d, v, cs, fuel, k - 1);
        assert forall|j: int| 0 <= j < (a + b).len() implies d.is_element(#[trigger] (a + b)[j].0 as int) by {
            if j < a.len() {
                assert((a + b)[j] == a[j]);
            } else {
                assert((a + b)[j] == b[j - a.len()]);
            }
        }
    }
}

proof fn lemma_own_defaults_id(rules: Seq<AttrRuleV>, id: NodeId, elem: Seq<char>, attrs: Seq<AttrV>)
    ensures
        forall|j: int| 0 <= j < own_defaults(rules, id, elem, attrs).len() ==> (#[trigger] own_defaults(rules, id, elem, attrs)[j]).0 == id,
    decreases rules.len(),
{
    if rules.len() > 0 {
        lemma_own_defaults_id(rules.drop_last(), id, elem, attrs);
        let a = own_defaults(rules.drop_last(), id, elem, attrs);
        let r = rules.last();
        let b: Seq<(NodeId, Seq<char>, Seq<char>)> = if r.element_name == elem && r.default_value is Some
            && attr_find(attrs, r.attr_name) is None {
            seq![(id, r.attr_name, r.default_value->0)]
        } else {
            Seq::empty()
        };
        assert(own_defaults(rules, id, elem, attrs) == a + b);
        assert forall|j: int| 0 <= j < (a + b).len() implies (#[trigger] (a + b)[j]).0 == id by {
            if j < a.len() {
                assert((a + b)[j] == a[j]);
            } else {
                assert((a + b)[j] == b[j - a.len()]);
            }
        }
    }
}

/// Setting attributes keeps elements elements and the arena well formed.
proof fn lemma_apply_keeps_elements(d: DocV, p: Seq<(NodeId, Seq<char>, Seq<char>)>, x: NodeId)
    requires
        d.wf(),
        d.is_element(x as int),
        forall|j: int| 0 <= j < p.len() ==> d.is_element(#[trigger] p[j].0 as int),
    ensures
        apply_pending(d, p).is_element(x as int),
        apply_pending(d, p).wf(),
        apply_pending(d, p).nodes.len() == d.nodes.len(),
    decreases p.len(),
{
    if p.len() > 0 {
        lemma_apply_keeps_elements(d, p.drop_last(), x);
        lemma_apply_keeps_elements(d, p.drop_last(), p.last().0);
        let d1 = apply_pending(d, p.drop_last());
        let d2 = with_attribute_set(d1, p.last().0, p.last().1, p.last().2);
        assert(d2.nodes.len() == d1.nodes.len());
        assert forall|i: int| 0 <= i < d2.nodes.len() implies #[trigger] d2.nodes[i].id == i by {
            assert(d2.nodes[i].id == d1.nodes[i].id);
        }
        assert forall|i: int, j: int|
            0 <= i < d2.nodes.len() && 0 <= j < d2.nodes[i].children.len() implies #[trigger] d2.nodes[i].children[j]
                < d2.nodes.len() by {
            assert(d2.nodes[i].children == d1.nodes[i].children);
        }
        assert forall|i: int| 0 <= i < d2.nodes.len() implies (#[trigger] d2.nodes[i].parent matches Some(q) ==> q
            < d2.nodes.len()) by {
            assert(d2.nodes[i].parent == d1.nodes[i].parent);
        }
    }
}

} // verus!
