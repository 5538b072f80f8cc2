//! Canonical XML: attributes in a fixed order, empty elements written with
//! an end tag, CDATA written as text, comments kept only on request, and a
//! fixed escaping of text and attribute values.

use vstd::prelude::*;
use crate::document::{DocV, Document};
use crate::io::destination::XmlDestination;
use crate::io::encoding::Format;
use crate::node::{attrs_view, AttrV, Attribute, KindV, NodeId, NodeKind};
use crate::text::str_chars;

verus! {

/// Elements nested deeper than this are left out of canonical output.
pub const MAX_CANONICAL_DEPTH: usize = 512;

/// Canonicalization switches.
#[derive(Debug, Clone, PartialEq, Eq, Structural)]
pub struct CanonicalOptions {
    /// Keep comments in the output.
    pub with_comments: bool,
}

impl Default for CanonicalOptions {
    /// Comments left out.
    fn default() -> (r: Self)
        ensures
            !r.with_comments,
    {
        CanonicalOptions { with_comments: false }
    }
}

/// The canonical serializer; all its operations are associated functions.
pub struct CanonicalSerializer;

/// A character of text written canonically.
pub open spec fn canon_text_char(c: char) -> Seq<char> {
    if c == '&' {
        "&amp;"@
    } else if c == '<' {
        "&lt;"@
    } else if c == '>' {
        "&gt;"@
    } else if c == '\r' {
        "&#xD;"@
    } else {
        seq![c]
    }
}

/// A character of an attribute value written canonically.
pub open spec fn canon_attr_char(c: char) -> Seq<char> {
    if c == '&' {
        "&amp;"@
    } else if c == '<' {
        "&lt;"@
    } else if c == '"' {
        "&quot;"@
    } else if c == '\t' {
        "&#x9;"@
    } else if c == '\n' {
        "&#xA;"@
    } else if c == '\r' {
        "&#xD;"@
    } else {
        seq![c]
    }
}

/// Text written canonically.
pub open spec fn canon_text(s: Seq<char>) -> Seq<char>
    decreases s.len(),
{
    if s.len() == 0 {
        Seq::empty()
    } else {
        canon_text(s.drop_last()) + canon_text_char(s.last())
    }
}

/// An attribute value written canonically.
pub open spec fn canon_attr(s: Seq<char>) -> Seq<char>
    decreases s.len(),
{
    if s.len() == 0 {
        Seq::empty()
    } else {
        canon_attr(s.drop_last()) + canon_attr_char(s.last())
    }
}

/// Whether `a` comes before `b` in code-point order.
pub open spec fn name_less(a: Seq<char>, b: Seq<char>) -> bool
    decreases a.len(),
{
    if b.len() == 0 {
        false
    } else if a.len() == 0 {
        true
    } else if (a[0] as u32) < (b[0] as u32) {
        true
    } else if a[0] == b[0] {
        name_less(a.skip(1), b.skip(1))
    } else {
        false
    }
}

/// Whether a name begins with `xmlns`.
pub open spec fn is_xmlns(n: Seq<char>) -> bool {
    n.len() >= 5 && n.take(5) == seq!['x', 'm', 'l', 'n', 's']
}

/// Whether attribute `a` is written before attribute `b`: namespace
/// declarations first, then by name.
pub open spec fn attr_less(a: AttrV, b: AttrV) -> bool {
    (is_xmlns(a.name) && !is_xmlns(b.name)) || (is_xmlns(a.name) == is_xmlns(b.name) && name_less(a.name, b.name))
}

/// `x` inserted into `s` before the first attribute it is less than.
pub open spec fn insert_attr(s: Seq<AttrV>, x: AttrV) -> Seq<AttrV>
    decreases s.len(),
{
    if s.len() == 0 {
        seq![x]
    } else if attr_less(x, s[0]) {
        seq![x] + s
    } else {
        seq![s[0]] + insert_attr(s.skip(1), x)
    }
}

/// The attributes in canonical order; attributes that compare equal keep
/// their order.
pub open spec fn sort_attrs(s: Seq<AttrV>) -> Seq<AttrV>
    decreases s.len(),
{
    if s.len() == 0 {
        Seq::empty()
    } else {
        insert_attr(sort_attrs(s.drop_last()), s.last())
    }
}

/// The attributes as written in a canonical start tag.
pub open spec fn canon_attrs_text(attrs: Seq<AttrV>) -> Seq<char>
    decreases attrs.len(),
{
    if attrs.len() == 0 {
        Seq::empty()
    } else {
        canon_attrs_text(attrs.drop_last()) + " "@ + attrs.last().name + "=\""@ + canon_attr(attrs.last().value)
            + "\""@
    }
}

/// The canonical text of node `id` at nesting `depth`.
pub open spec fn canon_node(d: DocV, id: NodeId, o: CanonicalOptions, depth: int) -> Seq<char>
    decreases 513 - depth, 1int, 0int,
{
    if depth > 512 || depth < 0 || !d.valid(id as int) {
        Seq::empty()
    } else {
        match d.nodes[id as int].kind {
            KindV::Element { name, attributes } => "<"@ + name + canon_attrs_text(sort_attrs(attributes)) + ">"@
                + canon_children(d, d.nodes[id as int].children, o, depth + 1, 0) + "</"@ + name + ">"@,
            KindV::Text(t) => canon_text(t),
            KindV::CData(c) => canon_text(c),
            KindV::Comment(c) => if o.with_comments {
                "<!--"@ + c + "-->"@
            } else {
                Seq::empty()
            },
            KindV::ProcessingInstruction { target, data } => "<?"@ + target + (if data.len() > 0 {
                " "@ + data
            } else {
                Seq::empty()
            }) + "?>"@,
            _ => Seq::empty(),
        }
    }
}

/// The canonical text of children `cs[k..]` at nesting `depth`.
pub open spec fn canon_children(d: DocV, cs: Seq<NodeId>, o: CanonicalOptions, depth: int, k: int) -> Seq<char>
    decreases 514 - depth, 0int, cs.len() - k,
{
    if depth > 513 || k < 0 || k >= cs.len() {
        Seq::empty()
    } else {
        canon_node(d, cs[k], o, depth) + canon_children(d, cs, o, depth, k + 1)
    }
}

/// The canonical form of a document: its first root element and what lies
/// below it.
pub open spec fn canon_doc(d: DocV, o: CanonicalOptions) -> Seq<char> {
    match d.root_id {
        Some(r) => match d.first_element_child(r as int) {
            Some(e) => canon_node(d, e, o, 0),
            None => Seq::empty(),
        },
        None => Seq::empty(),
    }
}

/// Whether the names begin with the same `xmlns` flag and `a < b` by code point.
fn name_less_exec(a: &Vec<char>, b: &Vec<char>) -> (r: bool)
    ensures
        r == name_less(a@, b@),
{
    let mut i: usize = 0;
    assert(a@.skip(0) =~= a@ && b@.skip(0) =~= b@);
    while i < a.len() && i < b.len() && a[i] == b[i]
        invariant
            i <= a@.len(),
            i <= b@.len(),
            name_less(a@, b@) == name_less(a@.skip(i as int), b@.skip(i as int)),
        decreases a@.len() - i,
    {
        assert(a@.skip(i as int).skip(1) =~= a@.skip(i + 1));
        assert(b@.skip(i as int).skip(1) =~= b@.skip(i + 1));
        i = i + 1;
    }
    if i >= b.len() {
        return false;
    }
    if i >= a.len() {
        return true;
    }
    (a[i] as u32) < (b[i] as u32)
}

/// Whether a name begins with `xmlns`.
fn is_xmlns_exec(n: &Vec<char>) -> (r: bool)
    ensures
        r == is_xmlns(n@),
{
    let p: [char; 5] = ['x', 'm', 'l', 'n', 's'];
    assert(p@ =~= seq!['x', 'm', 'l', 'n', 's']);
    crate::text::starts_with_chars(n.as_slice(), &p)
}

/// Whether attribute `a` goes before attribute `b`.
fn attr_less_exec(a: &Attribute, b: &Attribute) -> (r: bool)
    ensures
        r == attr_less(a@, b@),
{
    let an = str_chars(a.name.as_str());
    let bn = str_chars(b.name.as_str());
    let ax = is_xmlns_exec(&an);
    let bx = is_xmlns_exec(&bn);
    if ax && !bx {
        return true;
    }
    if ax != bx {
        return false;
    }
    name_less_exec(&an, &bn)
}

proof fn lemma_insert_attr_len(s: Seq<AttrV>, x: AttrV)
    ensures
        insert_attr(s, x).len() == s.len() + 1,
    decreases s.len(),
{
    if s.len() > 0 && !attr_less(x, s[0]) {
        lemma_insert_attr_len(s.skip(1), x);
    }
}

/// The attributes in canonical order.
fn sorted_attributes(attrs: &Vec<Attribute>) -> (r: Vec<Attribute>)
    ensures
        attrs_view(r@) == sort_attrs(attrs_view(attrs@)),
{
    let mut out: Vec<Attribute> = Vec::new();
    let mut i: usize = 0;
    while i < attrs.len()
        invariant
            i <= attrs@.len(),
            attrs_view(out@) == sort_attrs(attrs_view(attrs@.take(i as int))),
        decreases attrs@.len() - i,
    {
        let x = Attribute { name: attrs[i].name.clone(), value: attrs[i].value.clone() };
        let mut j: usize = 0;
        let ghost s = attrs_view(out@);
        assert(s.take(0) + s.skip(0) =~= s.skip(0) && s.skip(0) =~= s);
        while j < out.len() && !attr_less_exec(&x, &out[j])
            invariant
                j <= out@.len(),
                s == attrs_view(out@),
                insert_attr(s, x@) == s.take(j as int) + insert_attr(s.skip(j as int), x@),
            decreases out@.len() - j,
        {
            proof {
                let t = s.skip(j as int);
                assert(t[0] == s[j as int]);
                assert(t.skip(1) =~= s.skip(j + 1));
                assert(s.take(j + 1) =~= s.take(j as int).push(s[j as int]));
                assert(insert_attr(t, x@) == seq![t[0]] + insert_attr(t.skip(1), x@));
                assert(s.take(j as int) + (seq![t[0]] + insert_attr(t.skip(1), x@)) =~= s.take(j + 1) + insert_attr(
                    s.skip(j + 1),
                    x@,
                ));
            }
            j = j + 1;
        }
        proof {
            let t = s.skip(j as int);
            if j < out@.len() {
                assert(t[0] == s[j as int]);
                assert(insert_attr(t, x@) == seq![x@] + t);
            } else {
                assert(t =~= Seq::<AttrV>::empty());
            }
        }
        let ghost prev = out@;
        out.insert(j, x);
        proof {
            assert(attrs_view(out@) =~= s.take(j as int) + (seq![attrs@[i as int]@] + s.skip(j as int)));
            assert(attrs_view(attrs@.take(i + 1)).drop_last() =~= attrs_view(attrs@.take(i as int)));
            assert(attrs_view(attrs@.take(i + 1)).last() == attrs@[i as int]@);
            assert(s.take(j as int) + s.skip(j as int) =~= s);
        }
        i = i + 1;
    }
    assert(attrs@.take(attrs@.len() as int) =~= attrs@);
    out
}

/// Appends text written canonically.
fn write_canonical_text(text: &str, dest: &mut XmlDestination)
    ensures
        final(dest).buffer@ == old(dest).buffer@ + canon_text(text@),
        final(dest).format == old(dest).format,
{
    let cs = str_chars(text);
    let mut i: usize = 0;
    while i < cs.len()
        invariant
            i <= cs@.len(),
            cs@ == text@,
            dest.buffer@ == old(dest).buffer@ + canon_text(cs@.take(i as int)),
            dest.format == old(dest).format,
        decreases cs@.len() - i,
    {
        let c = cs[i];
        if c == '&' {
            dest.write_str("&amp;");
        } else if c == '<' {
            dest.write_str("&lt;");
        } else if c == '>' {
            dest.write_str("&gt;");
        } else if c == '\r' {
            dest.write_str("&#xD;");
        } else {
            dest.write_char(c);
        }
        assert(cs@.take(i + 1).drop_last() =~= cs@.take(i as int));
        i = i + 1;
    }
    assert(cs@.take(cs@.len() as int) =~= cs@);
}

/// Appends an attribute value written canonically.
fn write_canonical_attr(value: &str, dest: &mut XmlDestination)
    ensures
        final(dest).buffer@ == old(dest).buffer@ + canon_attr(value@),
        final(dest).format == old(dest).format,
{
    let cs = str_chars(value);
    let mut i: usize = 0;
    while i < cs.len()
        invariant
            i <= cs@.len(),
            cs@ == value@,
            dest.buffer@ == old(dest).buffer@ + canon_attr(cs@.take(i as int)),
            dest.format == old(dest).format,
        decreases cs@.len() - i,
    {
        let c = cs[i];
        if c == '&' {
            dest.write_str("&amp;");
        } else if c == '<' {
            dest.write_str("&lt;");
        } else if c == '"' {
            dest.write_str("&quot;");
        } else if c == '\t' {
            dest.write_str("&#x9;");
        } else if c == '\n' {
            dest.write_str("&#xA;");
        } else if c == '\r' {
            dest.write_str("&#xD;");
        } else {
            dest.write_char(c);
        }
        assert(cs@.take(i + 1).drop_last() =~= cs@.take(i as int));
        i = i + 1;
    }
    assert(cs@.take(cs@.len() as int) =~= cs@);
}

/// Appends the attributes of a canonical start tag.
fn write_canonical_attributes(attrs: &Vec<Attribute>, dest: &mut XmlDestination)
    ensures
        final(dest).buffer@ == old(dest).buffer@ + canon_attrs_text(attrs_view(attrs@)),
        final(dest).format == old(dest).format,
{
    let mut i: usize = 0;
    while i < attrs.len()
        invariant
            i <= attrs@.len(),
            dest.buffer@ == old(dest).buffer@ + canon_attrs_text(attrs_view(attrs@.take(i as int))),
            dest.format == old(dest).format,
        decreases attrs@.len() - i,
    {
        dest.write_str(" ");
        dest.write_str(attrs[i].name.as_str());
        dest.write_str("=\"");
        write_canonical_attr(attrs[i].value.as_str(), dest);
        dest.write_str("\"");
        assert(attrs_view(attrs@.take(i + 1)).drop_last() =~= attrs_view(attrs@.take(i as int)));
        assert(attrs_view(attrs@.take(i + 1)).last() == attrs@[i as int]@);
        i = i + 1;
    }
    assert(attrs@.take(attrs@.len() as int) =~= attrs@);
}

impl CanonicalSerializer {
    /// The canonical form of the document's root element.
    pub fn canonicalize(doc: &Document, options: &CanonicalOptions) -> (r: String)
        ensures
            r@ == canon_doc(doc@, *options),
    {
        let mut dest = XmlDestination::new(Format::Utf8);
        match doc.root_element_id() {
            Some(e) => Self::serialize_canonical_node(doc, e, options, &mut dest, 0),
            None => {},
        }
        dest.buffer
    }

    /// Writes node `node_id` at nesting `depth` canonically.
    fn serialize_canonical_node(
        doc: &Document,
        node_id: NodeId,
        options: &CanonicalOptions,
        dest: &mut XmlDestination,
        depth: usize,
    )
        requires
            depth <= MAX_CANONICAL_DEPTH + 1,
        ensures
            final(dest).buffer@ == old(dest).buffer@ + canon_node(doc@, node_id, *options, depth as int),
            final(dest).format == old(dest).format,
        decreases 513 - depth, 1int,
    {
        if depth > MAX_CANONICAL_DEPTH {
            return;
        }
        let node = match doc.get_node(node_id) {
            Some(n) => n,
            None => {
                return;
            },
        };
        match &node.kind {
            NodeKind::Element { name, attributes } => {
                dest.write_str("<");
                dest.write_str(name.as_str());
                let sorted = sorted_attributes(attributes);
                write_canonical_attributes(&sorted, dest);
                dest.write_str(">");
                Self::serialize_canonical_children(doc, &node.children, options, dest, depth + 1);
                dest.write_str("</");
                dest.write_str(name.as_str());
                dest.write_str(">");
            },
            NodeKind::Text(t) => {
                write_canonical_text(t.as_str(), dest);
            },
            NodeKind::CData(c) => {
                write_canonical_text(c.as_str(), dest);
            },
            NodeKind::Comment(com) => {
                if options.with_comments {
                    dest.write_str("<!--");
                    dest.write_str(com.as_str());
                    dest.write_str("-->");
                }
            },
            NodeKind::ProcessingInstruction { target, data } => {
                dest.write_str("<?");
                dest.write_str(target.as_str());
                if !data.as_str().is_empty() {
                    dest.write_str(" ");
                    dest.write_str(data.as_str());
                }
                dest.write_str("?>");
            },
            _ => {},
        }
    }

    /// Writes children at nesting `depth` canonically.
    fn serialize_canonical_children(
        doc: &Document,
        children: &Vec<NodeId>,
        options: &CanonicalOptions,
        dest: &mut XmlDestination,
        depth: usize,
    )
        requires
            1 <= depth <= MAX_CANONICAL_DEPTH + 1,
        ensures
            final(dest).buffer@ == old(dest).buffer@ + canon_children(doc@, children@, *options, depth as int, 0),
            final(dest).format == old(dest).format,
        decreases 514 - depth, 0int,
    {
        let mut k: usize = 0;
        let ghost b0 = dest.buffer@;
        while k < children.len()
            invariant
                k <= children@.len(),
                1 <= depth <= MAX_CANONICAL_DEPTH + 1,
                b0 + canon_children(doc@, children@, *options, depth as int, 0) == dest.buffer@ + canon_children(
                    doc@,
                    children@,
                    *options,
                    depth as int,
                    k as int,
                ),
                dest.format == old(dest).format,
            decreases children@.len() - k,
        {
            Self::serialize_canonical_node(doc, children[k], options, dest, depth);
            k = k + 1;
        }
    }
}

/// The canonical form of a document with comments left out.
pub fn canonicalize(doc: &Document) -> (r: String)
    ensures
        r@ == canon_doc(doc@, CanonicalOptions { with_comments: false }),
{
    CanonicalSerializer::canonicalize(doc, &CanonicalOptions::default())
}

} // verus!
