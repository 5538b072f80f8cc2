//! Turning a document back into XML text, optionally indented.

use vstd::prelude::*;
use crate::document::{DocV, Document};
use crate::io::char_utils::{char_is_whitespace, unicode_whitespace};
use crate::io::destination::XmlDestination;
use crate::io::encoding::Format;
use crate::io::source::capped;
use crate::node::{attrs_view, AttrV, Attribute, KindV, NodeId, NodeKind};
use crate::text::str_chars;

verus! {

/// Output formatting.
#[derive(Debug, Clone, PartialEq, Eq, Structural)]
pub struct SerializeOptions {
    /// Indent nested markup and end lines after tags.
    pub pretty_print: bool,
    /// Spaces per nesting level.
    pub indent_step: usize,
}

impl Default for SerializeOptions {
    /// Pretty printing with two spaces per level.
    fn default() -> (r: Self)
        ensures
            r.pretty_print,
            r.indent_step == 2,
    {
        SerializeOptions { pretty_print: true, indent_step: 2 }
    }
}

/// The serializer; all its operations are associated functions.
pub struct XmlSerializer;

/// `n` spaces.
pub open spec fn spaces(n: nat) -> Seq<char> {
    Seq::new(n, |i: int| ' ')
}

/// The indentation at a nesting level.
pub open spec fn indent_of(level: nat, o: SerializeOptions) -> Seq<char> {
    if o.pretty_print {
        spaces(capped(level * (o.indent_step as nat)))
    } else {
        Seq::empty()
    }
}

/// The line break written after tags when pretty printing.
pub open spec fn line_end(o: SerializeOptions) -> Seq<char> {
    if o.pretty_print {
        seq!['\n']
    } else {
        Seq::empty()
    }
}

/// A character of text content with `&`, `<` and `>` escaped.
pub open spec fn esc_text_char(c: char) -> Seq<char> {
    if c == '&' {
        "&amp;"@
    } else if c == '<' {
        "&lt;"@
    } else if c == '>' {
        "&gt;"@
    } else {
        seq![c]
    }
}

/// A character of an attribute value with `&`, `<`, `>` and `"` escaped.
pub open spec fn esc_attr_char(c: char) -> Seq<char> {
    if c == '"' {
        "&quot;"@
    } else {
        esc_text_char(c)
    }
}

/// Text content escaped.
pub open spec fn escape_text(s: Seq<char>) -> Seq<char>
    decreases s.len(),
{
    if s.len() == 0 {
        Seq::empty()
    } else {
        escape_text(s.drop_last()) + esc_text_char(s.last())
    }
}

/// An attribute value escaped.
pub open spec fn escape_attr(s: Seq<char>) -> Seq<char>
    decreases s.len(),
{
    if s.len() == 0 {
        Seq::empty()
    } else {
        escape_attr(s.drop_last()) + esc_attr_char(s.last())
    }
}

/// The attributes as written inside a start tag: ` name="value"` each.
pub open spec fn attrs_text(attrs: Seq<AttrV>) -> Seq<char>
    decreases attrs.len(),
{
    if attrs.len() == 0 {
        Seq::empty()
    } else {
        attrs_text(attrs.drop_last()) + " "@ + attrs.last().name + "=\""@ + escape_attr(attrs.last().value)
            + "\""@
    }
}

/// Whether text is empty or white space only.
pub open spec fn blank(t: Seq<char>) -> bool {
    forall|i: int| 0 <= i < t.len() ==> unicode_whitespace(#[trigger] t[i])
}

/// Whether a child is text or CDATA.
pub open spec fn is_textual(d: DocV, c: NodeId) -> bool {
    d.valid(c as int) && (d.nodes[c as int].kind is Text || d.nodes[c as int].kind is CData)
}

/// Whether all the children are text or CDATA.
pub open spec fn only_text(d: DocV, cs: Seq<NodeId>) -> bool {
    forall|i: int| 0 <= i < cs.len() ==> #[trigger] is_textual(d, cs[i])
}

/// Text and CDATA children written inline.
pub open spec fn inline_text(d: DocV, cs: Seq<NodeId>) -> Seq<char>
    decreases cs.len(),
{
    if cs.len() == 0 {
        Seq::empty()
    } else {
        inline_text(d, cs.drop_last()) + match d.nodes[cs.last() as int].kind {
            KindV::Text(t) => escape_text(t),
            KindV::CData(c) => "<![CDATA["@ + c + "]]>"@,
            _ => Seq::empty(),
        }
    }
}

/// The text written for a node that is not an element.
pub open spec fn leaf_text(k: KindV, level: nat, o: SerializeOptions) -> Seq<char> {
    let ind = indent_of(level, o);
    match k {
        KindV::Text(t) => if !o.pretty_print || !blank(t) {
            escape_text(t)
        } else {
            Seq::empty()
        },
        KindV::CData(c) => "<![CDATA["@ + c + "]]>"@,
        KindV::Comment(c) => ind + "<!--"@ + c + "-->"@ + line_end(o),
        KindV::ProcessingInstruction { target, data } => ind + "<?"@ + target + (if data.len() > 0 {
            " "@ + data
        } else {
            Seq::empty()
        }) + "?>"@ + line_end(o),
        _ => Seq::empty(),
    }
}

/// The start tag of an element, up to (not including) its closing `>` or `/>`.
pub open spec fn start_tag(name: Seq<char>, attributes: Seq<AttrV>, level: nat, o: SerializeOptions) -> Seq<char> {
    indent_of(level, o) + "<"@ + name + attrs_text(attributes)
}

/// The end tag of an element and its line end.
pub open spec fn end_tag(name: Seq<char>, o: SerializeOptions) -> Seq<char> {
    "</"@ + name + ">"@ + line_end(o)
}

/// The text written for node `id` at nesting `level`; `fuel` bounds the
/// depth of its subtree.
pub open spec fn ser_node(d: DocV, id: NodeId, level: nat, o: SerializeOptions, fuel: nat) -> Seq<char>
    decreases fuel, 0nat, 0nat,
{
    if !d.valid(id as int) {
        Seq::empty()
    } else {
        let n = d.nodes[id as int];
        match n.kind {
            KindV::Element { name, attributes } => {
                let open = start_tag(name, attributes, level, o);
                if n.children.len() == 0 {
                    open + "/>"@ + line_end(o)
                } else if only_text(d, n.children) {
                    open + ">"@ + inline_text(d, n.children) + end_tag(name, o)
                } else {
                    open + ">"@ + line_end(o) + (if fuel > 0 {
                        ser_children(d, id, level + 1, o, 0, (fuel - 1) as nat)
                    } else {
                        Seq::empty()
                    }) + indent_of(level, o) + end_tag(name, o)
                }
            },
            _ => leaf_text(n.kind, level, o),
        }
    }
}

/// The text written for the children of `p` from position `k` on, skipping
/// the XML declaration.
pub open spec fn ser_children(d: DocV, p: NodeId, level: nat, o: SerializeOptions, k: int, fuel: nat) -> Seq<char>
    decreases fuel, 1nat, d.children_of(p as int).len() - k,
{
    let cs = d.children_of(p as int);
    if k < 0 || k >= cs.len() {
        Seq::empty()
    } else {
        (if d.declaration_id == Some(cs[k]) {
            Seq::empty()
        } else {
            ser_node(d, cs[k], level, o, fuel)
        }) + ser_children(d, p, level, o, k + 1, fuel)
    }
}

/// The XML declaration line, if the document records one.
pub open spec fn decl_text(d: DocV) -> Seq<char> {
    match d.declaration_id {
        Some(x) => if d.valid(x as int) {
            match d.nodes[x as int].kind {
                KindV::Declaration { version, encoding, standalone } => "<?xml version=\""@ + version + "\""@
                    + (match encoding {
                    Some(e) => " encoding=\""@ + e + "\""@,
                    None => Seq::empty(),
                }) + (match standalone {
                    Some(st) => " standalone=\""@ + (if st {
                        "yes"@
                    } else {
                        "no"@
                    }) + "\""@,
                    None => Seq::empty(),
                }) + "?>\n"@,
                _ => Seq::empty(),
            }
        } else {
            Seq::empty()
        },
        None => Seq::empty(),
    }
}

/// The children of a container, written at level 0.
pub open spec fn container_text(d: DocV, c: Option<NodeId>, o: SerializeOptions) -> Seq<char> {
    match c {
        Some(p) => ser_children(d, p, 0, o, 0, (d.nodes.len() - 1) as nat),
        None => Seq::empty(),
    }
}

/// The whole document written out: declaration, prolog, then the content of
/// the root container.
pub open spec fn ser_doc(d: DocV, o: SerializeOptions) -> Seq<char> {
    decl_text(d) + container_text(d, d.prolog_id, o) + container_text(d, d.root_id, o)
}

/// A document the serializer can walk: well formed, with finite subtrees
/// below its prolog and root containers.
pub open spec fn serializable(d: DocV) -> bool {
    &&& d.wf()
    &&& (d.prolog_id matches Some(p) ==> d.valid(p as int) ==> d.acyclic_below(p as int))
    &&& (d.root_id matches Some(p) ==> d.valid(p as int) ==> d.acyclic_below(p as int))
}

/// Appends text content escaped.
fn write_escaped_text(s: &str, dest: &mut XmlDestination)
    ensures
        final(dest).buffer@ == old(dest).buffer@ + escape_text(s@),
        final(dest).format == old(dest).format,
{
    let cs = str_chars(s);
    let mut i: usize = 0;
    while i < cs.len()
        invariant
            i <= cs@.len(),
            cs@ == s@,
            dest.buffer@ == old(dest).buffer@ + escape_text(cs@.take(i as int)),
            dest.format == old(dest).format,
        decreases cs@.len() - i,
    {
        let c = cs[i];
        if c == '&' {
            dest.write_str("&amp;");
        } else if c == '<' {
            dest.write_str("&lt;");
        } else if c == '>' {
            dest.write_str("&gt;");
        } else {
            dest.write_char(c);
        }
        assert(cs@.take(i + 1).drop_last() =~= cs@.take(i as int));
        assert(seq![c] =~= Seq::<char>::empty().push(c));
        i = i + 1;
    }
    assert(cs@.take(cs@.len() as int) =~= cs@);
}

/// Appends an attribute value escaped.
fn write_escaped_attr(s: &str, dest: &mut XmlDestination)
    ensures
        final(dest).buffer@ == old(dest).buffer@ + escape_attr(s@),
        final(dest).format == old(dest).format,
{
    let cs = str_chars(s);
    let mut i: usize = 0;
    while i < cs.len()
        invariant
            i <= cs@.len(),
            cs@ == s@,
            dest.buffer@ == old(dest).buffer@ + escape_attr(cs@.take(i as int)),
            dest.format == old(dest).format,
        decreases cs@.len() - i,
    {
        let c = cs[i];
        if c == '&' {
            dest.write_str("&amp;");
        } else if c == '<' {
            dest.write_str("&lt;");
        } else if c == '>' {
            dest.write_str("&gt;");
        } else if c == '"' {
            dest.write_str("&quot;");
        } else {
            dest.write_char(c);
        }
        assert(cs@.take(i + 1).drop_last() =~= cs@.take(i as int));
        i = i + 1;
    }
    assert(cs@.take(cs@.len() as int) =~= cs@);
}

/// Appends the attributes as written inside a start tag.
fn write_attributes(attrs: &Vec<Attribute>, dest: &mut XmlDestination)
    ensures
        final(dest).buffer@ == old(dest).buffer@ + attrs_text(attrs_view(attrs@)),
        final(dest).format == old(dest).format,
{
    let mut i: usize = 0;
    while i < attrs.len()
        invariant
            i <= attrs@.len(),
            dest.buffer@ == old(dest).buffer@ + attrs_text(attrs_view(attrs@.take(i as int))),
            dest.format == old(dest).format,
        decreases attrs@.len() - i,
    {
        dest.write_str(" ");
        dest.write_str(attrs[i].name.as_str());
        dest.write_str("=\"");
        write_escaped_attr(attrs[i].value.as_str(), dest);
        dest.write_str("\"");
        assert(attrs_view(attrs@.take(i + 1)).drop_last() =~= attrs_view(attrs@.take(i as int)));
        assert(attrs_view(attrs@.take(i + 1)).last() == attrs@[i as int]@);
        i = i + 1;
    }
    assert(attrs@.take(attrs@.len() as int) =~= attrs@);
}

/// Whether text is empty or white space only.
fn is_blank(t: &str) -> (r: bool)
    ensures
        r == blank(t@),
{
    let cs = str_chars(t);
    let mut i: usize = 0;
    while i < cs.len()
        invariant
            i <= cs@.len(),
            cs@ == t@,
            forall|j: int| 0 <= j < i ==> unicode_whitespace(#[trigger] cs@[j]),
        decreases cs@.len() - i,
    {
        if !char_is_whitespace(cs[i]) {
            return false;
        }
        i = i + 1;
    }
    true
}

/// Appends `n` spaces.
fn write_spaces(n: usize, dest: &mut XmlDestination)
    ensures
        final(dest).buffer@ == old(dest).buffer@ + spaces(n as nat),
        final(dest).format == old(dest).format,
{
    let mut i: usize = 0;
    while i < n
        invariant
            i <= n,
            dest.buffer@ == old(dest).buffer@ + spaces(i as nat),
            dest.format == old(dest).format,
        decreases n - i,
    {
        dest.write_char(' ');
        assert(spaces((i + 1) as nat) =~= spaces(i as nat).push(' '));
        i = i + 1;
    }
}

impl XmlSerializer {
    /// Writes the document as XML text: the declaration line, the prolog
    /// nodes, then the content of the root container, indented as the
    /// options ask.
    pub fn serialize_to_string(doc: &Document, options: &SerializeOptions) -> (r: String)
        requires
            serializable(doc@),
        ensures
            r@ == ser_doc(doc@, *options),
    {
        let mut dest = XmlDestination::new(Format::Utf8);
        Self::write_declaration(doc, &mut dest);
        let n = doc.len();
        match doc.prolog_id() {
            Some(p) => {
                if n > 0 {
                    proof {
                        if doc@.valid(p as int) {
                            crate::document::lemma_bounded_mono(doc@, p as int, doc@.nodes.len(), doc@.nodes.len());
                        }
                    }
                    Self::serialize_children(doc, p, 0, options, &mut dest, Ghost((n - 1) as nat));
                }
            },
            None => {},
        }
        match doc.root_id() {
            Some(p) => {
                if n > 0 {
                    Self::serialize_children(doc, p, 0, options, &mut dest, Ghost((n - 1) as nat));
                }
            },
            None => {},
        }
        proof {
            if n == 0 {
                assert(container_text(doc@, doc@.prolog_id, *options) =~= Seq::<char>::empty());
                assert(container_text(doc@, doc@.root_id, *options) =~= Seq::<char>::empty());
            }
        }
        dest.buffer
    }

    /// Writes the XML declaration line.
    fn write_declaration(doc: &Document, dest: &mut XmlDestination)
        ensures
            final(dest).buffer@ == old(dest).buffer@ + decl_text(doc@),
            final(dest).format == old(dest).format,
    {
        if let Some(decl_id) = doc.declaration_id() {
            if let Some(node) = doc.get_node(decl_id) {
                if let NodeKind::Declaration { version, encoding, standalone } = &node.kind {
                    dest.write_str("<?xml version=\"");
                    dest.write_str(version.as_str());
                    dest.write_str("\"");
                    if let Some(enc) = encoding {
                        dest.write_str(" encoding=\"");
                        dest.write_str(enc.as_str());
                        dest.write_str("\"");
                    }
                    if let Some(st) = standalone {
                        dest.write_str(" standalone=\"");
                        if *st {
                            dest.write_str("yes");
                        } else {
                            dest.write_str("no");
                        }
                        dest.write_str("\"");
                    }
                    dest.write_str("?>\n");
                    return;
                }
            }
        }
    }

    /// Writes the children of `parent_id`, skipping the XML declaration.
    fn serialize_children(
        doc: &Document,
        parent_id: NodeId,
        indent_level: usize,
        options: &SerializeOptions,
        dest: &mut XmlDestination,
        Ghost(fuel): Ghost<nat>,
    )
        requires
            doc@.wf(),
            doc@.valid(parent_id as int) ==> doc@.bounded(parent_id as int, fuel + 1),
            indent_level + fuel < u32::MAX,
        ensures
            final(dest).buffer@ == old(dest).buffer@ + ser_children(doc@, parent_id, indent_level as nat, *options, 0, fuel),
            final(dest).format == old(dest).format,
        decreases fuel, 1nat,
    {
        let ghost d = doc@;
        if let Some(node) = doc.get_node(parent_id) {
            let n = node.children.len();
            let mut k: usize = 0;
            let ghost b0 = dest.buffer@;
            while k < n
                invariant
                    d == doc@,
                    d.wf(),
                    d.valid(parent_id as int),
                    d.bounded(parent_id as int, fuel + 1),
                    node@ == d.nodes[parent_id as int],
                    n == node.children@.len(),
                    k <= n,
                    indent_level + fuel < u32::MAX,
                    b0 + ser_children(d, parent_id, indent_level as nat, *options, 0, fuel) == dest.buffer@
                        + ser_children(d, parent_id, indent_level as nat, *options, k as int, fuel),
                    dest.format == old(dest).format,
                decreases n - k,
            {
                let c = node.children[k];
                let ghost before = dest.buffer@;
                if doc.declaration_id() != Some(c) {
                    assert(d.bounded(c as int, fuel));
                    Self::serialize_node(doc, c, indent_level, options, dest, Ghost(fuel));
                }
                k = k + 1;
            }
        }
    }

    /// The indentation width at a nesting level.
    fn indent_width(indent_level: usize, options: &SerializeOptions) -> (r: usize)
        ensures
            options.pretty_print ==> spaces(r as nat) == indent_of(indent_level as nat, *options),
            !options.pretty_print ==> r == 0 && indent_of(indent_level as nat, *options) == Seq::<char>::empty(),
    {
        if options.pretty_print {
            match indent_level.checked_mul(options.indent_step) {
                Some(v) => v,
                None => usize::MAX,
            }
        } else {
            0
        }
    }

    /// Writes a node that is not an element.
    fn write_leaf(kind: &NodeKind, indent_level: usize, options: &SerializeOptions, dest: &mut XmlDestination)
        requires
            !(kind@ is Element),
        ensures
            final(dest).buffer@ == old(dest).buffer@ + leaf_text(kind@, indent_level as nat, *options),
            final(dest).format == old(dest).format,
    {
        let ind = Self::indent_width(indent_level, options);
        match kind {
            NodeKind::Text(t) => {
                if !options.pretty_print || !is_blank(t.as_str()) {
                    write_escaped_text(t.as_str(), dest);
                }
            },
            NodeKind::CData(c) => {
                dest.write_str("<![CDATA[");
                dest.write_str(c.as_str());
                dest.write_str("]]>");
            },
            NodeKind::Comment(c) => {
                write_spaces(ind, dest);
                dest.write_str("<!--");
                dest.write_str(c.as_str());
                dest.write_str("-->");
                if options.pretty_print {
                    dest.write_char('\n');
                }
            },
            NodeKind::ProcessingInstruction { target, data } => {
                write_spaces(ind, dest);
                dest.write_str("<?");
                dest.write_str(target.as_str());
                if !data.as_str().is_empty() {
                    dest.write_str(" ");
                    dest.write_str(data.as_str());
                }
                dest.write_str("?>");
                if options.pretty_print {
                    dest.write_char('\n');
                }
            },
            _ => {},
        }
    }

    /// Writes a start tag without its closing `>`.
    fn write_start_tag(name: &str, attributes: &Vec<Attribute>, indent_level: usize, options: &SerializeOptions, dest: &mut XmlDestination)
        ensures
            final(dest).buffer@ == old(dest).buffer@ + start_tag(name@, attrs_view(attributes@), indent_level as nat, *options),
            final(dest).format == old(dest).format,
    {
        let ind = Self::indent_width(indent_level, options);
        write_spaces(ind, dest);
        dest.write_str("<");
        dest.write_str(name);
        write_attributes(attributes, dest);
    }

    /// Writes an end tag and its line end.
    fn write_end_tag(name: &str, options: &SerializeOptions, dest: &mut XmlDestination)
        ensures
            final(dest).buffer@ == old(dest).buffer@ + end_tag(name@, *options),
            final(dest).format == old(dest).format,
    {
        dest.write_str("</");
        dest.write_str(name);
        dest.write_str(">");
        if options.pretty_print {
            dest.write_char('\n');
        }
    }

    /// Writes one node and its subtree.
    fn serialize_node(
        doc: &Document,
        node_id: NodeId,
        indent_level: usize,
        options: &SerializeOptions,
        dest: &mut XmlDestination,
        Ghost(fuel): Ghost<nat>,
    )
        requires
            doc@.wf(),
            doc@.valid(node_id as int) ==> doc@.bounded(node_id as int, fuel),
            indent_level + fuel < u32::MAX,
        ensures
            final(dest).buffer@ == old(dest).buffer@ + ser_node(doc@, node_id, indent_level as nat, *options, fuel),
            final(dest).format == old(dest).format,
        decreases fuel, 0nat,
    {
        let node = match doc.get_node(node_id) {
            Some(n) => n,
            None => {
                return;
            },
        };
        match &node.kind {
            NodeKind::Element { name, attributes } => {
                Self::write_start_tag(name.as_str(), attributes, indent_level, options, dest);
                if node.children.len() == 0 {
                    dest.write_str("/>");
                    if options.pretty_print {
                        dest.write_char('\n');
                    }
                } else {
                    dest.write_str(">");
                    if Self::has_only_text(doc, &node.children) {
                        Self::write_inline_text(doc, &node.children, dest);
                    } else {
                        if options.pretty_print {
                            dest.write_char('\n');
                        }
                        Self::serialize_children(doc, node_id, indent_level + 1, options, dest, Ghost((fuel - 1) as nat));
                        let ind = Self::indent_width(indent_level, options);
                        write_spaces(ind, dest);
                    }
                    Self::write_end_tag(name.as_str(), options, dest);
                }
            },
            _ => {
                Self::write_leaf(&node.kind, indent_level, options, dest);
            },
        }
    }

    /// Whether every child is text or CDATA.
    fn has_only_text(doc: &Document, children: &Vec<NodeId>) -> (r: bool)
        ensures
            r == only_text(doc@, children@),
    {
        let mut i: usize = 0;
        while i < children.len()
            invariant
                i <= children@.len(),
                forall|j: int| 0 <= j < i ==> #[trigger] is_textual(doc@, children@[j]),
            decreases children@.len() - i,
        {
            let ok = match doc.get_node(children[i]) {
                Some(c) => match &c.kind {
                    NodeKind::Text(_) => true,
                    NodeKind::CData(_) => true,
                    _ => false,
                },
                None => false,
            };
            if !ok {
                assert(!is_textual(doc@, children@[i as int]));
                return false;
            }
            i = i + 1;
        }
        true
    }

    /// Writes text and CDATA children inline.
    fn write_inline_text(doc: &Document, children: &Vec<NodeId>, dest: &mut XmlDestination)
        requires
            only_text(doc@, children@),
        ensures
            final(dest).buffer@ == old(dest).buffer@ + inline_text(doc@, children@),
            final(dest).format == old(dest).format,
    {
        let mut i: usize = 0;
        while i < children.len()
            invariant
                i <= children@.len(),
                only_text(doc@, children@),
                dest.buffer@ == old(dest).buffer@ + inline_text(doc@, children@.take(i as int)),
                dest.format == old(dest).format,
            decreases children@.len() - i,
        {
            assert(is_textual(doc@, children@[i as int]));
            match doc.get_node(children[i]) {
                Some(c) => match &c.kind {
                    NodeKind::Text(t) => write_escaped_text(t.as_str(), dest),
                    NodeKind::CData(x) => {
                        dest.write_str("<![CDATA[");
                        dest.write_str(x.as_str());
                        dest.write_str("]]>");
                    },
                    _ => {},
                },
                None => {},
            }
            assert(children@.take(i + 1).drop_last() =~= children@.take(i as int));
            i = i + 1;
        }
        assert(children@.take(children@.len() as int) =~= children@);
    }
}

} // verus!
