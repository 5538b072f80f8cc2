//! The recursive-descent parser that builds a document tree from a source.

use vstd::prelude::*;
use crate::document::{fresh_node, link_child, with_children, DocV, Document};
use crate::entity::mapper::{error_matches, expand_spec, registered, EntityMapper, ExpandErr, MapperV};
use crate::error::XmlError;
use crate::io::char_utils::{char_is_alphanumeric, name_char};
use crate::io::source::{byte_len, leading_space, SourceV, XmlSource};
use crate::node::{attrs_view, AttrV, Attribute, KindV, NodeId, NodeKind, NodeV};
use crate::options::ParseOptions;
use crate::parser::subset::{entity_declarations, entity_decls};
use crate::seqs::{find_first, lemma_find_first_is, lemma_find_first_none};
use crate::text::{str_chars, string_from_chars};
use crate::tree::{distinct_names, lemma_depth_le, lemma_link_shape, lemma_push_shape, lemma_shape_same_nodes};

verus! {

/// The length of the leading run of name characters.
pub open spec fn name_len(s: Seq<char>) -> nat
    decreases s.len(),
{
    if s.len() > 0 && name_char(s[0]) {
        1 + name_len(s.skip(1))
    } else {
        0
    }
}

/// Whether `p` occurs in `s` at position `q` (which must be inside `s`).
pub open spec fn occurs_at(s: Seq<char>, p: Seq<char>, q: int) -> bool {
    0 <= q < s.len() && s.len() - q >= p.len() && s.subrange(q, q + p.len()) == p
}

/// The first position at or after `q` where `p` occurs in `s`.
pub open spec fn find_seq_from(s: Seq<char>, p: Seq<char>, q: int) -> Option<int>
    decreases s.len() - q,
{
    if q < 0 || q >= s.len() {
        None
    } else if occurs_at(s, p, q) {
        Some(q)
    } else {
        find_seq_from(s, p, q + 1)
    }
}

/// The first position where `p` occurs in `s`.
pub open spec fn find_seq(s: Seq<char>, p: Seq<char>) -> Option<int> {
    find_seq_from(s, p, 0)
}

/// The view of an optional character vector.
pub open spec fn opt_chars(o: Option<Vec<char>>) -> Option<Seq<char>> {
    match o {
        Some(v) => Some(v@),
        None => None,
    }
}

proof fn lemma_find_seq_from(s: Seq<char>, p: Seq<char>, q: int)
    requires
        0 <= q,
    ensures
        find_seq_from(s, p, q) matches Some(k) ==> q <= k < s.len() && occurs_at(s, p, k) && forall|j: int|
            q <= j < k ==> !occurs_at(s, p, j),
        find_seq_from(s, p, q) is None ==> forall|j: int| q <= j < s.len() ==> !occurs_at(s, p, j),
    decreases s.len() - q,
{
    if q < s.len() && !occurs_at(s, p, q) {
        lemma_find_seq_from(s, p, q + 1);
    }
}

/// What a search for a substring from position `q` finds.
pub proof fn lemma_find_seq_from_pub(s: Seq<char>, p: Seq<char>, q: int)
    requires
        0 <= q,
    ensures
        find_seq_from(s, p, q) matches Some(k) ==> q <= k < s.len() && occurs_at(s, p, k),
        find_seq_from(s, p, q) is None ==> forall|j: int| q <= j < s.len() ==> !occurs_at(s, p, j),
{
    lemma_find_seq_from(s, p, q);
}

proof fn lemma_find_seq_stop(s: Seq<char>, p: Seq<char>, k: int)
    requires
        0 <= k < s.len(),
        occurs_at(s, p, k),
        forall|j: int| 0 <= j < k ==> !occurs_at(s, p, j),
    ensures
        find_seq(s, p) == Some(k),
{
    lemma_find_seq_from(s, p, 0);
    if let Some(k2) = find_seq(s, p) {
        if k2 > k {
        }
    }
}

proof fn lemma_name_len(s: Seq<char>)
    ensures
        name_len(s) <= s.len(),
        forall|i: int| 0 <= i < name_len(s) ==> name_char(#[trigger] s[i]),
        name_len(s) < s.len() ==> !name_char(s[name_len(s) as int]),
    decreases s.len(),
{
    if s.len() > 0 && name_char(s[0]) {
        lemma_name_len(s.skip(1));
        assert forall|i: int| 0 <= i < name_len(s) implies name_char(#[trigger] s[i]) by {
            if i > 0 {
                assert(s[i] == s.skip(1)[i - 1]);
            }
        }
        if name_len(s) < s.len() {
            assert(s[name_len(s) as int] == s.skip(1)[name_len(s.skip(1)) as int]);
        }
    }
}

proof fn lemma_name_len_step(s: Seq<char>, i: int)
    requires
        0 <= i < s.len(),
        forall|j: int| 0 <= j <= i ==> name_char(#[trigger] s[j]),
    ensures
        name_len(s) > i,
    decreases i,
{
    if i > 0 {
        assert forall|j: int| 0 <= j <= i - 1 implies name_char(#[trigger] s.skip(1)[j]) by {
            assert(s.skip(1)[j] == s[j + 1]);
        }
        lemma_name_len_step(s.skip(1), i - 1);
    }
}

/// The recursive-descent parser: a source, the limits, and the entity table
/// that grows with the declarations of the internal subset.
#[derive(Debug)]
pub struct XmlParser {
    source: XmlSource,
    options: ParseOptions,
    entity_mapper: EntityMapper,
    element_count: usize,
}

impl XmlParser {
    /// The parser is ready to run.
    pub closed spec fn wf(&self) -> bool {
        self.source.wf()
    }

    /// The state of the source.
    pub closed spec fn source_view(&self) -> SourceV {
        self.source@
    }

    /// The limits in force.
    pub closed spec fn options(&self) -> ParseOptions {
        self.options
    }

    /// The entity table in force.
    pub closed spec fn mapper(&self) -> MapperV {
        self.entity_mapper@
    }

    /// How many elements have been read.
    pub closed spec fn count(&self) -> nat {
        self.element_count as nat
    }

    /// A parser over `source` with the given limits; the entity table holds the
    /// predefined entities and the configured nesting limit.
    pub fn new(source: XmlSource, options: ParseOptions) -> (r: Self)
        requires
            source.wf(),
        ensures
            r.wf(),
            r.source_view() == source@,
            r.options() == options,
            r.mapper() == initial_mapper(options),
            r.count() == 0,
    {
        let mapper = EntityMapper::new(options.max_entity_expansion_depth);
        XmlParser { source, options, entity_mapper: mapper, element_count: 0 }
    }

    /// The source moved forward over the same text.
    spec fn moved_on(&self, old: &Self) -> bool {
        &&& self.source.wf()
        &&& self.source@.text == old.source@.text
        &&& self.source@.format == old.source@.format
        &&& old.source@.idx <= self.source@.idx
        &&& self.options == old.options
    }

    /// A syntax error at the current line and column.
    fn syntax_error(&self, message: &str) -> (e: XmlError)
        requires
            self.wf(),
        ensures
            e is SyntaxError,
            e matches XmlError::SyntaxError { message: m, line, col } && m@ == message@ && line
                == self.source@.line() && col == self.source@.col(),
    {
        XmlError::SyntaxError { message: message.to_owned(), line: self.source.line(), col: self.source.col() }
    }

    /// Adds a node, failing when the arena is full.
    fn add(doc: &mut Document, kind: NodeKind) -> (r: Result<NodeId, XmlError>)
        requires
            old(doc).wf(),
        ensures
            final(doc).wf(),
            match r {
                Ok(id) => id == old(doc)@.len() && old(doc)@.len() < u32::MAX && final(doc)@ == old(doc)@.with_nodes(
                    old(doc)@.nodes.push(fresh_node(id, kind@)),
                ),
                Err(e) => e is SecurityLimitExceeded && final(doc)@ == old(doc)@ && old(doc)@.len() >= u32::MAX,
            },
    {
        if doc.len() >= 0xFFFF_FFFFusize {
            return Err(XmlError::SecurityLimitExceeded("Node arena capacity exceeded".to_string()));
        }
        Ok(doc.add_node(kind))
    }

    /// Consumes the longest run of name characters and returns it.
    fn parse_name(&mut self) -> (r: String)
        requires
            old(self).wf(),
        ensures
            final(self).moved_on(old(self)),
            final(self).element_count == old(self).element_count,
            final(self).entity_mapper == old(self).entity_mapper,
            r@ == old(self).source@.rest().take(name_len(old(self).source@.rest()) as int),
            final(self).source@ == old(self).source@.advanced(name_len(old(self).source@.rest())),
    {
        let ghost s0 = self.source@;
        let ghost rest = s0.rest();
        proof {
            self.source.lemma_wf();
        }
        let mut out: Vec<char> = Vec::new();
        proof {
            lemma_name_len(rest);
        }
        loop
            invariant
                self.element_count == old(self).element_count,
                self.source.wf(),
                self.source@.text == s0.text,
                self.source@.format == s0.format,
                s0.idx <= s0.text.len(),
                rest == s0.rest(),
                s0.idx <= self.source@.idx,
                out@ == rest.take(self.source@.idx - s0.idx),
                self.source@.idx - s0.idx <= name_len(rest),
                s0 == old(self).source@,
                name_len(rest) <= rest.len(),
                forall|i: int| 0 <= i < name_len(rest) ==> name_char(#[trigger] rest[i]),
                name_len(rest) < rest.len() ==> !name_char(rest[name_len(rest) as int]),
                self.options == old(self).options,
                self.entity_mapper == old(self).entity_mapper,
            ensures
                self.source@.idx - s0.idx == name_len(rest),
            decreases s0.text.len() - self.source@.idx,
        {
            proof {
                self.source.lemma_wf();
            }
            let ghost k = (self.source@.idx - s0.idx) as int;
            match self.source.peek() {
                Some(ch) => {
                    assert(rest[k] == ch);
                    if char_is_alphanumeric(ch) || ch == '_' || ch == '-' || ch == ':' || ch == '.' {
                        assert(name_char(ch));
                        self.source.next_char();
                        out.push(ch);
                        assert(rest.take(k + 1) =~= rest.take(k).push(ch));
                    } else {
                        assert(!name_char(ch));
                        break;
                    }
                },
                None => {
                    proof {
                        assert(k == rest.len());
                    }
                    break;
                },
            }
        }
        string_from_chars(&out)
    }

    /// Consumes characters up to the first `c` (not consumed) or the end,
    /// and returns them.
    fn take_until_char(&mut self, c: char) -> (r: Vec<char>)
        requires
            old(self).wf(),
        ensures
            final(self).moved_on(old(self)),
            final(self).element_count == old(self).element_count,
            final(self).entity_mapper == old(self).entity_mapper,
            ({
                let rest = old(self).source@.rest();
                let k = match find_first(rest, c) {
                    Some(k) => k,
                    None => rest.len() as int,
                };
                r@ == rest.take(k) && final(self).source@ == old(self).source@.advanced(k as nat)
            }),
    {
        let ghost s0 = self.source@;
        let ghost rest = s0.rest();
        proof {
            self.source.lemma_wf();
        }
        let mut out: Vec<char> = Vec::new();
        proof {
            crate::seqs::lemma_find_from(rest, c, 0);
        }
        loop
            invariant
                self.element_count == old(self).element_count,
                self.source.wf(),
                self.source@.text == s0.text,
                self.source@.format == s0.format,
                s0.idx <= s0.text.len(),
                rest == s0.rest(),
                s0.idx <= self.source@.idx <= s0.text.len(),
                out@ == rest.take(self.source@.idx - s0.idx),
                s0 == old(self).source@,
                forall|j: int| 0 <= j < self.source@.idx - s0.idx ==> rest[j] != c,
                self.options == old(self).options,
                self.entity_mapper == old(self).entity_mapper,
            ensures
                (self.source@.idx - s0.idx == rest.len() || rest[self.source@.idx - s0.idx] == c),
            decreases s0.text.len() - self.source@.idx,
        {
            proof {
                self.source.lemma_wf();
            }
            let ghost k = (self.source@.idx - s0.idx) as int;
            match self.source.peek() {
                Some(ch) => {
                    assert(rest[k] == ch);
                    if ch == c {
                        break;
                    }
                    self.source.next_char();
                    out.push(ch);
                    assert(rest.take(k + 1) =~= rest.take(k).push(ch));
                },
                None => {
                    break;
                },
            }
        }
        proof {
            let k = self.source@.idx - s0.idx;
            if k < rest.len() {
                lemma_find_first_is(rest, c, k);
            } else {
                lemma_find_first_none(rest, c);
            }
        }
        out
    }

    /// Consumes characters up to the first occurrence of `pat` and `pat`
    /// itself, returning what came before it; `None` (with everything
    /// consumed) when `pat` does not occur.
    fn scan_until(&mut self, pat: &[char]) -> (r: Option<Vec<char>>)
        requires
            old(self).wf(),
            pat@.len() > 0,
        ensures
            final(self).moved_on(old(self)),
            final(self).element_count == old(self).element_count,
            final(self).entity_mapper == old(self).entity_mapper,
            match find_seq(old(self).source@.rest(), pat@) {
                Some(k) => r matches Some(v) && v@ == old(self).source@.rest().take(k) && final(self).source@
                    == old(self).source@.advanced((k + pat@.len()) as nat),
                None => r is None,
            },
    {
        let ghost s0 = self.source@;
        let ghost rest = s0.rest();
        proof {
            self.source.lemma_wf();
        }
        let mut out: Vec<char> = Vec::new();
        proof {
            lemma_find_seq_from(rest, pat@, 0);
        }
        while !self.source.is_eof()
            invariant
                self.element_count == old(self).element_count,
                self.source.wf(),
                pat@.len() > 0,
                self.source@.text == s0.text,
                self.source@.format == s0.format,
                s0.idx <= s0.text.len(),
                rest == s0.rest(),
                s0.idx <= self.source@.idx <= s0.text.len(),
                out@ == rest.take(self.source@.idx - s0.idx),
                s0 == old(self).source@,
                forall|j: int| 0 <= j < self.source@.idx - s0.idx ==> !occurs_at(rest, pat@, j),
                self.options == old(self).options,
                self.entity_mapper == old(self).entity_mapper,
            decreases s0.text.len() - self.source@.idx,
        {
            proof {
                self.source.lemma_wf();
            }
            let ghost k = (self.source@.idx - s0.idx) as int;
            let here = self.source.starts_with_chars(pat);
            proof {
                assert(self.source@.rest() =~= rest.skip(k));
                if self.source@.rest().len() >= pat@.len() {
                    assert(self.source@.rest().take(pat@.len() as int) =~= rest.subrange(k, k + pat@.len()));
                }
                assert(here == occurs_at(rest, pat@, k));
            }
            if here {
                self.source.consume_chars(pat);
                proof {
                    lemma_find_seq_stop(rest, pat@, k);
                }
                return Some(out);
            }
            let ch = self.source.peek();
            self.source.next_char();
            match ch {
                Some(c) => {
                    out.push(c);
                    assert(rest[k] == c);
                    assert(rest.take(k + 1) =~= rest.take(k).push(c));
                },
                None => {},
            }
        }
        proof {
            assert(self.source@.idx - s0.idx == rest.len());
            if let Some(k) = find_seq(rest, pat@) {
                assert(!occurs_at(rest, pat@, k));
            }
        }
        None
    }

    /// Parses a quoted literal: the next character is the quote, and the
    /// literal runs to the next occurrence of that same character.
    fn parse_quoted_string(&mut self) -> (r: Result<String, XmlError>)
        requires
            old(self).wf(),
        ensures
            final(self).moved_on(old(self)),
            final(self).element_count == old(self).element_count,
            final(self).entity_mapper == old(self).entity_mapper,
            ({
                let rest = old(self).source@.rest();
                if rest.len() == 0 {
                    r matches Err(e) && e is SyntaxError
                } else {
                    match find_first(rest.skip(1), rest[0]) {
                        Some(k) => r matches Ok(s) && s@ == rest.skip(1).take(k) && final(self).source@
                            == old(self).source@.advanced((k + 2) as nat),
                        None => r matches Err(e) && e is SyntaxError,
                    }
                }
            }),
    {
        let ghost rest = self.source@.rest();
        proof {
            self.source.lemma_wf();
        }
        let q = match self.source.next_char() {
            Some(q) => q,
            None => {
                return Err(self.syntax_error("Expected quote for string literal"));
            },
        };
        assert(self.source@.rest() =~= rest.skip(1));
        proof {
            crate::seqs::lemma_find_from(rest.skip(1), q, 0);
        }
        let body = self.take_until_char(q);
        proof {
            self.source.lemma_wf();
        }
        if self.source.is_eof() {
            return Err(self.syntax_error("Unterminated string literal"));
        }
        self.source.next_char();
        Ok(string_from_chars(&body))
    }

    /// Parses `name = "value"` (either quote), expanding references in the
    /// value.
    fn parse_attribute(&mut self) -> (r: Result<(String, String), XmlError>)
        requires
            old(self).wf(),
        ensures
            final(self).moved_on(old(self)),
            final(self).element_count == old(self).element_count,
            final(self).entity_mapper == old(self).entity_mapper,
            r is Ok ==> final(self).source@.idx > old(self).source@.idx,
            match attribute_at(old(self).source@, old(self).entity_mapper@) {
                Some((k, v, s)) => r matches Ok((kk, vv)) && kk@ == k && vv@ == v && final(self).source@ == s,
                None => r matches Err(e) && (e is SyntaxError || e is EntityError || e is SecurityLimitExceeded),
            },
    {
        proof {
            reveal_strlit("=");
            assert("="@ =~= seq!['=']);
        }
        let ghost s0 = self.source@;
        let ghost em = self.entity_mapper@;
        let key = self.parse_name();
        self.source.skip_whitespace();
        let ghost s1 = self.source@;
        assert(s1 == after_space(s0.advanced(name_len(s0.rest()))));
        if !self.source.consume("=") {
            return Err(self.syntax_error("Expected '=' after attribute name"));
        }
        self.source.skip_whitespace();
        let ghost s2 = self.source@;
        assert(s2 == after_space(s1.advanced(1)));
        let quote = match self.source.next_char() {
            Some(q) => q,
            None => {
                return Err(self.syntax_error("Expected quote after '=' for attribute"));
            },
        };
        if quote != '"' && quote != '\'' {
            return Err(self.syntax_error("Invalid attribute quote character"));
        }
        let ghost s3 = self.source@;
        assert(s3 == s2.advanced(1));
        proof {
            crate::seqs::lemma_find_from(s3.rest(), quote, 0);
        }
        let raw = self.take_until_char(quote);
        if self.source.is_eof() {
            return Err(self.syntax_error("Unterminated attribute value"));
        }
        self.source.next_char();
        let raw_s = string_from_chars(raw.as_slice());
        assert(raw_s@ == s3.rest().take(raw_s@.len() as int));
        assert(self.entity_mapper@ == em);
        match self.entity_mapper.expand(raw_s.as_str()) {
            Ok(v) => Ok((key, v)),
            Err(e) => {
                proof {
                    match expand_spec(self.entity_mapper@, raw_s@) {
                        Ok(_) => {},
                        Err(k) => {
                            assert(error_matches(e, k));
                        },
                    }
                }
                Err(e)
            },
        }
    }

    /// Parses character data up to the next `<` (or the end), expands
    /// references in it, and adds it to the arena as a text node.
    fn parse_text(&mut self, doc: &mut Document) -> (r: Result<NodeId, XmlError>)
        requires
            old(self).wf(),
            doc_ready(old(doc)@, old(self).options),
        ensures
            r is Ok ==> doc_ready(final(doc)@, old(self).options),
            final(self).moved_on(old(self)),
            final(self).element_count == old(self).element_count,
            final(self).entity_mapper == old(self).entity_mapper,
            ({
                let rest = old(self).source@.rest();
                let k = match find_first(rest, '<') {
                    Some(k) => k,
                    None => rest.len() as int,
                };
                final(self).source@ == old(self).source@.advanced(k as nat) && match r {
                    Ok(id) => final(doc).wf() && id == old(doc)@.len() && exists|t: Seq<char>|
                        #![trigger fresh_node(id, KindV::Text(t))]
                        expand_spec(old(self).entity_mapper@, rest.take(k)) == Ok::<Seq<char>, ExpandErr>(t)
                            && final(doc)@ == old(doc)@.with_nodes(old(doc)@.nodes.push(fresh_node(id, KindV::Text(t)))),
                    Err(e) => (e is EntityError && expand_spec(old(self).entity_mapper@, rest.take(k)) is Err) || (
                    e is SecurityLimitExceeded && (expand_spec(old(self).entity_mapper@, rest.take(k)) is Err
                        || old(doc)@.len() >= u32::MAX)),
                }
            }),
    {
        let raw = self.take_until_char('<');
        let raw_s = string_from_chars(&raw);
        match self.entity_mapper.expand(raw_s.as_str()) {
            Ok(t) => {
                Self::add_leaf(doc, NodeKind::Text(t), Ghost(self.options))
            },
            Err(e) => {
                proof {
                    match expand_spec(self.entity_mapper@, raw_s@) {
                        Ok(_) => {},
                        Err(k) => {
                            assert(error_matches(e, k));
                        },
                    }
                }
                Err(e)
            },
        }
    }

    /// Parses a section opened by `open` and closed by `close` (the source
    /// must begin with `open`), returning its content.
    fn parse_section(&mut self, open: &[char], close: &[char]) -> (r: Option<Vec<char>>)
        requires
            old(self).wf(),
            old(self).source@.starts_with(open@),
            close@.len() > 0,
        ensures
            r is Some ==> final(self).source@.idx > old(self).source@.idx,
            final(self).moved_on(old(self)),
            final(self).element_count == old(self).element_count,
            final(self).entity_mapper == old(self).entity_mapper,
            ({
                let body = old(self).source@.rest().skip(open@.len() as int);
                match find_seq(body, close@) {
                    Some(k) => r matches Some(v) && v@ == body.take(k) && final(self).source@ == old(
                        self,
                    ).source@.advanced((open@.len() + k + close@.len()) as nat),
                    None => r is None,
                }
            }),
    {
        let ghost s0 = self.source@;
        proof {
            self.source.lemma_wf();
        }
        self.source.consume_chars(open);
        let ghost s1 = self.source@;
        assert(s1 == s0.advanced(open@.len()));
        assert(s1.rest() =~= s0.rest().skip(open@.len() as int));
        let r = self.scan_until(close);
        proof {
            lemma_find_seq_from(s1.rest(), close@, 0);
            lemma_find_seq_from(s0.rest().skip(open@.len() as int), close@, 0);
            if let Some(k) = find_seq(s1.rest(), close@) {
                assert(s1.advanced((k + close@.len()) as nat) == s0.advanced((open@.len() + k + close@.len()) as nat));
            }
        }
        r
    }

    /// Parses a comment `<!-- ... -->`; the source must begin with `<!--`.
    fn parse_comment(&mut self, doc: &mut Document) -> (r: Result<NodeId, XmlError>)
        requires
            old(self).wf(),
            doc_ready(old(doc)@, old(self).options),
            old(self).source@.starts_with(seq!['<', '!', '-', '-']),
        ensures
            r is Ok ==> final(self).source@.idx > old(self).source@.idx,
            r is Ok ==> doc_ready(final(doc)@, old(self).options),
            final(self).moved_on(old(self)),
            final(self).element_count == old(self).element_count,
            final(self).entity_mapper == old(self).entity_mapper,
            final(doc).wf(),
            ({
                let body = old(self).source@.rest().skip(4);
                match r {
                    Ok(id) => id == old(doc)@.len() && (find_seq(body, seq!['-', '-', '>']) matches Some(k)
                        && final(doc)@ == old(doc)@.with_nodes(
                        old(doc)@.nodes.push(fresh_node(id, KindV::Comment(body.take(k)))),
                    ) && final(self).source@ == old(self).source@.advanced((k + 7) as nat)),
                    Err(e) => (e is SyntaxError && find_seq(body, seq!['-', '-', '>']) is None)
                        || (e is SecurityLimitExceeded && old(doc)@.len() >= u32::MAX),
                }
            }),
    {
        let open: [char; 4] = ['<', '!', '-', '-'];
        let close: [char; 3] = ['-', '-', '>'];
        assert(open@ =~= seq!['<', '!', '-', '-']);
        assert(close@ =~= seq!['-', '-', '>']);
        match self.parse_section(&open, &close) {
            Some(v) => Self::add_leaf(doc, NodeKind::Comment(string_from_chars(&v)), Ghost(self.options)),
            None => Err(self.syntax_error("Unterminated XML comment")),
        }
    }

    /// Parses a CDATA section `<![CDATA[ ... ]]>`; the source must begin
    /// with `<![CDATA[`.
    fn parse_cdata(&mut self, doc: &mut Document) -> (r: Result<NodeId, XmlError>)
        requires
            old(self).wf(),
            doc_ready(old(doc)@, old(self).options),
            old(self).source@.starts_with(seq!['<', '!', '[', 'C', 'D', 'A', 'T', 'A', '[']),
        ensures
            r is Ok ==> final(self).source@.idx > old(self).source@.idx,
            r is Ok ==> doc_ready(final(doc)@, old(self).options),
            final(self).moved_on(old(self)),
            final(self).element_count == old(self).element_count,
            final(self).entity_mapper == old(self).entity_mapper,
            final(doc).wf(),
            ({
                let body = old(self).source@.rest().skip(9);
                match r {
                    Ok(id) => id == old(doc)@.len() && (find_seq(body, seq![']', ']', '>']) matches Some(k)
                        && final(doc)@ == old(doc)@.with_nodes(
                        old(doc)@.nodes.push(fresh_node(id, KindV::CData(body.take(k)))),
                    ) && final(self).source@ == old(self).source@.advanced((k + 12) as nat)),
                    Err(e) => (e is SyntaxError && find_seq(body, seq![']', ']', '>']) is None)
                        || (e is SecurityLimitExceeded && old(doc)@.len() >= u32::MAX),
                }
            }),
    {
        let open: [char; 9] = ['<', '!', '[', 'C', 'D', 'A', 'T', 'A', '['];
        let close: [char; 3] = [']', ']', '>'];
        assert(open@ =~= seq!['<', '!', '[', 'C', 'D', 'A', 'T', 'A', '[']);
        assert(close@ =~= seq![']', ']', '>']);
        match self.parse_section(&open, &close) {
            Some(v) => Self::add_leaf(doc, NodeKind::CData(string_from_chars(&v)), Ghost(self.options)),
            None => Err(self.syntax_error("Unterminated CDATA section")),
        }
    }

    /// Parses a processing instruction `<?target data?>`; the source must
    /// begin with `<?`.
    fn parse_pi(&mut self, doc: &mut Document) -> (r: Result<NodeId, XmlError>)
        requires
            old(self).wf(),
            doc_ready(old(doc)@, old(self).options),
            old(self).source@.starts_with(seq!['<', '?']),
        ensures
            r is Ok ==> doc_ready(final(doc)@, old(self).options),
            final(self).moved_on(old(self)),
            final(self).element_count == old(self).element_count,
            final(self).entity_mapper == old(self).entity_mapper,
            final(doc).wf(),
            r matches Ok(id) ==> id == old(doc)@.len() && final(self).source@.idx > old(self).source@.idx,
            match pi_at(old(self).source@) {
                Some((t, d, s)) => match r {
                    Ok(id) => final(doc)@ == old(doc)@.with_nodes(
                        old(doc)@.nodes.push(fresh_node(id, KindV::ProcessingInstruction { target: t, data: d })),
                    ) && final(self).source@ == s,
                    Err(e) => e is SecurityLimitExceeded && old(doc)@.len() >= u32::MAX,
                },
                None => r matches Err(e) && e is SyntaxError,
            },
    {
        let open: [char; 2] = ['<', '?'];
        assert(open@ =~= seq!['<', '?']);
        self.source.consume_chars(&open);
        let target = self.parse_name();
        self.source.skip_whitespace();
        let close: [char; 2] = ['?', '>'];
        match self.scan_until(&close) {
            Some(v) => Self::add_leaf(
                doc,
                NodeKind::ProcessingInstruction { target, data: string_from_chars(&v) },
                Ghost(self.options),
            ),
            None => Err(self.syntax_error("Unterminated processing instruction")),
        }
    }

    /// Parses `<!DOCTYPE name [PUBLIC "p" "s" | SYSTEM "s"] [[subset]]>`
    /// (the source must begin with `<!DOCTYPE`) and registers the entity
    /// declarations of the internal subset.
    fn parse_doctype(&mut self, doc: &mut Document) -> (r: Result<NodeId, XmlError>)
        requires
            old(self).wf(),
            doc_ready(old(doc)@, old(self).options),
            old(self).source@.starts_with(seq!['<', '!', 'D', 'O', 'C', 'T', 'Y', 'P', 'E']),
        ensures
            r is Ok ==> doc_ready(final(doc)@, old(self).options),
            final(self).moved_on(old(self)),
            final(self).element_count == old(self).element_count,
            final(doc).wf(),
            final(self).entity_mapper@.max_depth == old(self).entity_mapper@.max_depth,
            final(self).entity_mapper@.max_size == old(self).entity_mapper@.max_size,
            r matches Ok(id) ==> id == old(doc)@.len(),
            r matches Ok(id) ==> final(self).source@.idx > old(self).source@.idx,
            r matches Err(e) ==> e is SyntaxError || e is SecurityLimitExceeded,
            match doctype_at(old(self).source@) {
                Some((k, s)) => match r {
                    Ok(id) => final(doc)@ == old(doc)@.with_nodes(old(doc)@.nodes.push(fresh_node(id, k)))
                        && final(self).source@ == s && final(self).entity_mapper@ == with_entities(
                        old(self).entity_mapper@,
                        registered_all(old(self).entity_mapper@.entities, subset_decls(k)),
                    ),
                    Err(e) => e is SecurityLimitExceeded && old(doc)@.len() >= u32::MAX,
                },
                None => r matches Err(e) && e is SyntaxError,
            },
    {
        proof {
            reveal_strlit("PUBLIC");
            reveal_strlit("SYSTEM");
            reveal_strlit("[");
            reveal_strlit("]");
            reveal_strlit(">");
            assert("PUBLIC"@ =~= seq!['P', 'U', 'B', 'L', 'I', 'C']);
            assert("SYSTEM"@ =~= seq!['S', 'Y', 'S', 'T', 'E', 'M']);
            assert("["@ =~= seq!['[']);
            assert("]"@ =~= seq![']']);
            assert(">"@ =~= seq!['>']);
        }
        let ghost s0 = self.source@;
        let kw: [char; 9] = ['<', '!', 'D', 'O', 'C', 'T', 'Y', 'P', 'E'];
        assert(kw@ =~= seq!['<', '!', 'D', 'O', 'C', 'T', 'Y', 'P', 'E']);
        self.source.consume_chars(&kw);
        self.source.skip_whitespace();
        let ghost s1 = self.source@;
        let name = self.parse_name();
        self.source.skip_whitespace();
        let ghost s_ids = self.source@;
        assert(s_ids == after_space(s1.advanced(name_len(s1.rest()))));
        let mut public_id: Option<String> = None;
        let mut system_id: Option<String> = None;
        if self.source.consume("PUBLIC") {
            self.source.skip_whitespace();
            public_id = Some(self.parse_quoted_string()?);
            self.source.skip_whitespace();
            system_id = Some(self.parse_quoted_string()?);
        } else if self.source.consume("SYSTEM") {
            self.source.skip_whitespace();
            system_id = Some(self.parse_quoted_string()?);
        }
        let ghost s2 = self.source@;
        assert(external_ids_at(s_ids) == Some((crate::node::opt_view(public_id), crate::node::opt_view(system_id), s2)));
        self.source.skip_whitespace();
        let ghost s_sub = self.source@;
        let mut subset: Option<Vec<char>> = None;
        if self.source.consume("[") {
            proof {
                crate::seqs::lemma_find_from(self.source@.rest(), ']', 0);
            }
            let body = self.take_until_char(']');
            self.source.consume("]");
            subset = Some(body);
        }
        assert(subset_at(s_sub) == (opt_chars(subset), self.source@));
        self.source.skip_whitespace();
        if !self.source.consume(">") {
            return Err(self.syntax_error("Unclosed DOCTYPE declaration"));
        }
        let ghost m0 = self.entity_mapper@;
        let ghost decls: Seq<(Seq<char>, Seq<char>)> = match opt_chars(subset) {
            Some(b) => entity_decls(b),
            None => Seq::empty(),
        };
        match &subset {
            Some(body) => {
                let ds = entity_declarations(body.as_slice());
                let mut i: usize = 0;
                let ghost src = self.source@;
                let ghost opts = self.options;
                while i < ds.len()
                    invariant
                        self.element_count == old(self).element_count,
                        self.source.wf(),
                        self.source@ == src,
                        self.options == opts,
                        i <= ds@.len(),
                        decls == entity_decls(body@),
                        ds@.len() == decls.len(),
                        forall|j: int| 0 <= j < ds@.len() ==> (#[trigger] ds@[j]).0@ == decls[j].0 && ds@[j].1@ == decls[j].1,
                        self.entity_mapper@.max_depth == m0.max_depth,
                        self.entity_mapper@.max_size == m0.max_size,
                        self.entity_mapper@.entities == registered_all(m0.entities, decls.take(i as int)),
                    decreases ds@.len() - i,
                {
                    let n = string_from_chars(&ds[i].0);
                    let v = string_from_chars(&ds[i].1);
                    let ghost before = self.entity_mapper@;
                    self.entity_mapper.register(n.as_str(), v.as_str());
                    proof {
                        assert(decls.take(i + 1).drop_last() =~= decls.take(i as int));
                        assert(decls.take(i + 1).last() == decls[i as int]);
                    }
                    i = i + 1;
                }
                assert(decls.take(ds@.len() as int) =~= decls);
            },
            None => {},
        }
        let ghost sub_view: Option<Seq<char>> = opt_chars(subset);
        let internal_subset = match subset {
            Some(b) => Some(string_from_chars(&b)),
            None => None,
        };
        let ghost pv: Option<Seq<char>> = crate::node::opt_view(public_id);
        let ghost sv: Option<Seq<char>> = crate::node::opt_view(system_id);
        let ghost nv = name@;
        let kind = NodeKind::DocTypeDefinition { name, public_id, system_id, internal_subset };
        assert(kind@ == KindV::DocTypeDefinition { name: nv, public_id: pv, system_id: sv, internal_subset: sub_view });
        Self::add_leaf(doc, kind, Ghost(self.options))
    }

    /// Links the newest node `child` under the older node `parent`.
    fn attach(doc: &mut Document, parent: NodeId, child: NodeId, Ghost(o): Ghost<ParseOptions>)
        requires
            doc_ready(old(doc)@, o),
            parent < child,
            child == old(doc)@.len() - 1,
            old(doc)@.nodes[child as int].parent is None,
            old(doc)@.nodes[child as int].children.len() == 0,
            old(doc)@.is_element(child as int) ==> (if old(doc)@.is_element(parent as int) { 1nat } else { 0nat })
                + old(doc)@.element_depth(parent as int) <= o.max_nesting_depth,
        ensures
            doc_ready(final(doc)@, o),
            final(doc)@ == old(doc)@.with_nodes(link_child(old(doc)@.nodes, parent as int, child as int)),
            final(doc)@.element_depth(child as int) == (if old(doc)@.is_element(parent as int) { 1nat } else { 0nat })
                + old(doc)@.element_depth(parent as int),
            forall|i: int| 0 <= i < child ==> #[trigger] final(doc)@.element_depth(i) == old(doc)@.element_depth(i),
    {
        proof {
            lemma_link_shape(doc@, parent as int, child as int, o.max_nesting_depth as nat, o.max_attribute_count as nat);
        }
        let r = doc.append_child(parent, child);
        assert(r is Ok);
    }

    /// Adds a node that is not an element, keeping the document ready.
    fn add_leaf(doc: &mut Document, kind: NodeKind, Ghost(o): Ghost<ParseOptions>) -> (r: Result<NodeId, XmlError>)
        requires
            doc_ready(old(doc)@, o),
            !(kind@ is Element),
        ensures
            match r {
                Ok(id) => doc_ready(final(doc)@, o) && id == old(doc)@.len() && final(doc)@ == old(doc)@.with_nodes(
                    old(doc)@.nodes.push(fresh_node(id, kind@)),
                ),
                Err(e) => e is SecurityLimitExceeded && final(doc)@ == old(doc)@ && old(doc)@.len() >= u32::MAX,
            },
            final(doc).wf(),
    {
        let ghost k = kind@;
        proof {
            if doc@.len() < u32::MAX {
                lemma_push_shape(doc@, k, o.max_nesting_depth as nat, o.max_attribute_count as nat);
            }
        }
        Self::add(doc, kind)
    }

    /// Parses the XML declaration `<?xml version=".." encoding=".." standalone=".."?>`
    /// (the source must begin with `<?xml`) and links it under the prolog.
    fn parse_declaration(&mut self, doc: &mut Document) -> (r: Result<(), XmlError>)
        requires
            old(self).wf(),
            doc_ready(old(doc)@, old(self).options),
            old(self).source@.starts_with(seq!['<', '?', 'x', 'm', 'l']),
        ensures
            final(self).moved_on(old(self)),
            final(self).element_count == old(self).element_count,
            final(self).entity_mapper == old(self).entity_mapper,
            r is Ok ==> doc_ready(final(doc)@, old(self).options) && final(doc)@.nodes[1] == old(doc)@.nodes[1]
                && final(doc)@.declaration_id == Some(old(doc)@.len() as NodeId) && final(self).source@.idx
                > old(self).source@.idx,
            r matches Err(e) ==> e is SyntaxError || e is EntityError || e is SecurityLimitExceeded,
            match declaration_at(old(self).source@, old(self).entity_mapper@) {
                Some((k, s)) => if old(doc)@.len() >= u32::MAX {
                    r is Err
                } else {
                    r is Ok && final(self).source@ == s && final(doc)@ == DocV {
                        declaration_id: Some(old(doc)@.len() as NodeId),
                        ..add_child(old(doc)@, 0, k)
                    }
                },
                None => r is Err,
            },
    {
        proof {
            reveal_strlit("?>");
            assert("?>"@ =~= seq!['?', '>']);
        }
        let ghost s0 = self.source@;
        let ghost em = self.entity_mapper@;
        let ghost d0 = doc@;
        let ghost o = self.options;
        let kw: [char; 5] = ['<', '?', 'x', 'm', 'l'];
        assert(kw@ =~= seq!['<', '?', 'x', 'm', 'l']);
        self.source.consume_chars(&kw);
        self.source.skip_whitespace();
        let mut version = string_from_chars(&['1', '.', '0']);
        let mut encoding: Option<String> = None;
        let mut standalone: Option<bool> = None;
        let ghost s_f = self.source@;
        assert(version@ =~= seq!['1', '.', '0']);
        let ghost target = decl_fields_at(s_f, em, seq!['1', '.', '0'], None, None);
        assert(declaration_at(s0, em) == match target {
            None => None,
            Some((v, e, st, s1)) => if s1.starts_with(seq!['?', '>']) {
                Some((KindV::Declaration { version: v, encoding: e, standalone: st }, s1.advanced(2)))
            } else {
                None
            },
        });
        while !self.source.is_eof() && !self.source.starts_with("?>")
            invariant_except_break
                decl_fields_at(self.source@, em, version@, crate::node::opt_view(encoding), standalone) == target,
            invariant
                self.entity_mapper@ == em,
                em == old(self).entity_mapper@,
                s0 == old(self).source@,
                d0 == old(doc)@,
                declaration_at(s0, em) == match target {
                    None => None,
                    Some((v, e, st, s1)) => if s1.starts_with(seq!['?', '>']) {
                        Some((KindV::Declaration { version: v, encoding: e, standalone: st }, s1.advanced(2)))
                    } else {
                        None
                    },
                },
                "?>"@ == seq!['?', '>'],
                self.element_count == old(self).element_count,
                self.wf(),
                self.moved_on(old(self)),
                self.source@.idx > old(self).source@.idx,
                self.entity_mapper == old(self).entity_mapper,
            ensures
                target == Some((version@, crate::node::opt_view(encoding), standalone, self.source@)),
            decreases self.source@.text.len() - self.source@.idx,
        {
            proof {
                self.source.lemma_wf();
            }
            let (key, val) = match self.parse_attribute() {
                Ok(kv) => kv,
                Err(e) => {
                    return Err(e);
                },
            };
            let ghost s_a = self.source@;
            if crate::text::str_eq(key.as_str(), "version") {
                version = val;
            } else if crate::text::str_eq(key.as_str(), "encoding") {
                encoding = Some(val);
            } else if crate::text::str_eq(key.as_str(), "standalone") {
                standalone = Some(crate::text::str_eq(val.as_str(), "yes"));
            }
            self.source.skip_whitespace();
            proof {
                self.source.lemma_wf();
            }
        }
        if !self.source.consume("?>") {
            return Err(self.syntax_error("Unclosed XML declaration"));
        }
        let decl_id = Self::add_leaf(doc, NodeKind::Declaration { version, encoding, standalone }, Ghost(o))?;
        let ghost before = doc@;
        doc.set_declaration_id(decl_id);
        proof {
            lemma_shape_same_nodes(before, doc@, o.max_nesting_depth as nat, o.max_attribute_count as nat);
        }
        assert(doc@.nodes[decl_id as int].kind is Declaration);
        assert(doc@.dtd_id matches Some(x) ==> x < doc@.nodes.len() && doc@.nodes[x as int].kind is DocTypeDefinition);
        assert(doc_ready(doc@, o));
        let prolog_id = match doc.prolog_id() {
            Some(p) => p,
            None => 0,
        };
        Self::attach(doc, prolog_id, decl_id, Ghost(o));
        Ok(())
    }

    /// Parses comments, processing instructions and the DOCTYPE before the
    /// root element, linking each under the prolog.
    #[verifier::rlimit(80)]
    #[verifier::spinoff_prover]
    fn parse_prolog(&mut self, doc: &mut Document) -> (r: Result<(), XmlError>)
        requires
            old(self).wf(),
            doc_ready(old(doc)@, old(self).options),
        ensures
            final(self).moved_on(old(self)),
            final(self).element_count == old(self).element_count,
            final(self).entity_mapper@.max_depth == old(self).entity_mapper@.max_depth,
            final(self).entity_mapper@.max_size == old(self).entity_mapper@.max_size,
            r is Ok ==> doc_ready(final(doc)@, old(self).options) && final(doc)@.nodes[1] == old(doc)@.nodes[1],
            r matches Err(e) ==> e is SyntaxError || e is SecurityLimitExceeded,
            match prolog_at(old(self).source@, old(doc)@, old(self).entity_mapper@) {
                Some((s, d, m)) => r is Ok && final(self).source@ == s && final(doc)@ == d
                    && final(self).entity_mapper@ == m,
                None => r is Err,
            },
    {
        let ghost o = self.options;
        let ghost target = prolog_at(self.source@, doc@, self.entity_mapper@);
        let prolog_id = match doc.prolog_id() {
            Some(p) => p,
            None => 0,
        };
        loop
            invariant_except_break
                prolog_at(self.source@, doc@, self.entity_mapper@) == target,
            invariant
                self.element_count == old(self).element_count,
                self.wf(),
                self.moved_on(old(self)),
                self.entity_mapper@.max_depth == old(self).entity_mapper@.max_depth,
                self.entity_mapper@.max_size == old(self).entity_mapper@.max_size,
                o == old(self).options,
                doc_ready(doc@, o),
                doc@.nodes[1] == old(doc)@.nodes[1],
                prolog_id == 0,
                target == prolog_at(old(self).source@, old(doc)@, old(self).entity_mapper@),
            ensures
                target == Some((self.source@, doc@, self.entity_mapper@)),
            decreases self.source@.text.len() - self.source@.idx,
        {
            proof {
                self.source.lemma_wf();
            }
            let ghost s_top = self.source@;
            self.source.skip_whitespace();
            proof {
                self.source.lemma_wf();
                lemma_find_seq_from(self.source@.rest().skip(4), seq!['-', '-', '>'], 0);
            }
            let comment_open: [char; 4] = ['<', '!', '-', '-'];
            let pi_open: [char; 2] = ['<', '?'];
            let doctype_open: [char; 9] = ['<', '!', 'D', 'O', 'C', 'T', 'Y', 'P', 'E'];
            assert(comment_open@ =~= seq!['<', '!', '-', '-']);
            assert(pi_open@ =~= seq!['<', '?']);
            assert(doctype_open@ =~= seq!['<', '!', 'D', 'O', 'C', 'T', 'Y', 'P', 'E']);
            if self.source.starts_with_chars(&comment_open) {
                let id = self.parse_comment(doc)?;
                Self::attach(doc, prolog_id, id, Ghost(o));
            } else if self.source.starts_with_chars(&pi_open) {
                let id = self.parse_pi(doc)?;
                Self::attach(doc, prolog_id, id, Ghost(o));
            } else if self.source.starts_with_chars(&doctype_open) {
                let id = self.parse_doctype(doc)?;
                let ghost before = doc@;
                doc.set_dtd_id(id);
                proof {
                    lemma_shape_same_nodes(before, doc@, o.max_nesting_depth as nat, o.max_attribute_count as nat);
                }
                assert(doc@.nodes[id as int].kind is DocTypeDefinition);
                Self::attach(doc, prolog_id, id, Ghost(o));
            } else {
                break;
            }
            proof {
                self.source.lemma_wf();
            }
        }
        Ok(())
    }

    /// Adds an element node whose attributes have distinct names and are
    /// within the limit, keeping the document ready.
    fn add_element(doc: &mut Document, kind: NodeKind, Ghost(o): Ghost<ParseOptions>) -> (r: Result<NodeId, XmlError>)
        requires
            doc_ready(old(doc)@, o),
            kind@ matches KindV::Element { attributes, .. } && distinct_names(attributes) && attributes.len()
                <= o.max_attribute_count,
        ensures
            final(doc).wf(),
            match r {
                Ok(id) => doc_ready(final(doc)@, o) && id == old(doc)@.len() && final(doc)@ == old(doc)@.with_nodes(
                    old(doc)@.nodes.push(fresh_node(id, kind@)),
                ) && forall|i: int| 0 <= i < old(doc)@.len() ==> #[trigger] final(doc)@.element_depth(i) == old(
                    doc,
                )@.element_depth(i),
                Err(e) => e is SecurityLimitExceeded && final(doc)@ == old(doc)@ && old(doc)@.len() >= u32::MAX,
            },
    {
        let ghost k = kind@;
        proof {
            if doc@.len() < u32::MAX {
                lemma_push_shape(doc@, k, o.max_nesting_depth as nat, o.max_attribute_count as nat);
            }
        }
        Self::add(doc, kind)
    }

    /// Parses the attributes of a start tag, up to `>`, `/>` or the end.
    fn parse_attributes(&mut self) -> (r: Result<Vec<Attribute>, XmlError>)
        requires
            old(self).wf(),
        ensures
            final(self).moved_on(old(self)),
            final(self).entity_mapper == old(self).entity_mapper,
            final(self).element_count == old(self).element_count,
            r matches Err(e) ==> e is SyntaxError || e is SecurityLimitExceeded || e is EntityError,
            r matches Ok(a) ==> distinct_names(attrs_view(a@)) && a@.len() <= old(self).options.max_attribute_count,
            match attributes_at(old(self).source@, Seq::empty(), old(self).options, old(self).entity_mapper@) {
                Some((acc, s)) => r matches Ok(a) && attrs_view(a@) == acc && final(self).source@ == s,
                None => r is Err,
            },
    {
        let ghost o = self.options;
        let ghost em = self.entity_mapper@;
        let ghost s_attrs = self.source@;
        let mut attributes: Vec<Attribute> = Vec::new();
        let gt: [char; 1] = ['>'];
        let slash_gt: [char; 2] = ['/', '>'];
        assert(gt@ =~= seq!['>']);
        assert(slash_gt@ =~= seq!['/', '>']);
        assert(attrs_view(attributes@) =~= Seq::<AttrV>::empty());
        loop
            invariant_except_break
                attributes_at(s_attrs, Seq::empty(), o, em) == attributes_at(self.source@, attrs_view(attributes@), o, em),
            invariant
                self.wf(),
                self.moved_on(old(self)),
                self.entity_mapper == old(self).entity_mapper,
                self.entity_mapper@ == em,
                self.options == o,
                distinct_names(attrs_view(attributes@)),
                attributes@.len() <= o.max_attribute_count,
                gt@ == seq!['>'],
                slash_gt@ == seq!['/', '>'],
                self.element_count == old(self).element_count,
                s_attrs == old(self).source@,
                em == old(self).entity_mapper@,
                o == old(self).options,
            ensures
                attributes_at(s_attrs, Seq::empty(), o, em) == Some((attrs_view(attributes@), self.source@)),
            decreases self.source@.text.len() - self.source@.idx,
        {
            proof {
                self.source.lemma_wf();
            }
            if self.source.is_eof() || self.source.starts_with_chars(&gt) || self.source.starts_with_chars(&slash_gt) {
                break;
            }
            let ghost s_a = self.source@;
            let ghost acc = attrs_view(attributes@);
            let (an, av) = match self.parse_attribute() {
                Ok(kv) => kv,
                Err(e) => {
                    return Err(e);
                },
            };
            if has_attribute_named(&attributes, an.as_str()) {
                proof {
                    let j = choose|j: int| 0 <= j < attributes@.len() && #[trigger] attributes@[j].name@ == an@;
                    assert(acc[j].name == an@);
                }
                return Err(self.syntax_error("Duplicate attribute on element"));
            }
            proof {
                assert forall|j: int| 0 <= j < acc.len() implies #[trigger] acc[j].name != an@ by {
                    assert(acc[j] == attributes@[j]@);
                }
            }
            let ghost before = attributes@;
            attributes.push(Attribute { name: an, value: av });
            proof {
                assert(attrs_view(attributes@) =~= attrs_view(before).push(attributes@.last()@));
                let v = attrs_view(attributes@);
                assert forall|a: int, b: int| 0 <= a < b < v.len() implies #[trigger] v[a].name != #[trigger] v[b].name by {
                    if b == v.len() - 1 {
                        assert(v[a] == before[a]@);
                    } else {
                        assert(v[a] == attrs_view(before)[a]);
                        assert(v[b] == attrs_view(before)[b]);
                    }
                }
            }
            if attributes.len() > self.options.max_attribute_count {
                return Err(XmlError::SecurityLimitExceeded("Attribute count per element limit exceeded".to_string()));
            }
            self.source.skip_whitespace();
            proof {
                self.source.lemma_wf();
                assert(left(self.source@) < left(s_a));
                assert(attrs_view(attributes@) == acc.push(AttrV { name: an@, value: av@ }));
            }
        }
        Ok(attributes)
    }

    /// Parses an element with its attributes and content (the source must
    /// begin with `<` for success) and links it under `parent_id`; `depth` is
    /// the number of elements above it.
    #[verifier::rlimit(100)]
    #[verifier::spinoff_prover]
    fn parse_element(&mut self, doc: &mut Document, parent_id: NodeId, depth: usize) -> (r: Result<(), XmlError>)
        requires
            old(self).wf(),
            doc_ready(old(doc)@, old(self).options),
            parent_id < old(doc)@.len(),
            depth == (if old(doc)@.is_element(parent_id as int) { 1nat } else { 0nat }) + old(doc)@.element_depth(
                parent_id as int,
            ),
        ensures
            final(self).moved_on(old(self)),
            final(self).entity_mapper == old(self).entity_mapper,
            r is Ok ==> element_added(old(doc)@, final(doc)@, parent_id, old(self).options),
            r is Ok ==> final(self).source@.idx > old(self).source@.idx,
            r matches Err(e) ==> e is SyntaxError || e is SecurityLimitExceeded || e is EntityError,
            match element_at(
                old(self).source@,
                old(doc)@,
                parent_id,
                depth as nat,
                old(self).element_count as nat,
                old(self).options,
                old(self).entity_mapper@,
            ) {
                Some((s, d, c)) => r is Ok && final(self).source@ == s && final(doc)@ == d
                    && final(self).element_count == c,
                None => r is Err,
            },
        decreases old(self).options.max_nesting_depth + 1 - depth, 1int,
    {
        let ghost o = self.options;
        let ghost d0 = doc@;
        let ghost src0 = self.source@;
        let ghost em = self.entity_mapper@;
        let ghost c0 = self.element_count as nat;
        if depth > self.options.max_nesting_depth {
            return Err(XmlError::SecurityLimitExceeded("Element nesting depth limit exceeded".to_string()));
        }
        if self.element_count >= self.options.max_element_count {
            return Err(XmlError::SecurityLimitExceeded("Maximum element count limit exceeded".to_string()));
        }
        self.element_count = self.element_count + 1;
        proof {
            self.source.lemma_wf();
        }
        let lt: [char; 1] = ['<'];
        assert(lt@ =~= seq!['<']);
        if !self.source.consume_chars(&lt) {
            return Err(self.syntax_error("Expected '<' at start of element"));
        }
        let name = self.parse_name();
        if name.as_str().is_empty() {
            return Err(self.syntax_error("Empty element tag name"));
        }
        let name_chars = str_chars(name.as_str());
        self.source.skip_whitespace();
        let ghost s_attrs = self.source@;
        let gt: [char; 1] = ['>'];
        let slash_gt: [char; 2] = ['/', '>'];
        assert(gt@ =~= seq!['>']);
        assert(slash_gt@ =~= seq!['/', '>']);
        let ghost name_v = name@;
        assert(element_at(src0, d0, parent_id, depth as nat, c0, o, em) == element_from(
            src0,
            name_v,
            attributes_at(s_attrs, Seq::empty(), o, em),
            d0,
            parent_id,
            depth as nat,
            c0,
            o,
            em,
        ));
        let attributes = match self.parse_attributes() {
            Ok(a) => a,
            Err(e) => {
                return Err(e);
            },
        };
        proof {
            self.source.lemma_wf();
        }
        let ghost s_after = self.source@;
        let ghost attrs_v = attrs_view(attributes@);
        let ghost kind_v = KindV::Element { name: name@, attributes: attrs_v };
        let elem_id = match Self::add_element(doc, NodeKind::Element { name, attributes }, Ghost(o)) {
            Ok(id) => id,
            Err(e) => {
                return Err(e);
            },
        };
        proof {
            lemma_depth_le(d0, parent_id as int);
        }
        Self::attach(doc, parent_id, elem_id, Ghost(o));
        let ghost d1 = doc@;
        assert(d1 == add_child(d0, parent_id, kind_v));
        assert(d1.nodes[parent_id as int] == with_children(d0.nodes[parent_id as int], d0.nodes[parent_id as int].children.push(elem_id)));
        assert(forall|i: int| 0 <= i < d0.len() ==> #[trigger] d1.element_depth(i) == d0.element_depth(i));
        if self.source.consume_chars(&slash_gt) {
            return Ok(());
        }
        if !self.source.consume_chars(&gt) {
            return Err(self.syntax_error("Expected '>' or '/>' for element"));
        }
        proof {
            self.source.lemma_wf();
            assert(left(self.source@) < left(src0));
        }
        self.parse_content(doc, elem_id, &name_chars, parent_id, depth, Ghost(d1))?;
        proof {
            assert forall|i: int| 0 <= i < d0.len() implies #[trigger] doc@.element_depth(i) == d0.element_depth(i) by {
                crate::tree::lemma_depth_frame(d1, doc@, i);
            }
        }
        Ok(())
    }

    /// Parses the content of the element `elem_id` (named `name`, under
    /// `parent_id`, with `depth` elements above it) through its end tag.
    fn parse_content(
        &mut self,
        doc: &mut Document,
        elem_id: NodeId,
        name: &Vec<char>,
        parent_id: NodeId,
        depth: usize,
        Ghost(d1): Ghost<DocV>,
    ) -> (r: Result<(), XmlError>)
        requires
            old(self).wf(),
            old(doc)@ == d1,
            doc_ready(d1, old(self).options),
            depth <= old(self).options.max_nesting_depth,
            parent_id < elem_id,
            d1.nodes.len() == elem_id + 1,
            d1.is_element(elem_id as int),
            d1.nodes[elem_id as int].parent == Some(parent_id),
            d1.element_depth(elem_id as int) == depth,
        ensures
            final(self).moved_on(old(self)),
            final(self).entity_mapper == old(self).entity_mapper,
            r matches Err(e) ==> e is SyntaxError || e is SecurityLimitExceeded || e is EntityError,
            r is Ok ==> doc_ready(final(doc)@, old(self).options),
            r is Ok ==> final(doc)@.len() > elem_id,
            r is Ok ==> forall|i: int| 0 <= i < elem_id ==> #[trigger] final(doc)@.nodes[i] == d1.nodes[i],
            r is Ok ==> final(doc)@.is_element(elem_id as int),
            r is Ok ==> forall|k: int| 0 <= k <= elem_id ==> #[trigger] final(doc)@.nodes[k].parent == d1.nodes[k].parent
                && final(doc)@.nodes[k].kind == d1.nodes[k].kind,
            match content_at(
                old(self).source@,
                d1,
                elem_id,
                name@,
                depth as nat,
                old(self).element_count as nat,
                old(self).options,
                old(self).entity_mapper@,
            ) {
                Some((s, d, c)) => r is Ok && final(self).source@ == s && final(doc)@ == d
                    && final(self).element_count == c,
                None => r is Err,
            },
        decreases old(self).options.max_nesting_depth + 1 - depth, 0int,
    {
        let ghost o = self.options;
        let ghost em = self.entity_mapper@;
        let ghost src0 = self.source@;
        let ghost c0 = self.element_count as nat;
        let ghost target = content_at(src0, d1, elem_id, name@, depth as nat, c0, o, em);
        let lt: [char; 1] = ['<'];
        let gt: [char; 1] = ['>'];
        let close_open: [char; 2] = ['<', '/'];
        let cdata_open: [char; 9] = ['<', '!', '[', 'C', 'D', 'A', 'T', 'A', '['];
        let comment_open: [char; 4] = ['<', '!', '-', '-'];
        let pi_open: [char; 2] = ['<', '?'];
        assert(lt@ =~= seq!['<']);
        assert(gt@ =~= seq!['>']);
        assert(close_open@ =~= seq!['<', '/']);
        assert(cdata_open@ =~= seq!['<', '!', '[', 'C', 'D', 'A', 'T', 'A', '[']);
        assert(comment_open@ =~= seq!['<', '!', '-', '-']);
        assert(pi_open@ =~= seq!['<', '?']);
        loop
            invariant
                self.wf(),
                self.moved_on(old(self)),
                self.entity_mapper == old(self).entity_mapper,
                self.entity_mapper@ == em,
                self.options == o,
                o == old(self).options,
                src0 == old(self).source@,
                c0 == old(self).element_count as nat,
                em == old(self).entity_mapper@,
                depth <= o.max_nesting_depth,
                doc_ready(doc@, o),
                doc@.len() > elem_id,
                forall|i: int| 0 <= i < elem_id ==> #[trigger] doc@.nodes[i] == d1.nodes[i],
                doc@.is_element(elem_id as int),
                doc@.nodes[elem_id as int].parent == Some(parent_id),
                d1.element_depth(elem_id as int) == depth,
                d1.nodes.len() == elem_id + 1,
                parent_id < elem_id,
                forall|k: int| 0 <= k <= elem_id ==> #[trigger] doc@.nodes[k].parent == d1.nodes[k].parent
                    && doc@.nodes[k].kind == d1.nodes[k].kind,
                content_at(self.source@, doc@, elem_id, name@, depth as nat, self.element_count as nat, o, em)
                    == target,
                target == content_at(src0, d1, elem_id, name@, depth as nat, c0, o, em),
                lt@ == seq!['<'],
                gt@ == seq!['>'],
                close_open@ == seq!['<', '/'],
                cdata_open@ == seq!['<', '!', '[', 'C', 'D', 'A', 'T', 'A', '['],
                comment_open@ == seq!['<', '!', '-', '-'],
                pi_open@ == seq!['<', '?'],
            decreases self.source@.text.len() - self.source@.idx,
        {
            proof {
                self.source.lemma_wf();
            }
            let ghost s = self.source@;
            let ghost d = doc@;
            if self.source.is_eof() {
                return Err(self.syntax_error("Unclosed element"));
            }
            if self.source.consume_chars(&close_open) {
                let end_name = self.parse_name();
                self.source.skip_whitespace();
                let end_chars = str_chars(end_name.as_str());
                if !crate::text::chars_eq(&end_chars, name) {
                    return Err(self.syntax_error("Mismatched closing tag"));
                }
                if !self.source.consume_chars(&gt) {
                    return Err(self.syntax_error("Expected '>' after closing tag"));
                }
                return Ok(());
            } else if self.source.starts_with_chars(&cdata_open) {
                proof {
                    lemma_find_seq_from(s.rest().skip(9), seq![']', ']', '>'], 0);
                }
                let id = self.parse_cdata(doc)?;
                Self::attach(doc, elem_id, id, Ghost(o));
            } else if self.source.starts_with_chars(&comment_open) {
                proof {
                    lemma_find_seq_from(s.rest().skip(4), seq!['-', '-', '>'], 0);
                }
                let id = self.parse_comment(doc)?;
                Self::attach(doc, elem_id, id, Ghost(o));
            } else if self.source.starts_with_chars(&pi_open) {
                let id = self.parse_pi(doc)?;
                Self::attach(doc, elem_id, id, Ghost(o));
            } else if self.source.starts_with_chars(&lt) {
                proof {
                    lemma_depth_le(doc@, elem_id as int);
                    crate::tree::lemma_depth_frame(d1, doc@, elem_id as int);
                }
                self.parse_element(doc, elem_id, depth + 1)?;
            } else {
                proof {
                    let rest = self.source@.rest();
                    assert(rest.len() > 0);
                    if rest[0] == '<' {
                        assert(rest.take(1) =~= lt@);
                    }
                    crate::seqs::lemma_find_from(rest, '<', 0);
                }
                let text_id = self.parse_text(doc)?;
                let nonempty = match doc.get_node(text_id) {
                    Some(n) => match &n.kind {
                        NodeKind::Text(t) => !t.as_str().is_empty(),
                        _ => false,
                    },
                    None => false,
                };
                if nonempty {
                    Self::attach(doc, elem_id, text_id, Ghost(o));
                }
            }
            proof {
                self.source.lemma_wf();
            }
        }
    }

    /// Parses the whole source into a document: an optional XML declaration,
    /// the prolog, and one root element, followed only by white space,
    /// comments and processing instructions. A text longer than the size
    /// limit is refused before anything is read.
    pub fn parse(&mut self) -> (r: Result<Document, XmlError>)
        requires
            old(self).wf(),
        ensures
            final(self).wf(),
            final(self).options() == old(self).options(),
            r matches Ok(doc) ==> doc.wf() && parsed_document(doc@, old(self).options()),
            r matches Err(e) ==> e is SyntaxError || e is SecurityLimitExceeded || e is EntityError,
            byte_len(old(self).source_view().text) > old(self).options().max_xml_size ==> (r matches Err(e)
                && e is SecurityLimitExceeded),
            byte_len(old(self).source_view().text) <= old(self).options().max_xml_size ==> match root_read(
                old(self).source_view(),
                old(self).options(),
                old(self).mapper(),
                old(self).count(),
            ) {
                Some((s, d)) => (!tail_ok(s) ==> (r matches Err(e) && e is SyntaxError)) && (tail_ok(s)
                    && breaks_document_limits(d, old(self).options()) ==> (r matches Err(e) && e is SecurityLimitExceeded)),
                None => true,
            },
            match document_at(old(self).source_view(), old(self).options(), old(self).mapper(), old(self).count()) {
                Some(d) => r matches Ok(doc) && doc@ == d,
                None => r is Err,
            },
    {
        let ghost o = self.options;
        let ghost s0 = self.source@;
        let ghost em = self.entity_mapper@;
        let ghost c0 = self.element_count as nat;
        let mut doc = Document::new();
        assert(doc@ =~= fresh_doc());
        proof {
            assert(doc@.parsed_shape(o.max_nesting_depth as nat, o.max_attribute_count as nat)) by {
                assert forall|i: int| 0 <= i < doc@.nodes.len() && #[trigger] doc@.is_element(i) implies doc@.element_depth(i)
                    <= o.max_nesting_depth by {}
            }
        }
        if self.source.len() > self.options.max_xml_size {
            return Err(XmlError::SecurityLimitExceeded("XML document size limit exceeded".to_string()));
        }
        self.source.skip_whitespace();
        let decl_open: [char; 5] = ['<', '?', 'x', 'm', 'l'];
        assert(decl_open@ =~= seq!['<', '?', 'x', 'm', 'l']);
        if self.source.starts_with_chars(&decl_open) && Self::ends_target(self.source.peek_offset(5)) {
            self.parse_declaration(&mut doc)?;
        }
        assert(document_start(s0, em) == Some((self.source@, doc@)));
        self.parse_prolog(&mut doc)?;
        let root_container_id = match doc.root_id() {
            Some(id) => id,
            None => 0,
        };
        assert(doc@.nodes[1].children.len() == 0);
        assert(!doc@.is_element(1));
        assert(doc@.element_depth(1) == 0);
        self.parse_element(&mut doc, root_container_id, 0)?;
        self.skip_tail()?;
        if breaks_limits(&doc, &self.options) {
            return Err(XmlError::SecurityLimitExceeded("Document attribute or text size limit exceeded".to_string()));
        }
        Ok(doc)
    }

    /// Whether a character after `<?xml` ends the target name there.
    fn ends_target(c: Option<char>) -> (r: bool)
        ensures
            r == (c matches Some(x) && (x == ' ' || x == '\t' || x == '\n' || x == '\r' || x == '?')),
    {
        match c {
            Some(x) => x == ' ' || x == '\t' || x == '\n' || x == '\r' || x == '?',
            None => false,
        }
    }

    /// Reads a processing instruction without keeping it; the source must
    /// begin with `<?`.
    fn skip_pi(&mut self) -> (r: bool)
        requires
            old(self).wf(),
            old(self).source@.starts_with(seq!['<', '?']),
        ensures
            final(self).moved_on(old(self)),
            final(self).element_count == old(self).element_count,
            final(self).entity_mapper == old(self).entity_mapper,
            match pi_at(old(self).source@) {
                Some((_, _, s)) => r && final(self).source@ == s,
                None => !r,
            },
    {
        let open: [char; 2] = ['<', '?'];
        assert(open@ =~= seq!['<', '?']);
        self.source.consume_chars(&open);
        let _target = self.parse_name();
        self.source.skip_whitespace();
        let close: [char; 2] = ['?', '>'];
        match self.scan_until(&close) {
            Some(_) => true,
            None => false,
        }
    }

    /// Reads what follows the root element: white space, comments and
    /// processing instructions up to the end of the text; anything else is
    /// a syntax error.
    fn skip_tail(&mut self) -> (r: Result<(), XmlError>)
        requires
            old(self).wf(),
        ensures
            final(self).moved_on(old(self)),
            final(self).element_count == old(self).element_count,
            final(self).entity_mapper == old(self).entity_mapper,
            r is Ok <==> tail_ok(old(self).source@),
            r matches Err(e) ==> e is SyntaxError,
    {
        let ghost target = tail_ok(self.source@);
        loop
            invariant_except_break
                tail_ok(self.source@) == target,
            invariant
                self.wf(),
                self.moved_on(old(self)),
                self.element_count == old(self).element_count,
                self.entity_mapper == old(self).entity_mapper,
                target == tail_ok(old(self).source@),
            ensures
                target,
            decreases self.source@.text.len() - self.source@.idx,
        {
            proof {
                self.source.lemma_wf();
            }
            let ghost s_top = self.source@;
            self.source.skip_whitespace();
            proof {
                self.source.lemma_wf();
                lemma_find_seq_from(self.source@.rest().skip(4), seq!['-', '-', '>'], 0);
            }
            if self.source.is_eof() {
                break;
            }
            let comment_open: [char; 4] = ['<', '!', '-', '-'];
            let comment_close: [char; 3] = ['-', '-', '>'];
            let pi_open: [char; 2] = ['<', '?'];
            assert(comment_open@ =~= seq!['<', '!', '-', '-']);
            assert(comment_close@ =~= seq!['-', '-', '>']);
            assert(pi_open@ =~= seq!['<', '?']);
            if self.source.starts_with_chars(&comment_open) {
                if self.parse_section(&comment_open, &comment_close).is_none() {
                    return Err(self.syntax_error("Unterminated XML comment"));
                }
            } else if self.source.starts_with_chars(&pi_open) {
                if !self.skip_pi() {
                    return Err(self.syntax_error("Unterminated processing instruction"));
                }
            } else {
                return Err(self.syntax_error("Unexpected content after the root element"));
            }
            proof {
                self.source.lemma_wf();
            }
        }
        Ok(())
    }
}

/// Whether a document breaks the limits on the whole (see
/// `breaks_document_limits`).
fn breaks_limits(doc: &Document, options: &ParseOptions) -> (r: bool)
    requires
        doc.wf(),
    ensures
        r == breaks_document_limits(doc@, *options),
{
    let mut total: usize = 0;
    let mut over = false;
    let mut long = false;
    let mut i: usize = 0;
    let n = doc.len();
    while i < n
        invariant
            n == doc@.nodes.len(),
            n <= u32::MAX,
            i <= n,
            over == (attribute_total(doc@.nodes, i as int) > options.max_total_attribute_count),
            !over ==> total == attribute_total(doc@.nodes, i as int),
            long == long_text(doc@.nodes, i as int, options.max_text_node_size as nat),
        decreases n - i,
    {
        assert(i < u32::MAX);
        let node = doc.get_node(i as NodeId).unwrap();
        match &node.kind {
            NodeKind::Element { attributes, .. } => {
                let k = attributes.len();
                if !over {
                    if k > options.max_total_attribute_count - total {
                        over = true;
                    } else {
                        total = total + k;
                    }
                }
            },
            NodeKind::Text(t) => {
                if !long {
                    long = crate::io::source::utf8_longer(t.as_str(), options.max_text_node_size);
                }
            },
            _ => {},
        }
        i = i + 1;
    }
    over || long
}

/// What a successful `parse_element` leaves: the document ready, every old
/// node as it was except that `parent` gained the new element (the first node
/// added) as its last child, and old nodes at their old depth.
pub open spec fn element_added(d0: DocV, d1: DocV, parent: NodeId, o: ParseOptions) -> bool {
    &&& doc_ready(d1, o)
    &&& d1.nodes.len() > d0.nodes.len()
    &&& forall|i: int| 0 <= i < d0.nodes.len() && i != parent ==> #[trigger] d1.nodes[i] == d0.nodes[i]
    &&& d1.nodes[parent as int] == with_children(
        d0.nodes[parent as int],
        d0.nodes[parent as int].children.push(d0.nodes.len() as NodeId),
    )
    &&& d1.is_element(d0.nodes.len() as int)
    &&& forall|i: int| 0 <= i < d0.nodes.len() ==> #[trigger] d1.element_depth(i) == d0.element_depth(i)
}

/// A parsed document: ready, with exactly one child of the root container,
/// and that child an element.
pub open spec fn parsed_document(d: DocV, o: ParseOptions) -> bool {
    &&& doc_ready(d, o)
    &&& d.nodes[1].children.len() == 1
    &&& d.is_element(d.nodes[1].children[0] as int)
}

/// Whether some attribute in the list has the given name.
fn has_attribute_named(attrs: &Vec<Attribute>, name: &str) -> (r: bool)
    ensures
        r == exists|j: int| 0 <= j < attrs@.len() && #[trigger] attrs@[j].name@ == name@,
{
    let mut j: usize = 0;
    while j < attrs.len()
        invariant
            j <= attrs@.len(),
            forall|q: int| 0 <= q < j ==> #[trigger] attrs@[q].name@ != name@,
        decreases attrs@.len() - j,
    {
        if crate::text::str_eq(attrs[j].name.as_str(), name) {
            return true;
        }
        j = j + 1;
    }
    false
}

/// The document facts the parser keeps: the tree shape within the limits,
/// the prolog container at 0 and the root container at 1, and the recorded
/// declaration and DOCTYPE ids pointing at nodes of those kinds.
pub open spec fn doc_ready(d: DocV, o: ParseOptions) -> bool {
    &&& d.parsed_shape(o.max_nesting_depth as nat, o.max_attribute_count as nat)
    &&& d.nodes.len() >= 2
    &&& d.prolog_id == Some(0u32)
    &&& d.root_id == Some(1u32)
    &&& d.nodes[0].kind is Prolog
    &&& d.nodes[1].kind is Root
    &&& (d.declaration_id matches Some(x) ==> x < d.nodes.len() && d.nodes[x as int].kind is Declaration)
    &&& (d.dtd_id matches Some(x) ==> x < d.nodes.len() && d.nodes[x as int].kind is DocTypeDefinition)
}

/// The source after the white space at its current position.
pub open spec fn after_space(s: SourceV) -> SourceV {
    s.advanced(leading_space(s.rest()))
}

/// The attribute `name = "value"` (either quote) at the current position:
/// its name, its value with references expanded, and the source after it;
/// none when it is malformed or its value does not expand.
pub open spec fn attribute_at(s: SourceV, em: MapperV) -> Option<(Seq<char>, Seq<char>, SourceV)> {
    let n = name_len(s.rest());
    let name = s.rest().take(n as int);
    let s1 = after_space(s.advanced(n));
    if !s1.starts_with(seq!['=']) {
        None
    } else {
        let s2 = after_space(s1.advanced(1));
        if s2.eof() {
            None
        } else {
            let q = s2.text[s2.idx as int];
            if q != '"' && q != '\'' {
                None
            } else {
                let s3 = s2.advanced(1);
                let k = match find_first(s3.rest(), q) {
                    Some(k) => k,
                    None => s3.rest().len() as int,
                };
                let s4 = s3.advanced(k as nat);
                if s4.eof() {
                    None
                } else {
                    match expand_spec(em, s3.rest().take(k)) {
                        Ok(v) => Some((name, v, s4.advanced(1))),
                        Err(_) => None,
                    }
                }
            }
        }
    }
}

/// The processing instruction `<?target data?>` at the current position
/// (which begins with `<?`): its target, its data, and the source after it;
/// none when `?>` never follows.
pub open spec fn pi_at(s: SourceV) -> Option<(Seq<char>, Seq<char>, SourceV)> {
    let s1 = s.advanced(2);
    let n = name_len(s1.rest());
    let s2 = after_space(s1.advanced(n));
    match find_seq(s2.rest(), seq!['?', '>']) {
        Some(k) => Some((s1.rest().take(n as int), s2.rest().take(k), s2.advanced((k + 2) as nat))),
        None => None,
    }
}

/// How many characters of the text are left to read.
pub open spec fn left(s: SourceV) -> nat {
    if s.idx <= s.text.len() {
        (s.text.len() - s.idx) as nat
    } else {
        0
    }
}

/// The arena with one more node, of kind `k`, linked as the last child of
/// `parent`.
pub open spec fn add_child(d: DocV, parent: NodeId, k: KindV) -> DocV {
    let id = d.nodes.len() as NodeId;
    let d1 = d.with_nodes(d.nodes.push(fresh_node(id, k)));
    d1.with_nodes(link_child(d1.nodes, parent as int, id as int))
}

/// The attributes from the current position up to `>`, `/>` or the end,
/// added to `acc`, and the source after them; none when one is malformed,
/// repeats a name, or passes the limit on attributes.
pub open spec fn attributes_at(s: SourceV, acc: Seq<AttrV>, o: ParseOptions, em: MapperV) -> Option<
    (Seq<AttrV>, SourceV),
>
    decreases left(s),
{
    if s.eof() || s.starts_with(seq!['>']) || s.starts_with(seq!['/', '>']) {
        Some((acc, s))
    } else {
        match attribute_at(s, em) {
            None => None,
            Some((k, v, s1)) => if exists|j: int| 0 <= j < acc.len() && #[trigger] acc[j].name == k {
                None
            } else if acc.len() + 1 > o.max_attribute_count {
                None
            } else {
                let s2 = after_space(s1);
                if left(s2) < left(s) {
                    attributes_at(s2, acc.push(AttrV { name: k, value: v }), o, em)
                } else {
                    None
                }
            },
        }
    }
}

/// The element at the current position, added to the arena `d` under
/// `parent` with its content; `depth` elements are above it and `count`
/// elements were read before it. The result is the source after it, the
/// arena and the count of elements read; none when the input is not a
/// well-formed element within the limits.
pub open spec fn element_at(
    s: SourceV,
    d: DocV,
    parent: NodeId,
    depth: nat,
    count: nat,
    o: ParseOptions,
    em: MapperV,
) -> Option<(SourceV, DocV, nat)>
    decreases left(s), 2int,
{
    if depth > o.max_nesting_depth || count >= o.max_element_count || !s.starts_with(seq!['<']) {
        None
    } else {
        let s1 = s.advanced(1);
        let n = name_len(s1.rest());
        if n == 0 {
            None
        } else {
            let name = s1.rest().take(n as int);
            element_from(
                s,
                name,
                attributes_at(after_space(s1.advanced(n)), Seq::empty(), o, em),
                d,
                parent,
                depth,
                count,
                o,
                em,
            )
        }
    }
}

/// The rest of the element that began at `s` with the tag name `name`,
/// once its attributes `got` have been read: the element is added and its
/// content read, unless the tag closes with `/>`.
pub open spec fn element_from(
    s: SourceV,
    name: Seq<char>,
    got: Option<(Seq<AttrV>, SourceV)>,
    d: DocV,
    parent: NodeId,
    depth: nat,
    count: nat,
    o: ParseOptions,
    em: MapperV,
) -> Option<(SourceV, DocV, nat)>
    decreases left(s), 1int,
{
    match got {
        None => None,
        Some((attrs, s2)) => if d.nodes.len() >= u32::MAX {
            None
        } else {
            let id = d.nodes.len() as NodeId;
            let d2 = add_child(d, parent, KindV::Element { name, attributes: attrs });
            if s2.starts_with(seq!['/', '>']) {
                Some((s2.advanced(2), d2, count + 1))
            } else if !s2.starts_with(seq!['>']) {
                None
            } else if left(s2.advanced(1)) < left(s) {
                content_at(s2.advanced(1), d2, id, name, depth, count + 1, o, em)
            } else {
                None
            }
        },
    }
}

/// The content of the element `elem` named `name` from the current
/// position through its end tag, added to the arena; the result is as for
/// `element_at`.
pub open spec fn content_at(
    s: SourceV,
    d: DocV,
    elem: NodeId,
    name: Seq<char>,
    depth: nat,
    count: nat,
    o: ParseOptions,
    em: MapperV,
) -> Option<(SourceV, DocV, nat)>
    decreases left(s), 3int,
{
    if s.eof() {
        None
    } else if s.starts_with(seq!['<', '/']) {
        let s1 = s.advanced(2);
        let n = name_len(s1.rest());
        let s2 = after_space(s1.advanced(n));
        if s1.rest().take(n as int) != name || !s2.starts_with(seq!['>']) {
            None
        } else {
            Some((s2.advanced(1), d, count))
        }
    } else if s.starts_with(seq!['<', '!', '[', 'C', 'D', 'A', 'T', 'A', '[']) {
        let body = s.rest().skip(9);
        match find_seq(body, seq![']', ']', '>']) {
            None => None,
            Some(k) => if d.nodes.len() >= u32::MAX || k < 0 {
                None
            } else {
                content_at(
                    s.advanced((k + 12) as nat),
                    add_child(d, elem, KindV::CData(body.take(k))),
                    elem,
                    name,
                    depth,
                    count,
                    o,
                    em,
                )
            },
        }
    } else if s.starts_with(seq!['<', '!', '-', '-']) {
        let body = s.rest().skip(4);
        match find_seq(body, seq!['-', '-', '>']) {
            None => None,
            Some(k) => if d.nodes.len() >= u32::MAX || k < 0 {
                None
            } else {
                content_at(
                    s.advanced((k + 7) as nat),
                    add_child(d, elem, KindV::Comment(body.take(k))),
                    elem,
                    name,
                    depth,
                    count,
                    o,
                    em,
                )
            },
        }
    } else if s.starts_with(seq!['<', '?']) {
        match pi_at(s) {
            None => None,
            Some((t, data, s1)) => if d.nodes.len() >= u32::MAX || left(s1) >= left(s) {
                None
            } else {
                content_at(
                    s1,
                    add_child(d, elem, KindV::ProcessingInstruction { target: t, data }),
                    elem,
                    name,
                    depth,
                    count,
                    o,
                    em,
                )
            },
        }
    } else if s.starts_with(seq!['<']) {
        match element_at(s, d, elem, depth + 1, count, o, em) {
            None => None,
            Some((s1, d1, c1)) => if left(s1) < left(s) {
                content_at(s1, d1, elem, name, depth, c1, o, em)
            } else {
                None
            },
        }
    } else {
        let rest = s.rest();
        let k = match find_first(rest, '<') {
            Some(k) => k,
            None => rest.len() as int,
        };
        match expand_spec(em, rest.take(k)) {
            Err(_) => None,
            Ok(t) => if d.nodes.len() >= u32::MAX || k <= 0 {
                None
            } else {
                let id = d.nodes.len() as NodeId;
                let d1 = d.with_nodes(d.nodes.push(fresh_node(id, KindV::Text(t))));
                let d2 = if t.len() > 0 {
                    d1.with_nodes(link_child(d1.nodes, elem as int, id as int))
                } else {
                    d1
                };
                content_at(s.advanced(k as nat), d2, elem, name, depth, count, o, em)
            },
        }
    }
}

/// The quoted literal at the current position (either quote): its text and
/// the source after its closing quote; none when it is not closed.
pub open spec fn quoted_at(s: SourceV) -> Option<(Seq<char>, SourceV)> {
    let rest = s.rest();
    if rest.len() == 0 {
        None
    } else {
        match find_first(rest.skip(1), rest[0]) {
            Some(k) => Some((rest.skip(1).take(k), s.advanced((k + 2) as nat))),
            None => None,
        }
    }
}

/// The external identifiers at the current position: `PUBLIC "p" "s"`,
/// `SYSTEM "s"`, or none; and the source after them.
pub open spec fn external_ids_at(s: SourceV) -> Option<(Option<Seq<char>>, Option<Seq<char>>, SourceV)> {
    if s.starts_with(seq!['P', 'U', 'B', 'L', 'I', 'C']) {
        match quoted_at(after_space(s.advanced(6))) {
            None => None,
            Some((p, s1)) => match quoted_at(after_space(s1)) {
                None => None,
                Some((sy, s2)) => Some((Some(p), Some(sy), s2)),
            },
        }
    } else if s.starts_with(seq!['S', 'Y', 'S', 'T', 'E', 'M']) {
        match quoted_at(after_space(s.advanced(6))) {
            None => None,
            Some((sy, s1)) => Some((None, Some(sy), s1)),
        }
    } else {
        Some((None, None, s))
    }
}

/// The internal subset `[...]` at the current position, if any (it runs to
/// the first `]`, or to the end), and the source after it.
pub open spec fn subset_at(s: SourceV) -> (Option<Seq<char>>, SourceV) {
    if s.starts_with(seq!['[']) {
        let s1 = s.advanced(1);
        let rest = s1.rest();
        let k = match find_first(rest, ']') {
            Some(k) => k,
            None => rest.len() as int,
        };
        let s2 = s1.advanced(k as nat);
        (Some(rest.take(k)), if s2.starts_with(seq![']']) {
            s2.advanced(1)
        } else {
            s2
        })
    } else {
        (None, s)
    }
}

/// The document type declaration at the current position (which begins
/// with `<!DOCTYPE`): its node, and the source after it; none when it is
/// malformed.
pub open spec fn doctype_at(s: SourceV) -> Option<(KindV, SourceV)> {
    let s1 = after_space(s.advanced(9));
    let n = name_len(s1.rest());
    match external_ids_at(after_space(s1.advanced(n))) {
        None => None,
        Some((p, sy, s2)) => {
            let (sub, s3) = subset_at(after_space(s2));
            let s4 = after_space(s3);
            if !s4.starts_with(seq!['>']) {
                None
            } else {
                Some(
                    (
                        KindV::DocTypeDefinition {
                            name: s1.rest().take(n as int),
                            public_id: p,
                            system_id: sy,
                            internal_subset: sub,
                        },
                        s4.advanced(1),
                    ),
                )
            }
        },
    }
}

/// The entity declarations of a document type's internal subset (none
/// without one).
pub open spec fn subset_decls(k: KindV) -> Seq<(Seq<char>, Seq<char>)> {
    match k {
        KindV::DocTypeDefinition { internal_subset: Some(b), .. } => entity_decls(b),
        _ => Seq::empty(),
    }
}

/// The table after registering the declarations in order.
pub open spec fn registered_all(es: Seq<(Seq<char>, Seq<char>)>, decls: Seq<(Seq<char>, Seq<char>)>) -> Seq<
    (Seq<char>, Seq<char>),
>
    decreases decls.len(),
{
    if decls.len() == 0 {
        es
    } else {
        registered(registered_all(es, decls.drop_last()), decls.last().0, decls.last().1)
    }
}

/// An entity table with its entities replaced.
pub open spec fn with_entities(m: MapperV, es: Seq<(Seq<char>, Seq<char>)>) -> MapperV {
    MapperV { entities: es, max_depth: m.max_depth, max_size: m.max_size }
}

/// The pseudo-attributes of an XML declaration from the current position up
/// to `?>` or the end: the values of `version`, `encoding` and `standalone`
/// (`yes` or not), the last of each name winning, and the source after
/// them; none when one is malformed.
pub open spec fn decl_fields_at(
    s: SourceV,
    em: MapperV,
    version: Seq<char>,
    encoding: Option<Seq<char>>,
    standalone: Option<bool>,
) -> Option<(Seq<char>, Option<Seq<char>>, Option<bool>, SourceV)>
    decreases left(s),
{
    if s.eof() || s.starts_with(seq!['?', '>']) {
        Some((version, encoding, standalone, s))
    } else {
        match attribute_at(s, em) {
            None => None,
            Some((k, v, s1)) => {
                let s2 = after_space(s1);
                if left(s2) >= left(s) {
                    None
                } else if k == "version"@ {
                    decl_fields_at(s2, em, v, encoding, standalone)
                } else if k == "encoding"@ {
                    decl_fields_at(s2, em, version, Some(v), standalone)
                } else if k == "standalone"@ {
                    decl_fields_at(s2, em, version, encoding, Some(v == "yes"@))
                } else {
                    decl_fields_at(s2, em, version, encoding, standalone)
                }
            },
        }
    }
}

/// The XML declaration at the current position (which begins with
/// `<?xml`): its node (version `1.0` unless given), and the source after
/// it; none when it is malformed.
pub open spec fn declaration_at(s: SourceV, em: MapperV) -> Option<(KindV, SourceV)> {
    match decl_fields_at(after_space(s.advanced(5)), em, seq!['1', '.', '0'], None, None) {
        None => None,
        Some((v, e, st, s1)) => if s1.starts_with(seq!['?', '>']) {
            Some((KindV::Declaration { version: v, encoding: e, standalone: st }, s1.advanced(2)))
        } else {
            None
        },
    }
}

/// The comments, processing instructions and document type declaration
/// before the root element, from the current position on, added under the
/// prolog container (node 0); the result is the source at the first other
/// markup (after white space), the arena, and the entity table with the
/// declarations of the internal subset; none when one is malformed.
pub open spec fn prolog_at(s: SourceV, d: DocV, em: MapperV) -> Option<(SourceV, DocV, MapperV)>
    decreases left(s),
{
    let s1 = after_space(s);
    if s1.starts_with(seq!['<', '!', '-', '-']) {
        let body = s1.rest().skip(4);
        match find_seq(body, seq!['-', '-', '>']) {
            None => None,
            Some(k) => {
                let s2 = s1.advanced((k + 7) as nat);
                if d.nodes.len() >= u32::MAX || k < 0 || left(s2) >= left(s) {
                    None
                } else {
                    prolog_at(s2, add_child(d, 0, KindV::Comment(body.take(k))), em)
                }
            },
        }
    } else if s1.starts_with(seq!['<', '?']) {
        match pi_at(s1) {
            None => None,
            Some((t, data, s2)) => if d.nodes.len() >= u32::MAX || left(s2) >= left(s) {
                None
            } else {
                prolog_at(s2, add_child(d, 0, KindV::ProcessingInstruction { target: t, data }), em)
            },
        }
    } else if s1.starts_with(seq!['<', '!', 'D', 'O', 'C', 'T', 'Y', 'P', 'E']) {
        match doctype_at(s1) {
            None => None,
            Some((k, s2)) => if d.nodes.len() >= u32::MAX || left(s2) >= left(s) {
                None
            } else {
                prolog_at(
                    s2,
                    DocV { dtd_id: Some(d.nodes.len() as NodeId), ..add_child(d, 0, k) },
                    with_entities(em, registered_all(em.entities, subset_decls(k))),
                )
            },
        }
    } else {
        Some((s1, d, em))
    }
}

/// The entity table a parser starts with: the predefined entities, the
/// nesting limit of the options, and a size limit of 10 MiB.
pub open spec fn initial_mapper(o: ParseOptions) -> MapperV {
    MapperV {
        entities: crate::entity::mapper::predefined_table(),
        max_depth: o.max_entity_expansion_depth as nat,
        max_size: 10 * 1024 * 1024,
    }
}

/// A fresh arena: the prolog container (node 0) and the root container
/// (node 1).
pub open spec fn fresh_doc() -> DocV {
    DocV {
        nodes: seq![fresh_node(0, KindV::Prolog), fresh_node(1, KindV::Root)],
        root_id: Some(1u32),
        prolog_id: Some(0u32),
        declaration_id: None,
        dtd_id: None,
    }
}

/// Whether the source, at a `<?xml` that begins the document, opens an XML
/// declaration: the name `xml` ends there (white space or `?` follows), so
/// that a processing instruction such as `<?xml-stylesheet ...?>` is not
/// taken for one.
pub open spec fn declaration_opens(s: SourceV) -> bool {
    &&& s.starts_with(seq!['<', '?', 'x', 'm', 'l'])
    &&& s.rest().len() > 5
    &&& {
        let c = s.rest()[5];
        c == ' ' || c == '\t' || c == '\n' || c == '\r' || c == '?'
    }
}

/// The start of a document: white space and an optional XML declaration
/// (added under the prolog container); the source after them and the
/// arena.
pub open spec fn document_start(s: SourceV, em: MapperV) -> Option<(SourceV, DocV)> {
    let s1 = after_space(s);
    if declaration_opens(s1) {
        match declaration_at(s1, em) {
            None => None,
            Some((k, s2)) => Some((s2, DocV { declaration_id: Some(2u32), ..add_child(fresh_doc(), 0, k) })),
        }
    } else {
        Some((s1, fresh_doc()))
    }
}

/// Whether what follows the root element is only white space, comments and
/// processing instructions, each well formed, up to the end of the text.
pub open spec fn tail_ok(s: SourceV) -> bool
    decreases left(s),
{
    let s1 = after_space(s);
    if s1.eof() {
        true
    } else if s1.starts_with(seq!['<', '!', '-', '-']) {
        match find_seq(s1.rest().skip(4), seq!['-', '-', '>']) {
            None => false,
            Some(k) => {
                let s2 = s1.advanced((k + 7) as nat);
                if k < 0 || left(s2) >= left(s) {
                    false
                } else {
                    tail_ok(s2)
                }
            },
        }
    } else if s1.starts_with(seq!['<', '?']) {
        match pi_at(s1) {
            None => false,
            Some((_, _, s2)) => if left(s2) >= left(s) {
                false
            } else {
                tail_ok(s2)
            },
        }
    } else {
        false
    }
}

/// The number of attributes on the first `k` nodes of an arena.
pub open spec fn attribute_total(nodes: Seq<NodeV>, k: int) -> nat
    decreases k,
{
    if k <= 0 || k > nodes.len() {
        0
    } else {
        attribute_total(nodes, k - 1) + match nodes[k - 1].kind {
            KindV::Element { attributes, .. } => attributes.len(),
            _ => 0,
        }
    }
}

/// Whether some text node among the first `k` nodes holds more than `max`
/// bytes of UTF-8.
pub open spec fn long_text(nodes: Seq<NodeV>, k: int, max: nat) -> bool
    decreases k,
{
    if k <= 0 || k > nodes.len() {
        false
    } else {
        long_text(nodes, k - 1, max) || match nodes[k - 1].kind {
            KindV::Text(t) => byte_len(t) > max,
            _ => false,
        }
    }
}

/// Whether a document breaks the limits on the whole: more attributes in
/// all than allowed, or a text node longer than allowed.
pub open spec fn breaks_document_limits(d: DocV, o: ParseOptions) -> bool {
    ||| attribute_total(d.nodes, d.nodes.len() as int) > o.max_total_attribute_count
    ||| long_text(d.nodes, d.nodes.len() as int, o.max_text_node_size as nat)
}

/// The document that the text from the current position describes: an
/// optional XML declaration, the prolog, one root element under the root
/// container (node 1), and after it only white space, comments and
/// processing instructions (which are checked and not kept). None when any
/// part is malformed or a limit is passed: the size of the whole text in
/// UTF-8 bytes, the limits checked while reading, the total number of
/// attributes, or the size of a text node.
pub open spec fn document_at(s: SourceV, o: ParseOptions, em: MapperV, count: nat) -> Option<DocV> {
    if byte_len(s.text) > o.max_xml_size {
        None
    } else {
        match root_read(s, o, em, count) {
            None => None,
            Some((s4, d3)) => if tail_ok(s4) && !breaks_document_limits(d3, o) {
                Some(d3)
            } else {
                None
            },
        }
    }
}

/// The arena and the source position once the start, the prolog and the
/// root element of a document have been read; none when one of them is
/// malformed or passes a limit checked while reading.
pub open spec fn root_read(s: SourceV, o: ParseOptions, em: MapperV, count: nat) -> Option<(SourceV, DocV)> {
    match document_start(s, em) {
        None => None,
        Some((s2, d1)) => match prolog_at(s2, d1, em) {
            None => None,
            Some((s3, d2, m2)) => match element_at(s3, d2, 1, 0, count, o, m2) {
                None => None,
                Some((s4, d3, _)) => Some((s4, d3)),
            },
        },
    }
}

} // verus!
