//! XML parsing, DOM construction, validation and serialization, with every
//! piece of logic stated by a contract and proved.

pub mod compaction;
pub mod document;
pub mod dtd;
pub mod entity;
pub mod error;
pub mod io;
pub mod mutation;
pub mod namespace;
pub mod node;
pub mod numbers;
pub mod options;
pub mod parser;
pub mod record;
pub mod seqs;
pub mod ser_error;
pub mod stringify;
pub mod subtree;
pub mod text;
pub mod textops;
pub mod tree;
pub mod validator;
pub mod xpath;
pub mod xsd;

pub use document::Document;
pub use entity::{DefaultEntityResolver, EntityMapper, EntityResolver};
pub use error::XmlError;
pub use io::{is_valid_xml_char, is_xml_name_char, is_xml_name_start, is_xml_whitespace};
pub use io::{Format, XmlDestination, XmlSource};
pub use namespace::{Namespace, NamespaceScope, QName};
pub use node::{Attribute, NodeData, NodeId, NodeKind};
pub use options::ParseOptions;
pub use parser::{XmlParser, XmlPullAttribute, XmlPullEvent, XmlPullParser};
pub use stringify::{canonicalize, CanonicalOptions, CanonicalSerializer, SerializeOptions, XmlSerializer};
pub use validator::XmlValidator;
pub use dtd::{DtdAttributeRule, DtdElementRule, DtdValidator};
pub use xsd::{Compositor, XsdAttributeRule, XsdComplexType, XsdElementRule, XsdRestriction, XsdValidator};

use vstd::prelude::*;
use crate::parser::xml_parser::parsed_document;
use crate::stringify::serializer::{ser_doc, serializable};

verus! {

/// The document that XML text describes when read with the limits `o`
/// (after line endings are normalized); none when the text is malformed or
/// passes a limit, among them the size of the normalized text in UTF-8
/// bytes, the total number of attributes and the size of each text node.
pub open spec fn document_of(xml: Seq<char>, o: ParseOptions) -> Option<document::DocV> {
    parser::xml_parser::document_at(
        io::source::SourceV { text: io::encoding::normalize_newlines(xml), idx: 0, format: Format::Utf8 },
        o,
        parser::xml_parser::initial_mapper(o),
        0,
    )
}

/// The source position and arena once the start, prolog and root element
/// of XML text have been read with the limits `o`.
pub open spec fn root_of(xml: Seq<char>, o: ParseOptions) -> Option<(io::source::SourceV, document::DocV)> {
    parser::xml_parser::root_read(
        io::source::SourceV { text: io::encoding::normalize_newlines(xml), idx: 0, format: Format::Utf8 },
        o,
        parser::xml_parser::initial_mapper(o),
        0,
    )
}

/// Which error a text whose root element was read gets: a syntax error for
/// anything but white space, comments and processing instructions after
/// it, a limit error for too many attributes in all or too long a text
/// node.
pub open spec fn after_root_error(xml: Seq<char>, o: ParseOptions, r: Result<Document, XmlError>) -> bool {
    io::source::byte_len(io::encoding::normalize_newlines(xml)) <= o.max_xml_size ==> match root_of(xml, o) {
        Some((s, d)) => (!parser::xml_parser::tail_ok(s) ==> (r matches Err(e) && e is SyntaxError)) && (
        parser::xml_parser::tail_ok(s) && parser::xml_parser::breaks_document_limits(d, o) ==> (r matches Err(e)
            && e is SecurityLimitExceeded)),
        None => true,
    }
}

/// The limits `ParseOptions::default` sets.
pub open spec fn default_parse_options() -> ParseOptions {
    ParseOptions {
        max_xml_size: 104_857_600,
        max_entity_expansion_depth: 512,
        max_nesting_depth: 1000,
        max_element_count: 1_000_000,
        max_attribute_count: 10_000,
        max_total_attribute_count: 1_000_000,
        max_text_node_size: 1_048_576,
        allow_external_entities: false,
    }
}

/// Parses XML text with the default limits. A successful parse yields a
/// document whose root container holds exactly one element, whose children
/// follow their parents, whose elements nest no deeper than the nesting
/// limit and carry at most the allowed number of distinctly named
/// attributes.
pub fn parse(xml: &str) -> (r: Result<Document, XmlError>)
    ensures
        r matches Ok(doc) ==> doc.wf() && parsed_document(doc@, default_parse_options()),
        r matches Err(e) ==> e is SyntaxError || e is SecurityLimitExceeded || e is EntityError,
        io::source::byte_len(io::encoding::normalize_newlines(xml@)) > default_parse_options().max_xml_size
            ==> (r matches Err(e) && e is SecurityLimitExceeded),
        after_root_error(xml@, default_parse_options(), r),
        match document_of(xml@, default_parse_options()) {
            Some(d) => r matches Ok(doc) && doc@ == d,
            None => r is Err,
        },
{
    parse_with_options(xml, ParseOptions::default())
}

/// Parses XML text with the given limits.
pub fn parse_with_options(xml: &str, options: ParseOptions) -> (r: Result<Document, XmlError>)
    ensures
        r matches Ok(doc) ==> doc.wf() && parsed_document(doc@, options),
        r matches Err(e) ==> e is SyntaxError || e is SecurityLimitExceeded || e is EntityError,
        io::source::byte_len(io::encoding::normalize_newlines(xml@)) > options.max_xml_size ==> (r matches Err(e)
            && e is SecurityLimitExceeded),
        after_root_error(xml@, options, r),
        match document_of(xml@, options) {
            Some(d) => r matches Ok(doc) && doc@ == d,
            None => r is Err,
        },
{
    let source = XmlSource::from_string(xml);
    let mut parser = XmlParser::new(source, options);
    parser.parse()
}

/// Parses bytes whose encoding a byte-order mark announces (UTF-8 when there
/// is none), with the default limits; bytes that do not decode are a syntax
/// error.
pub fn parse_bytes(bytes: &[u8]) -> (r: Result<Document, XmlError>)
    ensures
        r matches Ok(doc) ==> doc.wf() && parsed_document(doc@, default_parse_options()),
        r matches Err(e) ==> e is SyntaxError || e is SecurityLimitExceeded || e is EntityError,
        (forall|cs: Seq<char>| #[trigger] io::encoding::encode(io::encoding::bom_of(bytes@).0, cs) != bytes@.skip(
            io::encoding::bom_of(bytes@).1 as int,
        )) ==> (r matches Err(e) && e is SyntaxError),
        forall|cs: Seq<char>|
            #[trigger] io::encoding::encode(io::encoding::bom_of(bytes@).0, cs) == bytes@.skip(
                io::encoding::bom_of(bytes@).1 as int,
            ) ==> match bytes_document(bytes@, cs) {
                Some(d) => r matches Ok(doc) && doc@ == d,
                None => r is Err,
            },
{
    let source = XmlSource::from_bytes(bytes)?;
    proof {
        let f = io::encoding::bom_of(bytes@).0;
        let skip = bytes@.skip(io::encoding::bom_of(bytes@).1 as int);
        let s = choose|s: Seq<char>|
            #![trigger io::encoding::normalize_newlines(s)]
            source@.format == f && io::encoding::encode(source@.format, s) == skip && source@.text
                == io::encoding::normalize_newlines(s);
        assert forall|cs: Seq<char>| #[trigger] io::encoding::encode(f, cs) == skip implies source@.text
            == io::encoding::normalize_newlines(cs) by {
            io::encoding::law_encoding_round_trip(f, s, cs);
        }
    }
    let options = ParseOptions::default();
    let mut parser = XmlParser::new(source, options);
    parser.parse()
}

/// The document that the characters `cs`, read in the format `f`, describe
/// with the default limits.
pub open spec fn encoded_document(cs: Seq<char>, f: Format) -> Option<document::DocV> {
    parser::xml_parser::document_at(
        io::source::SourceV { text: io::encoding::normalize_newlines(cs), idx: 0, format: f },
        default_parse_options(),
        parser::xml_parser::initial_mapper(default_parse_options()),
        0,
    )
}

/// The document that bytes describe when they encode the characters `cs`
/// in the encoding their byte-order mark announces, read with the default
/// limits.
pub open spec fn bytes_document(bytes: Seq<u8>, cs: Seq<char>) -> Option<document::DocV> {
    encoded_document(cs, io::encoding::bom_of(bytes).0)
}

/// Parses bytes in the named encoding (see `decode_with_encoding`) with the
/// default limits: the document of the text they decode to; bytes that do
/// not decode, or an unknown encoding name, are a syntax error.
pub fn parse_bytes_with_encoding(bytes: &[u8], encoding: &str) -> (r: Result<Document, XmlError>)
    ensures
        r matches Ok(doc) ==> doc.wf() && parsed_document(doc@, default_parse_options()),
        r matches Err(e) ==> e is SyntaxError || e is SecurityLimitExceeded || e is EntityError,
        io::source::decode_fails(bytes@, encoding@) ==> (r matches Err(e) && e is SyntaxError),
        forall|cs: Seq<char>, f: Format|
            #[trigger] io::source::decodes_as(bytes@, encoding@, cs, f) ==> match encoded_document(cs, f) {
                Some(d) => r matches Ok(doc) && doc@ == d,
                None => r is Err,
            },
{
    let source = XmlSource::from_bytes_with_encoding(bytes, encoding)?;
    let options = ParseOptions::default();
    let mut parser = XmlParser::new(source, options);
    parser.parse()
}

/// UTF-8 bytes without a byte-order mark describe the same document as the
/// text they encode.
pub proof fn law_utf8_bytes_parse_as_text(bytes: Seq<u8>, cs: Seq<char>)
    requires
        io::encoding::bom_of(bytes).0 == Format::Utf8,
    ensures
        bytes_document(bytes, cs) == document_of(cs, default_parse_options()),
{
}

/// Writes a document as indented XML text (two spaces per level).
pub fn stringify(doc: &Document) -> (r: String)
    requires
        serializable(doc@),
    ensures
        r@ == ser_doc(doc@, SerializeOptions { pretty_print: true, indent_step: 2 }),
{
    XmlSerializer::serialize_to_string(doc, &SerializeOptions::default())
}

/// Every document the parser produces can be written out, and no chain of
/// parent links in it has a cycle: what `parse` returns meets what
/// `stringify` requires, and what the lookups that walk up the ancestors
/// require.
pub proof fn law_parsed_documents_serialize(d: document::DocV, o: ParseOptions)
    requires
        parsed_document(d, o),
    ensures
        serializable(d),
        d.all_ancestors_finite(),
{
    tree::lemma_ordered_acyclic(d, 0);
    tree::lemma_ordered_acyclic(d, 1);
    tree::lemma_ordered_ancestors(d);
}

} // verus!
