use xml_lib_rust::{parse, parse_with_options, NodeKind, ParseOptions, XmlError};

#[test]
fn parses_root_element_and_text() {
    let doc = parse("<status>online</status>").unwrap();
    let root = doc.root_element_id().unwrap();
    assert_eq!(doc.get_node(root).unwrap().kind.name(), "status");
    assert_eq!(doc.get_text_content(root), "online");
}

#[test]
fn stringify_keeps_element_and_text() {
    let doc = parse("<status>online</status>").unwrap();
    let xml = xml_lib_rust::stringify(&doc);
    assert!(xml.contains("<status>online</status>"));
}

#[test]
fn parses_attributes() {
    let doc = parse(r#"<sensor id="temp_01" location="lab"><val>24.5</val></sensor>"#).unwrap();
    let root = doc.root_element_id().unwrap();
    assert_eq!(doc.get_attribute(root, "id"), Some("temp_01"));
    assert_eq!(doc.get_attribute(root, "location"), Some("lab"));
    assert_eq!(doc.get_attribute(root, "missing"), None);
    let children = doc.get_element_children(root);
    assert_eq!(children.len(), 1);
    assert_eq!(doc.get_text_content(children[0]), "24.5");
}

#[test]
fn parses_declaration_comment_and_cdata() {
    let doc = parse("<?xml version=\"1.0\"?><a><!-- note --><![CDATA[x < y]]></a>").unwrap();
    assert!(doc.declaration_id().is_some());
    let root = doc.root_element_id().unwrap();
    let kids = doc.get_children(root);
    assert_eq!(kids.len(), 2);
    assert!(doc.get_node(kids[0]).unwrap().kind.is_comment());
    assert!(doc.get_node(kids[1]).unwrap().kind.is_cdata());
}

#[test]
fn expands_predefined_entities() {
    let doc = parse("<a>&lt;b&gt; &amp; &quot;c&quot;</a>").unwrap();
    let root = doc.root_element_id().unwrap();
    assert_eq!(doc.get_text_content(root), "<b> & \"c\"");
}

#[test]
fn expands_character_references() {
    let doc = parse("<a>&#65;&#x42;</a>").unwrap();
    let root = doc.root_element_id().unwrap();
    assert_eq!(doc.get_text_content(root), "AB");
}

#[test]
fn internal_entity_declarations_expand() {
    let doc = parse("<!DOCTYPE a [<!ENTITY who \"world\">]><a>hello &who;</a>").unwrap();
    let root = doc.root_element_id().unwrap();
    assert_eq!(doc.get_text_content(root), "hello world");
    assert!(doc.dtd_id().is_some());
}

#[test]
fn mismatched_end_tag_is_a_syntax_error() {
    let r = parse("<a><b></a>");
    assert!(matches!(r, Err(XmlError::SyntaxError { .. })));
}

#[test]
fn missing_root_element_is_a_syntax_error() {
    let r = parse("   ");
    assert!(matches!(r, Err(XmlError::SyntaxError { .. })));
}

#[test]
fn duplicate_attribute_is_a_syntax_error() {
    let r = parse("<a x='1' x='2'/>");
    assert!(matches!(r, Err(XmlError::SyntaxError { .. })));
}

#[test]
fn nesting_limit_is_a_security_error() {
    let mut options = ParseOptions::default();
    options.max_nesting_depth = 1;
    assert!(parse_with_options("<a><b></b></a>", options.clone()).is_ok());
    let r = parse_with_options("<a><b><c></c></b></a>", options);
    assert!(matches!(r, Err(XmlError::SecurityLimitExceeded(_))));
}

#[test]
fn attribute_count_limit_is_a_security_error() {
    let mut options = ParseOptions::default();
    options.max_attribute_count = 1;
    let r = parse_with_options("<a x='1' y='2'/>", options);
    assert!(matches!(r, Err(XmlError::SecurityLimitExceeded(_))));
}

#[test]
fn undefined_entity_is_an_error() {
    let r = parse("<a>&nope;</a>");
    assert!(r.is_err());
}

#[test]
fn self_closing_element_has_no_children() {
    let doc = parse("<a><b/></a>").unwrap();
    let root = doc.root_element_id().unwrap();
    let b = doc.first_element_child(root).unwrap();
    assert!(doc.get_children(b).is_empty());
    match &doc.get_node(b).unwrap().kind {
        NodeKind::Element { name, .. } => assert_eq!(name, "b"),
        _ => panic!("not an element"),
    }
}

#[test]
fn parse_bytes_reads_utf16_with_bom() {
    let mut bytes = vec![0xFF, 0xFE];
    for c in "<a>hi</a>".encode_utf16() {
        bytes.extend_from_slice(&c.to_le_bytes());
    }
    let doc = xml_lib_rust::parse_bytes(&bytes).unwrap();
    let root = doc.root_element_id().unwrap();
    assert_eq!(doc.get_text_content(root), "hi");
}

#[test]
fn parse_bytes_rejects_invalid_utf8() {
    let r = xml_lib_rust::parse_bytes(&[0x3C, 0x61, 0x3E, 0xFF, 0x3C, 0x2F, 0x61, 0x3E]);
    assert!(matches!(r, Err(XmlError::SyntaxError { .. })));
}

#[test]
fn parse_bytes_with_latin1_encoding() {
    let doc = xml_lib_rust::parse_bytes_with_encoding(&[0x3C, 0x61, 0x3E, 0xE9, 0x3C, 0x2F, 0x61, 0x3E], "ISO-8859-1").unwrap();
    let root = doc.root_element_id().unwrap();
    assert_eq!(doc.get_text_content(root), "é");
}

#[test]
fn unknown_encoding_name_is_an_error() {
    let r = xml_lib_rust::parse_bytes_with_encoding(b"<a/>", "EBCDIC-XYZ");
    assert!(r.is_err());
}

#[test]
fn content_after_root_is_a_syntax_error() {
    assert!(matches!(parse("<a/><b/>"), Err(XmlError::SyntaxError { .. })));
    assert!(matches!(parse("<a/>text"), Err(XmlError::SyntaxError { .. })));
    assert!(matches!(parse("<a/><!-- open"), Err(XmlError::SyntaxError { .. })));
    assert!(parse("<a/>  <!-- c --> <?pi x?>\n").is_ok());
}

#[test]
fn malformed_inputs_are_syntax_errors() {
    for s in ["", "<note><to>Alice</from></note>", "<note attr='unclosed>", "<root><child></root>", "<a x='1' x='2'/>", "<a/><b/>"] {
        assert!(matches!(parse(s), Err(XmlError::SyntaxError { .. })), "{}", s);
    }
}

#[test]
fn stylesheet_instruction_is_not_a_declaration() {
    let doc = parse("<?xml-stylesheet href='s'?><a/>").unwrap();
    let root = doc.root_element_id().unwrap();
    assert!(matches!(&doc.get_node(root).unwrap().kind, NodeKind::Element { name, .. } if name == "a"));
    assert!(parse("<?xml version=\"1.0\"?><a/>").is_ok());
}

#[test]
fn document_size_limits() {
    let o = ParseOptions { max_xml_size: 8, ..ParseOptions::default() };
    assert!(matches!(parse_with_options("<r>long text</r>", o), Err(XmlError::SecurityLimitExceeded(_))));
    let o = ParseOptions { max_text_node_size: 4, ..ParseOptions::default() };
    assert!(matches!(parse_with_options("<r>long text</r>", o.clone()), Err(XmlError::SecurityLimitExceeded(_))));
    assert!(parse_with_options("<r>abcd</r>", o).is_ok());
    let o = ParseOptions { max_total_attribute_count: 1, ..ParseOptions::default() };
    assert!(matches!(
        parse_with_options("<r a='1'><s b='2'>t</s></r>", o.clone()),
        Err(XmlError::SecurityLimitExceeded(_))
    ));
    assert!(parse_with_options("<r a='1'><s>t</s></r>", o).is_ok());
    let all = ParseOptions { max_xml_size: 8, max_text_node_size: 4, max_total_attribute_count: 1, ..ParseOptions::default() };
    assert!(matches!(
        parse_with_options("<r a='1'><s b='2'>long text</s></r>", all),
        Err(XmlError::SecurityLimitExceeded(_))
    ));
}

#[test]
fn utf8_bytes_parse_like_the_text() {
    let text = "<r a='1'><s>t</s><!-- c --></r>";
    let from_bytes = xml_lib_rust::parse_bytes(text.as_bytes()).unwrap();
    let from_text = parse(text).unwrap();
    let (x, y) = (from_bytes.root_element_id().unwrap(), from_text.root_element_id().unwrap());
    assert_eq!(from_bytes.get_text_content(x), from_text.get_text_content(y));
    assert_eq!(from_bytes.len(), from_text.len());
}

#[test]
fn named_utf16_encoding_decodes_the_text() {
    let mut bytes = Vec::new();
    for c in "<a>zz</a>".encode_utf16() {
        bytes.extend_from_slice(&c.to_be_bytes());
    }
    let doc = xml_lib_rust::parse_bytes_with_encoding(&bytes, "utf-16be").unwrap();
    let root = doc.root_element_id().unwrap();
    assert_eq!(doc.get_text_content(root), "zz");
    assert!(matches!(xml_lib_rust::parse_bytes_with_encoding(&bytes[..3], "UTF-16BE"), Err(XmlError::SyntaxError { .. })));
}
