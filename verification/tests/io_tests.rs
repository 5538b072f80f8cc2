use xml_lib_rust::io::encoding::{
    decode_to_utf8, decode_with_encoding, detect_bom, detect_encoding_and_strip_bom, normalize_line_endings,
};
use xml_lib_rust::{
    canonicalize, parse, CanonicalOptions, CanonicalSerializer, EntityMapper, Format, SerializeOptions,
    XmlDestination, XmlError, XmlSerializer, XmlSource,
};

#[test]
fn bom_detection() {
    assert_eq!(detect_bom(&[0xEF, 0xBB, 0xBF, b'<']), (Format::Utf8Bom, 3));
    assert_eq!(detect_bom(&[0xFE, 0xFF, 0, b'<']), (Format::Utf16Be, 2));
    assert_eq!(detect_bom(&[0xFF, 0xFE, b'<', 0]), (Format::Utf16Le, 2));
    assert_eq!(detect_bom(b"<a/>"), (Format::Utf8, 0));
}

#[test]
fn utf16_decoding() {
    let s = decode_to_utf8(&[0xFE, 0xFF, 0x00, 0x41, 0x00, 0xE9], Format::Utf16Be, 2).unwrap();
    assert_eq!(s, "Aé");
    assert!(decode_to_utf8(&[0xD8, 0x00], Format::Utf16Be, 0).is_err());
}

#[test]
fn utf16_without_mark_is_not_detected() {
    let mut d = XmlDestination::new(Format::Utf16Le);
    d.write_str("<a/>");
    let bytes = d.into_bytes();
    assert_eq!(bytes.len(), 8);
    let (text, format) = detect_encoding_and_strip_bom(&bytes).unwrap();
    assert_eq!(format, Format::Utf8);
    assert_ne!(text, "<a/>");
}

#[test]
fn encoding_detection_strips_the_mark() {
    let (text, format) = detect_encoding_and_strip_bom(&[0xEF, 0xBB, 0xBF, b'h', b'i']).unwrap();
    assert_eq!(text, "hi");
    assert_eq!(format, Format::Utf8Bom);
}

#[test]
fn named_single_byte_encodings() {
    assert_eq!(decode_with_encoding(&[0x80], "windows-1252").unwrap().0, "€");
    assert_eq!(decode_with_encoding(&[0xE9], "iso-8859-1").unwrap().0, "é");
    assert!(decode_with_encoding(&[0xE9], "US-ASCII").is_err());
    assert!(matches!(decode_with_encoding(b"x", "klingon"), Err(XmlError::SyntaxError { .. })));
}

#[test]
fn line_endings_are_normalized() {
    assert_eq!(normalize_line_endings("a\r\nb\rc\n"), "a\nb\nc\n");
    let src = XmlSource::from_string("a\r\nb");
    assert_eq!(src.len(), 3);
}

#[test]
fn destination_encodes_utf16() {
    let mut d = XmlDestination::new(Format::Utf16Le);
    d.write_str("A");
    d.write_char('é');
    assert_eq!(d.into_bytes(), vec![0x41, 0x00, 0xE9, 0x00]);
    let mut u = XmlDestination::new(Format::Utf8Bom);
    u.write_str("x");
    assert_eq!(u.into_bytes(), vec![0xEF, 0xBB, 0xBF, b'x']);
}

#[test]
fn encoding_round_trip_through_destination_and_source() {
    for format in [Format::Utf8, Format::Utf8Bom, Format::Utf16Be, Format::Utf16Le] {
        let mut d = XmlDestination::new(format);
        d.write_str("<a>ü€𝄞</a>");
        let bytes = d.into_bytes();
        let (_, bom) = detect_bom(&bytes);
        let text = decode_to_utf8(&bytes, format, bom).unwrap();
        assert_eq!(text, "<a>ü€𝄞</a>");
    }
}

#[test]
fn entity_mapper_expands_and_limits() {
    let mut m = EntityMapper::new_default();
    m.register("who", "world");
    assert_eq!(m.expand("hello &who; &amp; &#33;").unwrap(), "hello world & !");
    assert!(matches!(m.expand("&nope;"), Err(XmlError::EntityError(_))));
    let mut deep = EntityMapper::with_limits(2, 1000);
    deep.register("a", "&b;");
    deep.register("b", "&c;");
    deep.register("c", "x");
    assert!(deep.expand("&a;").is_err());
    assert_eq!(deep.expand("&b;").unwrap(), "x");
}

#[test]
fn entity_expansion_undoes_text_escaping() {
    let m = EntityMapper::new_default();
    assert_eq!(m.expand("a &lt; b &amp;&amp; c &gt; d").unwrap(), "a < b && c > d");
}

#[test]
fn compact_serialization() {
    let doc = parse("<a x=\"1\"><b>t &amp; u</b><c/></a>").unwrap();
    let out = XmlSerializer::serialize_to_string(&doc, &SerializeOptions { pretty_print: false, indent_step: 0 });
    assert!(out.contains("<a x=\"1\"><b>t &amp; u</b><c/></a>"));
}

#[test]
fn canonical_form_sorts_attributes_and_expands_empty_elements() {
    let doc = parse(r#"<doc z:attr="val2" a:attr="val1" xmlns:z="http://z" xmlns:a="http://a"><!-- c --><empty_tag/></doc>"#)
        .unwrap();
    let c = canonicalize(&doc);
    assert_eq!(
        c,
        r#"<doc xmlns:a="http://a" xmlns:z="http://z" a:attr="val1" z:attr="val2"><empty_tag></empty_tag></doc>"#
    );
    let with = CanonicalSerializer::canonicalize(&doc, &CanonicalOptions { with_comments: true });
    assert!(with.contains("<!-- c -->"));
}

#[test]
fn error_messages() {
    let e = XmlError::SyntaxError { message: "bad".into(), line: 12, col: 3 };
    assert_eq!(e.message(), "Syntax error at line 12, col 3: bad");
    assert_eq!(XmlError::XsdError("x".into()).message(), "XSD Validation error: x");
    assert_eq!(XmlError::Io("gone".into()).message(), "IO error: gone");
    let s = xml_lib_rust::ser_error::CustomSerError::new("oops");
    assert_eq!(s.message(), "oops");
}

#[test]
fn escaped_text_expands_back() {
    let doc = parse("<a>x</a>").unwrap();
    let _ = doc;
    let m = EntityMapper::new_default();
    let original = "1 < 2 && 3 > 2 & done";
    let escaped = "1 &lt; 2 &amp;&amp; 3 &gt; 2 &amp; done";
    assert_eq!(m.expand(escaped).unwrap(), original);
    let d = parse(&format!("<a>{escaped}</a>")).unwrap();
    let out = XmlSerializer::serialize_to_string(&d, &SerializeOptions { pretty_print: false, indent_step: 0 });
    assert!(out.contains(escaped));
}

#[test]
fn value_escaping_covers_quotes() {
    let mut out = String::from(">");
    xml_lib_rust::stringify::markup::push_escaped_value(&mut out, "a'b\"c<&");
    assert_eq!(out, ">a&apos;b&quot;c&lt;&amp;");
}

#[test]
fn decimal_numerals() {
    assert_eq!(xml_lib_rust::error::decimal_chars(0), vec!['0']);
    assert_eq!(xml_lib_rust::error::decimal_chars(4071).into_iter().collect::<String>(), "4071");
}

#[test]
fn ampersand_without_semicolon_is_kept() {
    let m = EntityMapper::new_default();
    assert_eq!(m.expand("AT&T <Corp> \"Quote\" A B").unwrap(), "AT&T <Corp> \"Quote\" A B");
    assert_eq!(m.expand("a & b").unwrap(), "a & b");
    assert!(matches!(m.expand("a & b &amp; c"), Err(XmlError::EntityError(_))));
    assert!(matches!(m.expand("a &bogus; b"), Err(XmlError::EntityError(_))));
}

#[test]
fn decoding_errors_point_at_the_start() {
    match decode_to_utf8(&[0x41, 0xFF], Format::Utf8, 0) {
        Err(XmlError::SyntaxError { line, col, .. }) => assert_eq!((line, col), (1, 1)),
        other => panic!("unexpected {:?}", other),
    }
    match decode_to_utf8(&[0x00, 0x41, 0x00], Format::Utf16Be, 0) {
        Err(XmlError::SyntaxError { line, col, .. }) => assert_eq!((line, col), (1, 1)),
        other => panic!("unexpected {:?}", other),
    }
}

#[test]
fn from_bytes_with_encoding_reads_the_decoded_text() {
    let mut src = XmlSource::from_bytes_with_encoding(&[0x61, 0x0D, 0x0A, 0xE9], "latin1").unwrap();
    assert_eq!(src.next_char(), Some('a'));
    assert_eq!(src.next_char(), Some('\n'));
    assert_eq!(src.next_char(), Some('é'));
    assert_eq!(src.next_char(), None);
    assert!(XmlSource::from_bytes_with_encoding(&[0x80], "US-ASCII").is_err());
}
