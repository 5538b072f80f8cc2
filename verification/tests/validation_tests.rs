use xml_lib_rust::{parse, DtdValidator, XmlError, XmlValidator, XsdValidator};

#[test]
fn dtd_accepts_matching_document() {
    let mut validator = DtdValidator::new();
    let dtd = "<!ELEMENT root (item*)>\n<!ELEMENT item EMPTY>";
    validator.parse_subset(dtd).unwrap();
    let doc = parse("<root><item/></root>").unwrap();
    assert!(validator.validate(&doc).is_ok());
}

#[test]
fn dtd_rejects_content_in_empty_element() {
    let mut validator = DtdValidator::new();
    validator.parse_subset("<!ELEMENT root (item*)>\n<!ELEMENT item EMPTY>").unwrap();
    let doc = parse("<root><item>text</item></root>").unwrap();
    assert!(matches!(validator.validate(&doc), Err(XmlError::DtdError(_))));
}

#[test]
fn dtd_required_attribute() {
    let mut validator = DtdValidator::new();
    validator.parse_subset("<!ELEMENT root ANY>\n<!ATTLIST root id CDATA #REQUIRED>").unwrap();
    assert!(validator.validate(&parse("<root id='x'/>").unwrap()).is_ok());
    assert!(matches!(validator.validate(&parse("<root/>").unwrap()), Err(XmlError::DtdError(_))));
}

#[test]
fn dtd_idref_must_match_an_id() {
    let mut validator = DtdValidator::new();
    validator
        .parse_subset("<!ELEMENT r ANY>\n<!ATTLIST e key ID #IMPLIED>\n<!ATTLIST f ref IDREF #IMPLIED>")
        .unwrap();
    assert!(validator.validate(&parse("<r><e key='k1'/><f ref='k1'/></r>").unwrap()).is_ok());
    assert!(matches!(
        validator.validate(&parse("<r><e key='k1'/><f ref='k2'/></r>").unwrap()),
        Err(XmlError::DtdError(_))
    ));
}

#[test]
fn dtd_internal_subset_is_used() {
    let validator = DtdValidator::new();
    let doc = parse("<!DOCTYPE r [\n<!ELEMENT r EMPTY>\n]><r>x</r>").unwrap();
    assert!(validator.validate(&doc).is_err());
    let ok = parse("<!DOCTYPE r [\n<!ELEMENT r EMPTY>\n]><r/>").unwrap();
    assert!(validator.validate(&ok).is_ok());
}

#[test]
fn dtd_external_subset_is_used_when_given() {
    let validator = DtdValidator::new();
    let doc = parse("<!DOCTYPE r SYSTEM \"r.dtd\"><r>x</r>").unwrap();
    assert!(validator.validate_with_external_subset(&doc, None).is_ok());
    assert!(validator.validate_with_external_subset(&doc, Some("<!ELEMENT r EMPTY>")).is_err());
}

#[test]
fn dtd_apply_defaults_adds_missing_attributes() {
    let mut validator = DtdValidator::new();
    validator.parse_subset("<!ATTLIST item kind CDATA \"plain\">").unwrap();
    let mut doc = parse("<root><item/><item kind='x'/></root>").unwrap();
    let added = validator.apply_defaults(&mut doc).unwrap();
    assert_eq!(added, 1);
    let root = doc.root_element_id().unwrap();
    let items = doc.get_element_children(root);
    assert_eq!(doc.get_attribute(items[0], "kind"), Some("plain"));
    assert_eq!(doc.get_attribute(items[1], "kind"), Some("x"));
}

#[test]
fn xsd_simple_string_element() {
    let schema = r#"
<xs:schema xmlns:xs="http://www.w3.org/2001/XMLSchema">
  <xs:element name="note" type="xs:string"/>
</xs:schema>
"#;
    let mut validator = XsdValidator::new();
    validator.parse_schema(schema).unwrap();
    let doc = parse("<note>hello</note>").unwrap();
    assert!(validator.validate(&doc).is_ok());
}

#[test]
fn xsd_integer_bounds() {
    let schema = r#"<xs:schema xmlns:xs="http://www.w3.org/2001/XMLSchema">
  <xs:element name="age" type="xs:integer">
    <xs:simpleType>
      <xs:restriction base="xs:integer">
        <xs:minInclusive value="0"/>
        <xs:maxInclusive value="120"/>
      </xs:restriction>
    </xs:simpleType>
  </xs:element>
</xs:schema>"#;
    let mut validator = XsdValidator::new();
    validator.parse_schema(schema).unwrap();
    assert!(validator.validate(&parse("<age>25</age>").unwrap()).is_ok());
    assert!(matches!(validator.validate(&parse("<age>150</age>").unwrap()), Err(XmlError::XsdError(_))));
    assert!(matches!(validator.validate(&parse("<age>-1</age>").unwrap()), Err(XmlError::XsdError(_))));
    assert!(matches!(validator.validate(&parse("<age>old</age>").unwrap()), Err(XmlError::XsdError(_))));
}

#[test]
fn xsd_inline_restriction_checks_bounds_through_validator() {
    let schema = r#"<xs:schema xmlns:xs="http://www.w3.org/2001/XMLSchema">
  <xs:element name="age">
    <xs:simpleType>
      <xs:restriction base="xs:integer">
        <xs:minInclusive value="0"/>
        <xs:maxInclusive value="120"/>
      </xs:restriction>
    </xs:simpleType>
  </xs:element>
</xs:schema>"#;
    let mut validator = XsdValidator::new();
    validator.parse_schema(schema).unwrap();
    let v: &dyn XmlValidator = &validator;
    assert!(v.validate(&parse("<age>25</age>").unwrap()).is_ok());
    assert!(matches!(v.validate(&parse("<age>150</age>").unwrap()), Err(XmlError::XsdError(_))));
}

#[test]
fn xsd_length_and_enumeration_facets() {
    let schema = r#"<xs:schema xmlns:xs="http://www.w3.org/2001/XMLSchema">
  <xs:element name="code">
    <xs:simpleType>
      <xs:restriction base="xs:string">
        <xs:minLength value="2"/>
        <xs:maxLength value="3"/>
      </xs:restriction>
    </xs:simpleType>
  </xs:element>
  <xs:element name="color">
    <xs:simpleType>
      <xs:restriction base="xs:string">
        <xs:enumeration value="red"/>
        <xs:enumeration value="green"/>
      </xs:restriction>
    </xs:simpleType>
  </xs:element>
</xs:schema>"#;
    let mut validator = XsdValidator::new();
    validator.parse_schema(schema).unwrap();
    assert!(validator.validate(&parse("<code>ab</code>").unwrap()).is_ok());
    assert!(validator.validate(&parse("<code>a</code>").unwrap()).is_err());
    assert!(validator.validate(&parse("<code>abcd</code>").unwrap()).is_err());
    assert!(validator.validate(&parse("<color> red </color>").unwrap()).is_ok());
    assert!(validator.validate(&parse("<color>blue</color>").unwrap()).is_err());
}

#[test]
fn xsd_sequence_occurrences_and_required_attribute() {
    let schema = r#"<xs:schema xmlns:xs="http://www.w3.org/2001/XMLSchema">
  <xs:element name="order">
    <xs:complexType>
      <xs:sequence>
        <xs:element name="item" type="xs:string" minOccurs="1" maxOccurs="2"/>
        <xs:element name="qty" type="xs:integer" minOccurs="0"/>
      </xs:sequence>
      <xs:attribute name="id" type="xs:integer" use="required"/>
    </xs:complexType>
  </xs:element>
</xs:schema>"#;
    let mut validator = XsdValidator::new();
    validator.parse_schema(schema).unwrap();
    assert!(validator.validate(&parse("<order id='7'><item>a</item><qty>3</qty></order>").unwrap()).is_ok());
    assert!(validator.validate(&parse("<order id='7'></order>").unwrap()).is_err());
    assert!(validator.validate(&parse("<order id='7'><item/><item/><item/></order>").unwrap()).is_err());
    assert!(validator.validate(&parse("<order><item>a</item></order>").unwrap()).is_err());
    assert!(validator.validate(&parse("<order id='x'><item>a</item></order>").unwrap()).is_err());
    assert!(validator.validate(&parse("<order id='7'><item>a</item><qty>many</qty></order>").unwrap()).is_err());
}

#[test]
fn xsd_choice_and_named_type() {
    let schema = r#"<xs:schema xmlns:xs="http://www.w3.org/2001/XMLSchema">
  <xs:complexType name="PetType">
    <xs:choice>
      <xs:element name="cat" type="xs:string"/>
      <xs:element name="dog" type="xs:string"/>
    </xs:choice>
  </xs:complexType>
  <xs:element name="pet" type="PetType"/>
</xs:schema>"#;
    let mut validator = XsdValidator::new();
    validator.parse_schema(schema).unwrap();
    assert!(validator.validate(&parse("<pet><cat>tom</cat></pet>").unwrap()).is_ok());
    assert!(validator.validate(&parse("<pet><cow/></pet>").unwrap()).is_err());
    assert!(validator.validate(&parse("<pet></pet>").unwrap()).is_err());
}

#[test]
fn xsd_boolean_values() {
    let schema = r#"<xs:schema xmlns:xs="http://www.w3.org/2001/XMLSchema">
  <xs:element name="flag" type="xs:boolean"/>
</xs:schema>"#;
    let mut validator = XsdValidator::new();
    validator.parse_schema(schema).unwrap();
    for ok in ["<flag>true</flag>", "<flag>0</flag>", "<flag/>"] {
        assert!(validator.validate(&parse(ok).unwrap()).is_ok());
    }
    assert!(validator.validate(&parse("<flag>yes</flag>").unwrap()).is_err());
}

#[test]
fn xsd_malformed_schema_is_a_syntax_error() {
    let mut validator = XsdValidator::new();
    assert!(matches!(validator.parse_schema("<xs:schema>"), Err(XmlError::SyntaxError { .. })));
}

#[test]
fn unknown_elements_pass_xsd_validation() {
    let validator = XsdValidator::new();
    assert!(validator.validate(&parse("<anything><at/><all/></anything>").unwrap()).is_ok());
}

#[test]
fn dtd_children_model_is_a_sequence() {
    let mut v = DtdValidator::new();
    v.parse_subset("<!ELEMENT note (to,from)>\n<!ELEMENT to EMPTY>").unwrap();
    let check = |s: &str| v.validate(&parse(s).unwrap());
    assert!(check("<note><to/><from/></note>").is_ok());
    assert!(matches!(check("<note><to>x</to><from/></note>"), Err(XmlError::DtdError(_))));
    assert!(matches!(check("<note><from/><to/></note>"), Err(XmlError::DtdError(_))));
    assert!(matches!(check("<note><to/><from/><x/></note>"), Err(XmlError::DtdError(_))));
    assert!(matches!(check("<note><to/></note>"), Err(XmlError::DtdError(_))));
}

#[test]
fn xsd_inline_restriction_base_decides_the_type() {
    let mut v = XsdValidator::new();
    v.parse_schema(r#"<xs:schema xmlns:xs="http://www.w3.org/2001/XMLSchema"><xs:element name="age"><xs:simpleType><xs:restriction base="xs:integer"><xs:minInclusive value="0"/><xs:maxInclusive value="120"/></xs:restriction></xs:simpleType></xs:element></xs:schema>"#).unwrap();
    let check = |s: &str| v.validate(&parse(s).unwrap());
    assert!(check("<age>25</age>").is_ok());
    assert!(matches!(check("<age>150</age>"), Err(XmlError::XsdError(_))));
    assert!(matches!(check("<age>-1</age>"), Err(XmlError::XsdError(_))));
    assert!(matches!(check("<age>x</age>"), Err(XmlError::XsdError(_))));
}

#[test]
fn xsd_schema_that_does_not_parse_is_an_error() {
    let mut v = XsdValidator::new();
    assert!(matches!(v.parse_schema("<xs:schema>"), Err(XmlError::SyntaxError { .. })));
}
