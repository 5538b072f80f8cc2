use xml_lib_rust::parse;
use xml_lib_rust::record::{direct_text, is_record, record_fields, FieldSource};

#[test]
fn record_fields_list_attributes_then_child_elements() {
    let doc = parse("<p id='1' name='x'><a>1</a>t<b/>u</p>").unwrap();
    let p = doc.root_element_id().unwrap();
    let kids = doc.get_element_children(p);
    let fields = record_fields(&doc, p);
    assert_eq!(
        fields,
        vec![
            ("id".to_string(), FieldSource::Text("1".to_string())),
            ("name".to_string(), FieldSource::Text("x".to_string())),
            ("a".to_string(), FieldSource::Element(kids[0])),
            ("b".to_string(), FieldSource::Element(kids[1])),
        ]
    );
    assert!(record_fields(&doc, 999).is_empty());
}

#[test]
fn direct_text_joins_only_child_text_nodes() {
    let doc = parse("<p><a>1</a>t<b>2</b>u</p>").unwrap();
    let p = doc.root_element_id().unwrap();
    assert_eq!(direct_text(&doc, p), "tu");
    let a = doc.get_element_children(p)[0];
    assert_eq!(direct_text(&doc, a), "1");
    assert_eq!(direct_text(&doc, 999), "");
}

#[test]
fn records_are_elements_with_attributes_or_element_children() {
    let doc = parse("<p><a k='v'/><b>text</b><c><d/></c></p>").unwrap();
    let p = doc.root_element_id().unwrap();
    let kids = doc.get_element_children(p);
    assert!(is_record(&doc, p));
    assert!(is_record(&doc, kids[0]));
    assert!(!is_record(&doc, kids[1]));
    assert!(is_record(&doc, kids[2]));
    assert!(!is_record(&doc, 999));
}
