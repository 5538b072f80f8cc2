use xml_lib_rust::xpath::functions::{
    contains, elements_by_ids, ends_with, in_lang, normalize_space, replace, split_words, starts_with, substring,
    substring_after, substring_before, translate,
};
use xml_lib_rust::parse;
use xml_lib_rust::xpath::nodeset::sorted_unique;
use xml_lib_rust::xpath::axes::{attribute_step, AttributeStep};
use xml_lib_rust::xpath::NodeTest;

#[test]
fn contains_and_affixes() {
    assert!(contains("hello world", "o w"));
    assert!(!contains("hello", "world"));
    assert!(contains("", ""));
    assert!(contains("abc", ""));
    assert!(starts_with("hello", "he"));
    assert!(!starts_with("he", "hello"));
    assert!(ends_with("hello", "llo"));
    assert!(!ends_with("hello", "hel"));
    assert!(ends_with("x", ""));
}

#[test]
fn substring_before_and_after_the_first_occurrence() {
    assert_eq!(substring_before("1999/04/01", "/"), "1999");
    assert_eq!(substring_after("1999/04/01", "/"), "04/01");
    assert_eq!(substring_before("abc", "z"), "");
    assert_eq!(substring_after("abc", "z"), "");
    assert_eq!(substring_after("abc", ""), "abc");
    assert_eq!(substring_before("héllo", "l"), "hé");
}

#[test]
fn substring_counts_characters() {
    assert_eq!(substring("12345", 1, Some(3)), "234");
    assert_eq!(substring("12345", 1, None), "2345");
    assert_eq!(substring("12345", 3, Some(10)), "45");
    assert_eq!(substring("12345", 5, Some(1)), "");
    assert_eq!(substring("12345", -1, Some(2)), "");
    assert_eq!(substring("añb", 1, Some(1)), "ñ");
}

#[test]
fn translate_maps_and_drops_characters() {
    assert_eq!(translate("bar", "abc", "ABC"), "BAr");
    assert_eq!(translate("--aaa--", "abc-", "ABC"), "AAA");
    assert_eq!(translate("aba", "aa", "xy"), "xbx");
}

#[test]
fn normalize_space_collapses_white_space() {
    assert_eq!(normalize_space("  a \t b\n\nc  "), "a b c");
    assert_eq!(normalize_space("   "), "");
    assert_eq!(normalize_space("word"), "word");
    assert_eq!(split_words(" x  yz "), vec!["x".to_string(), "yz".to_string()]);
}

#[test]
fn replace_takes_occurrences_from_the_left() {
    assert_eq!(replace("aaa", "aa", "b"), "ba");
    assert_eq!(replace("abcabc", "bc", "X"), "aXaX");
    assert_eq!(replace("ab", "", "-"), "-a-b-");
    assert_eq!(replace("", "", "-"), "-");
    assert_eq!(replace("abc", "z", "y"), "abc");
}

#[test]
fn id_selects_elements_by_identifier() {
    let doc = parse("<r><a id='x'/><b id='y'/><c id='x'/></r>").unwrap();
    let found = elements_by_ids(&doc, " y  x missing ");
    assert_eq!(found.len(), 2);
    assert_eq!(doc.get_attribute(found[0], "id"), Some("y"));
    assert_eq!(doc.get_local_name(found[1]), "a");
}

#[test]
fn lang_looks_at_the_nearest_declaration() {
    let doc = parse("<r xml:lang='EN-us'><p><q xml:lang='de'/></p></r>").unwrap();
    let r = doc.root_element_id().unwrap();
    let p = doc.get_children(r)[0];
    let q = doc.get_children(p)[0];
    assert!(in_lang(&doc, p, "en"));
    assert!(in_lang(&doc, p, "en-US"));
    assert!(!in_lang(&doc, p, "e"));
    assert!(!in_lang(&doc, q, "en"));
    assert!(in_lang(&doc, q, "DE"));
    assert!(!in_lang(&doc, 0, "en"));
}

#[test]
fn node_sets_come_out_ascending_without_repeats() {
    assert_eq!(sorted_unique(vec![5, 2, 5, 9, 2, 1]), vec![1, 2, 5, 9]);
    assert_eq!(sorted_unique(Vec::new()), Vec::<u32>::new());
}

#[test]
fn before_needle_after_rebuild_the_text() {
    let h = "key=value=more";
    let n = "=";
    let rebuilt = format!("{}{}{}", substring_before(h, n), n, substring_after(h, n));
    assert_eq!(rebuilt, h);
}

#[test]
fn attribute_steps_give_values_or_the_element() {
    let doc = parse("<r a='1'><e/></r>").unwrap();
    let r = doc.root_element_id().unwrap();
    let e = doc.get_element_children(r)[0];
    assert_eq!(attribute_step(&doc, r, &NodeTest::Name("a".to_string())), AttributeStep::Value("1".to_string()));
    assert_eq!(attribute_step(&doc, r, &NodeTest::Name("b".to_string())), AttributeStep::Nodes(Vec::new()));
    assert_eq!(attribute_step(&doc, r, &NodeTest::Wildcard), AttributeStep::Nodes(vec![r]));
    assert_eq!(attribute_step(&doc, e, &NodeTest::AttributeWildcard), AttributeStep::Nodes(Vec::new()));
    assert_eq!(attribute_step(&doc, r, &NodeTest::Text), AttributeStep::Nodes(Vec::new()));
}
