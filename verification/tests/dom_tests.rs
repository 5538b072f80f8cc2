use xml_lib_rust::{parse, Document, NamespaceScope, NodeKind, XmlError};

fn element(name: &str) -> NodeKind {
    NodeKind::Element { name: name.to_string(), attributes: Vec::new() }
}

#[test]
fn new_document_has_prolog_and_root_containers() {
    let doc = Document::new();
    assert_eq!(doc.len(), 2);
    assert_eq!(doc.prolog_id(), Some(0));
    assert_eq!(doc.root_id(), Some(1));
    assert_eq!(doc.root_element_id(), None);
}

#[test]
fn append_child_links_both_ways() {
    let mut doc = Document::new();
    let a = doc.add_node(element("a"));
    doc.append_child(1, a).unwrap();
    assert_eq!(doc.parent_id(a), Some(1));
    assert_eq!(doc.get_children(1), vec![a]);
    assert_eq!(doc.root_element_id(), Some(a));
}

#[test]
fn append_child_with_unknown_id_fails() {
    let mut doc = Document::new();
    assert!(matches!(doc.append_child(1, 99), Err(XmlError::NodeError(_))));
}

#[test]
fn insert_before_and_siblings() {
    let mut doc = parse("<list><a/><c/></list>").unwrap();
    let root = doc.root_element_id().unwrap();
    let kids = doc.get_children(root);
    let b = doc.add_node(element("b"));
    doc.insert_before(root, b, kids[1]).unwrap();
    let kids2 = doc.get_children(root);
    assert_eq!(kids2, vec![kids[0], b, kids[1]]);
    assert_eq!(doc.next_sibling(kids[0]), Some(b));
    assert_eq!(doc.previous_sibling(kids[1]), Some(b));
}

#[test]
fn remove_and_replace_child() {
    let mut doc = parse("<list><a/><b/></list>").unwrap();
    let root = doc.root_element_id().unwrap();
    let kids = doc.get_children(root);
    let c = doc.add_node(element("c"));
    assert_eq!(doc.replace_child(root, c, kids[0]).unwrap(), kids[0]);
    assert_eq!(doc.get_children(root), vec![c, kids[1]]);
    assert_eq!(doc.parent_id(kids[0]), None);
    assert_eq!(doc.remove_child(root, kids[1]).unwrap(), kids[1]);
    assert_eq!(doc.get_children(root), vec![c]);
}

#[test]
fn set_and_remove_attribute() {
    let mut doc = parse("<a/>").unwrap();
    let root = doc.root_element_id().unwrap();
    doc.set_attribute(root, "k", "v").unwrap();
    assert_eq!(doc.get_attribute(root, "k"), Some("v"));
    doc.set_attribute(root, "k", "w").unwrap();
    assert_eq!(doc.get_attribute(root, "k"), Some("w"));
    assert!(doc.remove_attribute(root, "k"));
    assert_eq!(doc.get_attribute(root, "k"), None);
    assert!(!doc.remove_attribute(root, "k"));
}

#[test]
fn set_text_content_replaces_children() {
    let mut doc = parse("<a><b/>old</a>").unwrap();
    let root = doc.root_element_id().unwrap();
    doc.set_text_content(root, "new").unwrap();
    assert_eq!(doc.get_text_content(root), "new");
    assert_eq!(doc.get_children(root).len(), 1);
}

#[test]
fn elements_by_tag_name_and_id() {
    let doc = parse("<r><x id='one'/><y/><x id='two'/></r>").unwrap();
    let xs = doc.get_elements_by_tag_name("x");
    assert_eq!(xs.len(), 2);
    let all = doc.get_elements_by_tag_name("*");
    assert_eq!(all.len(), 4);
    assert_eq!(doc.get_element_by_id("two"), Some(xs[1]));
    assert_eq!(doc.get_element_by_id("three"), None);
}

#[test]
fn shallow_clone_copies_only_the_node() {
    let mut doc = parse("<a x='1'><b/></a>").unwrap();
    let root = doc.root_element_id().unwrap();
    let before = doc.len();
    let copy = doc.clone_node(root, false).unwrap();
    assert_eq!(copy as usize, before);
    assert_eq!(doc.len(), before + 1);
    assert_eq!(doc.parent_id(copy), None);
    assert!(doc.get_children(copy).is_empty());
    assert_eq!(doc.get_attribute(copy, "x"), Some("1"));
}

#[test]
fn deep_clone_copies_the_subtree() {
    let mut doc = parse("<a><b>t</b><c/></a>").unwrap();
    let root = doc.root_element_id().unwrap();
    let before = doc.len();
    let copy = doc.clone_node(root, true).unwrap();
    assert_eq!(doc.len(), before + 4);
    let kids = doc.get_children(copy);
    assert_eq!(kids.len(), 2);
    assert_eq!(doc.get_node(kids[0]).unwrap().kind.name(), "b");
    assert_eq!(doc.get_text_content(kids[0]), "t");
    assert_eq!(doc.parent_id(kids[0]), Some(copy));
    assert_eq!(doc.get_children(root).len(), 2);
}

#[test]
fn clone_of_unknown_node_fails() {
    let mut doc = Document::new();
    assert!(matches!(doc.clone_node(42, true), Err(XmlError::NodeError(_))));
}

#[test]
fn compact_drops_unreachable_nodes() {
    let mut doc = parse("<list><a/><b>x</b></list>").unwrap();
    let root = doc.root_element_id().unwrap();
    let kids = doc.get_children(root);
    doc.remove_child(root, kids[0]).unwrap();
    let stray = doc.add_node(element("stray"));
    assert!(stray as usize == doc.len() - 1);
    let before = doc.len();
    doc.compact().unwrap();
    assert_eq!(doc.len(), before - 2);
    let root2 = doc.root_element_id().unwrap();
    let kids2 = doc.get_children(root2);
    assert_eq!(kids2.len(), 1);
    assert_eq!(doc.get_node(kids2[0]).unwrap().kind.name(), "b");
    assert_eq!(doc.get_text_content(kids2[0]), "x");
    for (i, n) in doc.nodes().iter().enumerate() {
        assert_eq!(n.id as usize, i);
    }
}

#[test]
fn compact_of_fully_linked_document_changes_nothing() {
    let mut doc = parse("<a><b/>t</a>").unwrap();
    let before: Vec<_> = doc.nodes().to_vec();
    doc.compact().unwrap();
    assert_eq!(doc.nodes().to_vec(), before);
}

#[test]
fn namespace_lookup() {
    let doc = parse("<r xmlns:p='urn:p'><p:c/></r>").unwrap();
    let root = doc.root_element_id().unwrap();
    let c = doc.first_element_child(root).unwrap();
    assert_eq!(doc.lookup_namespace_uri(c, "p"), Some("urn:p".to_string()));
    assert_eq!(doc.lookup_prefix(c, "urn:p"), Some("p".to_string()));
    assert_eq!(doc.get_namespace_uri(c), Some("urn:p".to_string()));
    assert_eq!(doc.get_prefix(c), Some("p"));
    assert_eq!(doc.get_local_name(c), "c");
    assert_eq!(doc.get_elements_by_tag_name_ns("urn:p", "c"), vec![c]);
}

#[test]
fn acyclic_and_ancestor_checks() {
    let doc = parse("<a><b/></a>").unwrap();
    let root = doc.root_element_id().unwrap();
    assert!(doc.acyclic_below(root));
    assert!(doc.ancestors_finite(root));
    assert!(!doc.acyclic_below(500));
}

#[test]
fn attribute_reads_back_after_set_and_is_gone_after_remove() {
    let mut doc = parse("<a p='1' q='2'/>").unwrap();
    let root = doc.root_element_id().unwrap();
    doc.set_attribute(root, "p", "9").unwrap();
    assert_eq!(doc.get_attribute(root, "p"), Some("9"));
    assert_eq!(doc.get_attribute(root, "q"), Some("2"));
    doc.set_attribute(root, "r", "3").unwrap();
    assert_eq!(doc.get_attribute(root, "r"), Some("3"));
    assert!(doc.remove_attribute(root, "q"));
    assert_eq!(doc.get_attribute(root, "q"), None);
    assert_eq!(doc.get_attribute(root, "p"), Some("9"));
}

#[test]
fn set_attribute_on_text_fails() {
    let mut doc = parse("<a>t</a>").unwrap();
    let root = doc.root_element_id().unwrap();
    let t = doc.get_children(root)[0];
    assert!(matches!(doc.set_attribute(t, "x", "y"), Err(XmlError::NodeError(_))));
}

#[test]
fn linked_child_points_to_parent() {
    let mut doc = Document::new();
    let a = doc.add_node(element("a"));
    let b = doc.add_node(element("b"));
    doc.append_child(a, b).unwrap();
    doc.append_child(a, b).unwrap();
    assert_eq!(doc.parent_id(b), Some(a));
    assert_eq!(doc.get_children(a), vec![b]);
}

#[test]
fn text_reads_back_after_set() {
    let mut doc = parse("<a><b>x</b>y</a>").unwrap();
    let root = doc.root_element_id().unwrap();
    doc.set_text_content(root, "fresh").unwrap();
    assert_eq!(doc.get_text_content(root), "fresh");
}

#[test]
fn declared_prefix_resolves() {
    let mut scope = NamespaceScope::new();
    scope.declare(Some("p"), "urn:p");
    assert_eq!(scope.resolve_prefix(Some("p")), Some("urn:p"));
    assert_eq!(scope.resolve_prefix(Some("xml")), Some("http://www.w3.org/XML/1998/namespace"));
    scope.push_scope();
    scope.declare(Some("p"), "");
    assert_eq!(scope.resolve_prefix(Some("p")), None);
    scope.pop_scope();
    assert_eq!(scope.resolve_prefix(Some("p")), Some("urn:p"));
    scope.declare(None, "urn:default");
    assert_eq!(scope.resolve_prefix(None), Some("urn:default"));
}

#[test]
fn append_child_moves_a_node() {
    let mut d = Document::new();
    let r = d.root_id().unwrap();
    let a = d.add_node(element("a"));
    let b = d.add_node(element("b"));
    let c = d.add_node(element("c"));
    d.append_child(r, a).unwrap();
    d.append_child(r, b).unwrap();
    d.append_child(a, c).unwrap();
    assert_eq!(d.append_child(b, c), Ok(()));
    assert_eq!(d.parent_id(c), Some(b));
    assert_eq!(d.get_children(b), vec![c]);
    assert!(d.get_children(a).is_empty());
    assert_eq!(d.get_children(r), vec![a, b]);
    assert!(matches!(d.append_child(b, 99), Err(XmlError::NodeError(_))));
    assert_eq!(d.get_children(b), vec![c]);
}

#[test]
fn elements_by_tag_name_are_document_descendants_in_order() {
    let mut d = parse("<r><a/><b><a/></b></r>").unwrap();
    let r = d.root_element_id().unwrap();
    let kids = d.get_children(r);
    let (a1, b) = (kids[0], kids[1]);
    let a2 = d.get_children(b)[0];
    assert_eq!(d.get_elements_by_tag_name("a"), vec![a1, a2]);
    assert_eq!(d.get_elements_by_tag_name("*"), vec![r, a1, b, a2]);
    d.remove_child(r, b).unwrap();
    assert_eq!(d.get_elements_by_tag_name("a"), vec![a1]);
    assert_eq!(d.get_elements_by_tag_name("*"), vec![r, a1]);
}

#[test]
fn text_content_includes_cdata() {
    let d = parse("<p>This is <b>bold</b> text with an <i>italic</i> word and <![CDATA[raw CDATA content]]>.</p>").unwrap();
    let p = d.root_element_id().unwrap();
    assert_eq!(d.get_text_content(p), "This is bold text with an italic word and raw CDATA content.");
}

#[test]
fn namespace_scope_closes_declarations() {
    let mut s = NamespaceScope::new();
    s.declare(Some("p"), "urn:outer");
    s.push_scope();
    s.declare(Some("p"), "urn:inner");
    assert_eq!(s.resolve_prefix(Some("p")), Some("urn:inner"));
    s.pop_scope();
    assert_eq!(s.resolve_prefix(Some("p")), Some("urn:outer"));
}

#[test]
fn siblings_are_inverse() {
    let d = parse("<r><a/><b/><c/></r>").unwrap();
    let r = d.root_element_id().unwrap();
    let kids = d.get_children(r);
    assert_eq!(d.previous_sibling(kids[1]), Some(kids[0]));
    assert_eq!(d.next_sibling(kids[0]), Some(kids[1]));
    assert_eq!(d.next_sibling(d.previous_sibling(kids[2]).unwrap()), Some(kids[2]));
    assert_eq!(d.previous_sibling(d.next_sibling(kids[0]).unwrap()), Some(kids[0]));
    assert_eq!(d.previous_sibling(kids[0]), None);
}
