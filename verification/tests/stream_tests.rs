use xml_lib_rust::xpath::axes::{evaluate_axis, get_node_text, matches_node_test};
use xml_lib_rust::xpath::{Axis, NodeTest, Token, XPathLexer};
use xml_lib_rust::{parse, XmlError, XmlPullEvent, XmlPullParser};

fn events(xml: &str) -> Vec<XmlPullEvent> {
    let mut p = XmlPullParser::new(xml);
    let mut out = Vec::new();
    while let Some(e) = p.next_event().unwrap() {
        out.push(e);
    }
    out
}

#[test]
fn pull_parser_reports_tags_and_text() {
    let evs = events(r#"<sensor id="temp_01" location="lab"><val>24.5</val></sensor>"#);
    assert_eq!(evs.len(), 5);
    assert_eq!(
        evs[0],
        XmlPullEvent::StartElement { name: "sensor".into(), attr_raw: r#"id="temp_01" location="lab""#.into() }
    );
    assert_eq!(evs[1], XmlPullEvent::StartElement { name: "val".into(), attr_raw: "".into() });
    assert_eq!(evs[2], XmlPullEvent::Text("24.5".into()));
    assert_eq!(evs[3], XmlPullEvent::EndElement { name: "val".into() });
    assert_eq!(evs[4], XmlPullEvent::EndElement { name: "sensor".into() });
}

#[test]
fn pull_parser_attributes() {
    let evs = events(r#"<sensor id="temp_01" location='lab'>"#);
    let mut it = evs[0].attributes();
    let a = it.next().unwrap();
    assert_eq!((a.name.as_str(), a.value.as_str()), ("id", "temp_01"));
    let b = it.next().unwrap();
    assert_eq!((b.name.as_str(), b.value.as_str()), ("location", "lab"));
    assert!(it.next().is_none());
    assert!(XmlPullEvent::Text("x".into()).attributes().next().is_none());
}

#[test]
fn pull_parser_unquoted_attribute_stops() {
    let evs = events("<a x=1 y='2'>");
    let mut it = evs[0].attributes();
    assert!(it.next().is_none());
}

#[test]
fn pull_parser_other_constructs() {
    let evs = events("<?xml version=\"1.0\"?><!-- c --><![CDATA[<raw>]]><e/>");
    assert_eq!(
        evs[0],
        XmlPullEvent::ProcessingInstruction { target: "xml".into(), data: "version=\"1.0\"".into() }
    );
    assert_eq!(evs[1], XmlPullEvent::Comment(" c ".into()));
    assert_eq!(evs[2], XmlPullEvent::CData("<raw>".into()));
    assert_eq!(evs[3], XmlPullEvent::StartElement { name: "e".into(), attr_raw: "".into() });
    assert_eq!(evs[4], XmlPullEvent::EndElement { name: "e".into() });
    assert_eq!(evs.len(), 5);
}

#[test]
fn pull_parser_unclosed_tag_is_an_error() {
    let mut p = XmlPullParser::new("ab<c");
    assert_eq!(p.next_event().unwrap(), Some(XmlPullEvent::Text("ab".into())));
    assert!(matches!(p.next_event(), Err(XmlError::SyntaxError { .. })));
    let mut q = XmlPullParser::new("<");
    assert!(matches!(q.next_event(), Err(XmlError::SyntaxError { .. })));
    let mut r = XmlPullParser::new("<!-- open");
    assert!(matches!(r.next_event(), Err(XmlError::SyntaxError { .. })));
    let mut t = XmlPullParser::new("<?>");
    assert!(matches!(t.next_event(), Err(XmlError::SyntaxError { .. })));
}

#[test]
fn pull_parser_pairs_self_closing_tags() {
    let mut q = XmlPullParser::new("<a x='1'/>");
    assert_eq!(
        q.next_event().unwrap(),
        Some(XmlPullEvent::StartElement { name: "a".into(), attr_raw: "x='1'".into() })
    );
    assert_eq!(q.next_event().unwrap(), Some(XmlPullEvent::EndElement { name: "a".into() }));
    assert_eq!(q.next_event().unwrap(), None);
}

#[test]
fn pull_parser_ends_on_every_input() {
    for s in ["<a", "a<b>c", "<!--x-->", "<a/><b></b>", "text", "<![CDATA[", "</x"] {
        let mut p = XmlPullParser::new(s);
        let mut steps = 0;
        loop {
            match p.next_event() {
                Ok(Some(_)) => steps += 1,
                _ => break,
            }
            assert!(steps <= 2 * s.len() + 1);
        }
    }
}

#[test]
fn pull_parser_empty_input() {
    let mut p = XmlPullParser::new("");
    assert_eq!(p.next_event().unwrap(), None);
}

fn tokens(s: &str) -> Vec<Token> {
    let mut lx = XPathLexer::new(s);
    let mut out = Vec::new();
    loop {
        let t = lx.next_token().unwrap();
        if t == Token::Eof {
            break;
        }
        out.push(t);
    }
    out
}

#[test]
fn lexer_tokens_of_a_path() {
    assert_eq!(
        tokens("//book[@price >= 29.99]/title"),
        vec![
            Token::DoubleSlash,
            Token::Name("book".into()),
            Token::LeftBracket,
            Token::At,
            Token::Name("price".into()),
            Token::GtEq,
            Token::LiteralNumber("29.99".into()),
            Token::RightBracket,
            Token::Slash,
            Token::Name("title".into()),
        ]
    );
}

#[test]
fn lexer_operators_and_literals() {
    assert_eq!(
        tokens("a != 'x' or .5 < ..::*"),
        vec![
            Token::Name("a".into()),
            Token::NotEq,
            Token::LiteralString("x".into()),
            Token::Name("or".into()),
            Token::LiteralNumber(".5".into()),
            Token::Lt,
            Token::DoubleDot,
            Token::ColonColon,
            Token::Star,
        ]
    );
    assert_eq!(tokens(": ."), vec![Token::Name(":".into()), Token::Dot]);
}

#[test]
fn lexer_errors() {
    assert!(matches!(XPathLexer::new("!x").next_token(), Err(XmlError::XPathError(_))));
    assert!(matches!(XPathLexer::new("'open").next_token(), Err(XmlError::XPathError(_))));
    assert!(matches!(XPathLexer::new("1.2.3").next_token(), Err(XmlError::XPathError(_))));
    assert!(matches!(XPathLexer::new("#").next_token(), Err(XmlError::XPathError(_))));
}

#[test]
fn lexer_peek() {
    let mut lx = XPathLexer::new("f(x)");
    assert_eq!(lx.peek(), Some('f'));
    assert_eq!(lx.next_token().unwrap(), Token::Name("f".into()));
    assert_eq!(lx.peek(), Some('('));
}

#[test]
fn axes_select_in_axis_order() {
    let doc = parse("<r><a/><b>t</b><c/></r>").unwrap();
    let r = doc.root_element_id().unwrap();
    let kids = doc.get_children(r);
    assert_eq!(evaluate_axis(&doc, &Axis::Child, &NodeTest::Wildcard, r), kids);
    assert_eq!(evaluate_axis(&doc, &Axis::Child, &NodeTest::Name("b".into()), r), vec![kids[1]]);
    let text = doc.get_children(kids[1])[0];
    assert_eq!(evaluate_axis(&doc, &Axis::Descendant, &NodeTest::Node, r), vec![kids[0], kids[1], text, kids[2]]);
    assert_eq!(evaluate_axis(&doc, &Axis::Descendant, &NodeTest::Text, r), vec![text]);
    assert_eq!(evaluate_axis(&doc, &Axis::FollowingSibling, &NodeTest::Node, kids[0]), vec![kids[1], kids[2]]);
    assert_eq!(evaluate_axis(&doc, &Axis::PrecedingSibling, &NodeTest::Node, kids[2]), vec![kids[0], kids[1]]);
    assert_eq!(evaluate_axis(&doc, &Axis::Ancestor, &NodeTest::Node, text), vec![kids[1], r, 1]);
    assert_eq!(evaluate_axis(&doc, &Axis::AncestorOrSelf, &NodeTest::Wildcard, text), vec![kids[1], r]);
    assert_eq!(evaluate_axis(&doc, &Axis::Parent, &NodeTest::Node, kids[0]), vec![r]);
    assert_eq!(evaluate_axis(&doc, &Axis::Preceding, &NodeTest::Node, 2), vec![1, 0]);
    assert_eq!(evaluate_axis(&doc, &Axis::Following, &NodeTest::Node, kids[2]), Vec::<u32>::new());
    assert_eq!(evaluate_axis(&doc, &Axis::Root, &NodeTest::Node, kids[2]), vec![1]);
    assert_eq!(evaluate_axis(&doc, &Axis::SelfAxis, &NodeTest::Name("a".into()), kids[0]), vec![kids[0]]);
}

#[test]
fn node_tests_and_string_values() {
    let doc = parse("<r>x<!--c--><b>y<![CDATA[z]]></b></r>").unwrap();
    let r = doc.root_element_id().unwrap();
    assert_eq!(get_node_text(&doc, r), "xyz");
    assert_eq!(get_node_text(&doc, 1), "xyz");
    let kids = doc.get_children(r);
    assert!(matches_node_test(&doc, kids[1], &NodeTest::Comment));
    assert!(!matches_node_test(&doc, kids[1], &NodeTest::Text));
    assert!(matches_node_test(&doc, r, &NodeTest::Name("r".into())));
    assert!(!matches_node_test(&doc, 999, &NodeTest::Node));
}
