use xml_lib_rust::xpath::{Axis, NodeTest, XPathExpr, XPathOperator, XPathParser};
use xml_lib_rust::XmlError;

fn parse(s: &str) -> Result<XPathExpr, XmlError> {
    XPathParser::new(s)?.parse_expression()
}

fn child(name: &str) -> XPathExpr {
    XPathExpr::Step { axis: Axis::Child, test: NodeTest::Name(name.to_string()), predicates: Vec::new() }
}

fn num(n: &str) -> XPathExpr {
    XPathExpr::LiteralNumber(n.to_string())
}

fn bin(op: XPathOperator, l: XPathExpr, r: XPathExpr) -> XPathExpr {
    XPathExpr::BinaryOp { op, left: Box::new(l), right: Box::new(r) }
}

fn any_descendant() -> XPathExpr {
    XPathExpr::Step { axis: Axis::DescendantOrSelf, test: NodeTest::Node, predicates: Vec::new() }
}

#[test]
fn relative_path_of_two_steps() {
    assert_eq!(parse("a/b").unwrap(), XPathExpr::Path(vec![child("a"), child("b")]));
}

#[test]
fn lone_step_is_not_wrapped() {
    assert_eq!(parse("title").unwrap(), child("title"));
}

#[test]
fn lone_slash_is_the_root() {
    assert_eq!(
        parse("/").unwrap(),
        XPathExpr::Step { axis: Axis::Root, test: NodeTest::Node, predicates: Vec::new() }
    );
}

#[test]
fn multiplication_binds_tighter_than_addition() {
    assert_eq!(
        parse("1 + 2 * 3").unwrap(),
        bin(XPathOperator::Plus, num("1"), bin(XPathOperator::Multiply, num("2"), num("3")))
    );
}

#[test]
fn subtraction_groups_to_the_left() {
    assert_eq!(
        parse("5 - 2 - 1").unwrap(),
        bin(XPathOperator::Minus, bin(XPathOperator::Minus, num("5"), num("2")), num("1"))
    );
}

#[test]
fn unary_minus_subtracts_from_zero() {
    assert_eq!(parse("-1.5").unwrap(), bin(XPathOperator::Minus, num("0"), num("1.5")));
}

#[test]
fn or_binds_loosest() {
    assert_eq!(
        parse("1 = 1 or 2 < 3 and 4 div 2 mod 3").unwrap(),
        bin(
            XPathOperator::Or,
            bin(XPathOperator::Eq, num("1"), num("1")),
            bin(
                XPathOperator::And,
                bin(XPathOperator::Lt, num("2"), num("3")),
                bin(XPathOperator::Mod, bin(XPathOperator::Div, num("4"), num("2")), num("3"))
            )
        )
    );
}

#[test]
fn descendant_path_with_attribute_predicate() {
    let pred = bin(
        XPathOperator::Eq,
        XPathExpr::Step { axis: Axis::Attribute, test: NodeTest::Name("id".to_string()), predicates: Vec::new() },
        XPathExpr::LiteralString("x".to_string()),
    );
    assert_eq!(
        parse("//book[@id='x']").unwrap(),
        XPathExpr::Path(vec![
            any_descendant(),
            XPathExpr::Step { axis: Axis::Child, test: NodeTest::Name("book".to_string()), predicates: vec![pred] },
        ])
    );
}

#[test]
fn function_call_with_arguments() {
    assert_eq!(
        parse("concat('a', 1)").unwrap(),
        XPathExpr::FunctionCall {
            name: "concat".to_string(),
            args: vec![XPathExpr::LiteralString("a".to_string()), num("1")],
        }
    );
    assert_eq!(parse("last()").unwrap(), XPathExpr::FunctionCall { name: "last".to_string(), args: Vec::new() });
}

#[test]
fn explicit_axes_and_kind_tests() {
    assert_eq!(
        parse("parent::node()").unwrap(),
        XPathExpr::Step { axis: Axis::Parent, test: NodeTest::Node, predicates: Vec::new() }
    );
    assert_eq!(
        parse("child::text()").unwrap(),
        XPathExpr::Step { axis: Axis::Child, test: NodeTest::Text, predicates: Vec::new() }
    );
    assert_eq!(
        parse("..").unwrap(),
        XPathExpr::Step { axis: Axis::Parent, test: NodeTest::Node, predicates: Vec::new() }
    );
    assert_eq!(
        parse("@*").unwrap(),
        XPathExpr::Step { axis: Axis::Attribute, test: NodeTest::Wildcard, predicates: Vec::new() }
    );
}

#[test]
fn axis_name_without_colons_is_a_child_name() {
    assert_eq!(parse("ancestor").unwrap(), child("ancestor"));
}

#[test]
fn parenthesized_expression() {
    assert_eq!(
        parse("(1 + 2) * 3").unwrap(),
        bin(XPathOperator::Multiply, bin(XPathOperator::Plus, num("1"), num("2")), num("3"))
    );
}

#[test]
fn unbalanced_input_is_an_error() {
    assert!(matches!(parse("(1"), Err(XmlError::XPathError(_))));
    assert!(matches!(parse("f(1"), Err(XmlError::XPathError(_))));
    assert!(matches!(parse("a[1"), Err(XmlError::XPathError(_))));
    assert!(matches!(parse("@"), Err(XmlError::XPathError(_))));
    assert!(matches!(parse("text(x"), Err(XmlError::XPathError(_))));
    assert!(matches!(parse("1 ! 2"), Err(XmlError::XPathError(_))));
    assert!(matches!(XPathParser::new("#"), Err(XmlError::XPathError(_))));
}

#[test]
fn error_messages_name_what_was_expected() {
    match parse("(1") {
        Err(XmlError::XPathError(m)) => assert_eq!(m, "Expected ')' closing parenthesized expression"),
        other => panic!("unexpected {:?}", other),
    }
    match parse("f(1") {
        Err(XmlError::XPathError(m)) => assert_eq!(m, "Expected ')' in function call 'f'"),
        other => panic!("unexpected {:?}", other),
    }
    match parse("a[1") {
        Err(XmlError::XPathError(m)) => assert_eq!(m, "Expected ']' closing predicate"),
        other => panic!("unexpected {:?}", other),
    }
}
