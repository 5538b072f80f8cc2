//! XPath expressions: the thirteen axes (and the virtual root), node tests,
//! binary operators, and the syntax tree that the parser builds of them.

use vstd::prelude::*;

verus! {

/// A direction of travel from a context node.
#[derive(Debug, Clone, Copy, PartialEq, Eq, Structural)]
pub enum Axis {
    /// The document root.
    Root,
    /// `child::`
    Child,
    /// `descendant::`
    Descendant,
    /// `parent::`
    Parent,
    /// `ancestor::`
    Ancestor,
    /// `following-sibling::`
    FollowingSibling,
    /// `preceding-sibling::`
    PrecedingSibling,
    /// `following::`
    Following,
    /// `preceding::`
    Preceding,
    /// `attribute::` or `@`
    Attribute,
    /// `namespace::`
    Namespace,
    /// `self::` or `.`
    SelfAxis,
    /// `descendant-or-self::` or `//`
    DescendantOrSelf,
    /// `ancestor-or-self::`
    AncestorOrSelf,
}

/// What a step selects among the nodes of its axis.
#[derive(Debug, Clone, PartialEq, Eq)]
pub enum NodeTest {
    /// `*`
    Wildcard,
    /// `node()`
    Node,
    /// `text()`
    Text,
    /// `comment()`
    Comment,
    /// A tag or attribute name.
    Name(String),
    /// `@*`
    AttributeWildcard,
}

/// The abstract content of a node test.
pub enum NodeTestV {
    Wildcard,
    Node,
    Text,
    Comment,
    Name(Seq<char>),
    AttributeWildcard,
}

impl View for NodeTest {
    type V = NodeTestV;

    open spec fn view(&self) -> NodeTestV {
        match self {
            NodeTest::Wildcard => NodeTestV::Wildcard,
            NodeTest::Node => NodeTestV::Node,
            NodeTest::Text => NodeTestV::Text,
            NodeTest::Comment => NodeTestV::Comment,
            NodeTest::Name(n) => NodeTestV::Name(n@),
            NodeTest::AttributeWildcard => NodeTestV::AttributeWildcard,
        }
    }
}

/// A binary operator.
#[derive(Debug, Clone, Copy, PartialEq, Eq, Structural)]
pub enum XPathOperator {
    Or,
    And,
    Eq,
    NotEq,
    Lt,
    LtEq,
    Gt,
    GtEq,
    Plus,
    Minus,
    Multiply,
    Div,
    Mod,
    Union,
}

/// The syntax tree of an XPath expression. A number keeps the text of its
/// numeral; a unary minus is read as a subtraction from the numeral `0`.
#[derive(Debug, PartialEq)]
pub enum XPathExpr {
    /// A string literal (`'cooking'`).
    LiteralString(String),
    /// A number literal (`29.99`), by its numeral.
    LiteralNumber(String),
    /// One step of a path: axis, node test and predicates.
    Step { axis: Axis, test: NodeTest, predicates: Vec<XPathExpr> },
    /// A path of several steps (`/bookstore/book[1]/title`).
    Path(Vec<XPathExpr>),
    /// A binary operation (`a + b`, `x = y`, `p and q`).
    BinaryOp { op: XPathOperator, left: Box<XPathExpr>, right: Box<XPathExpr> },
    /// A function call (`count(//book)`).
    FunctionCall { name: String, args: Vec<XPathExpr> },
    /// A variable reference (`$var`).
    VariableRef(String),
}

/// The abstract content of a syntax tree.
pub enum ExprV {
    LiteralString(Seq<char>),
    LiteralNumber(Seq<char>),
    Step { axis: Axis, test: NodeTestV, predicates: Seq<ExprV> },
    Path(Seq<ExprV>),
    BinaryOp { op: XPathOperator, left: Box<ExprV>, right: Box<ExprV> },
    FunctionCall { name: Seq<char>, args: Seq<ExprV> },
    VariableRef(Seq<char>),
}

/// The abstract content of a syntax tree.
pub open spec fn expr_view(e: XPathExpr) -> ExprV
    decreases e, 0nat,
{
    match e {
        XPathExpr::LiteralString(s) => ExprV::LiteralString(s@),
        XPathExpr::LiteralNumber(s) => ExprV::LiteralNumber(s@),
        XPathExpr::Step { axis, test, predicates } => ExprV::Step {
            axis,
            test: test@,
            predicates: exprs_view(predicates@, predicates@.len() as int),
        },
        XPathExpr::Path(steps) => ExprV::Path(exprs_view(steps@, steps@.len() as int)),
        XPathExpr::BinaryOp { op, left, right } => ExprV::BinaryOp {
            op,
            left: Box::new(expr_view(*left)),
            right: Box::new(expr_view(*right)),
        },
        XPathExpr::FunctionCall { name, args } => ExprV::FunctionCall {
            name: name@,
            args: exprs_view(args@, args@.len() as int),
        },
        XPathExpr::VariableRef(s) => ExprV::VariableRef(s@),
    }
}

/// The abstract contents of the first `n` trees of `s`.
pub open spec fn exprs_view(s: Seq<XPathExpr>, n: int) -> Seq<ExprV>
    decreases s, n,
{
    if n <= 0 || n > s.len() {
        Seq::empty()
    } else {
        exprs_view(s, n - 1).push(expr_view(s[n - 1]))
    }
}

/// The abstract contents of a list of trees.
pub open spec fn exprs_all(s: Seq<XPathExpr>) -> Seq<ExprV> {
    exprs_view(s, s.len() as int)
}

/// The first `n` trees' contents depend only on the first `n` trees.
pub proof fn lemma_exprs_prefix(a: Seq<XPathExpr>, b: Seq<XPathExpr>, n: int)
    requires
        0 <= n <= a.len(),
        n <= b.len(),
        forall|i: int| 0 <= i < n ==> a[i] == b[i],
    ensures
        exprs_view(a, n) == exprs_view(b, n),
    decreases n,
{
    if n > 0 {
        lemma_exprs_prefix(a, b, n - 1);
    }
}

/// Adding a tree to a list adds its contents.
pub proof fn lemma_exprs_push(s: Seq<XPathExpr>, x: XPathExpr)
    ensures
        exprs_all(s.push(x)) == exprs_all(s).push(expr_view(x)),
        exprs_all(s).len() == s.len(),
{
    lemma_exprs_prefix(s.push(x), s, s.len() as int);
    lemma_exprs_len(s, s.len() as int);
}

/// The contents of the first `n` trees are `n` long.
pub proof fn lemma_exprs_len(s: Seq<XPathExpr>, n: int)
    requires
        0 <= n <= s.len(),
    ensures
        exprs_view(s, n).len() == n,
        forall|i: int| 0 <= i < n ==> #[trigger] exprs_view(s, n)[i] == expr_view(s[i]),
    decreases n,
{
    if n > 0 {
        lemma_exprs_len(s, n - 1);
    }
}

impl View for XPathExpr {
    type V = ExprV;

    open spec fn view(&self) -> ExprV {
        expr_view(*self)
    }
}

} // verus!
