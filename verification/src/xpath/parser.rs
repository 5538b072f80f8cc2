//! The XPath parser: recursive descent with one token of look-ahead, from
//! the tokens of an expression to its syntax tree. Operators bind, from
//! loosest to tightest: `or`, `and`, `=` `!=`, `<` `<=` `>` `>=`, `+` `-`,
//! `*` `div` `mod`, unary `-`; all binary operators group to the left.

use vstd::prelude::*;
use crate::error::XmlError;
use crate::text::{push_str, str_eq};
use crate::xpath::ast::{exprs_all, exprs_view, lemma_exprs_len, lemma_exprs_push, Axis, ExprV, NodeTest, NodeTestV, XPathExpr, XPathOperator};
use crate::xpath::lexer::{at_is, lemma_token_progress, token_at, TokV, Token, XPathLexer};

verus! {

/// Where a parse stands: how far the tokenizer has read, and the current
/// (look-ahead) token.
pub struct PState {
    pub pos: int,
    pub cur: TokV,
}

/// The state after moving past the current token (none for a lexical
/// error in the token that follows).
pub open spec fn adv(s: Seq<char>, st: PState) -> Option<PState> {
    if 0 <= st.pos <= s.len() {
        match token_at(s, st.pos).0 {
            Some(t) => Some(PState { pos: token_at(s, st.pos).1, cur: t }),
            None => None,
        }
    } else {
        None
    }
}

/// How much input a state has left: the characters not yet read, and one
/// more unless the current token is the end.
pub open spec fn meas(s: Seq<char>, st: PState) -> nat {
    let rest: int = if 0 <= st.pos <= s.len() {
        s.len() - st.pos
    } else {
        0
    };
    let here: int = if st.cur is Eof {
        0
    } else {
        1
    };
    (rest + here) as nat
}

/// Moving on never adds input, and moving past a token other than the end
/// removes some.
pub proof fn lemma_adv(s: Seq<char>, st: PState)
    ensures
        adv(s, st) matches Some(st1) ==> 0 <= st1.pos <= s.len() && meas(s, st1) <= meas(s, st)
            && (!(st.cur is Eof) ==> meas(s, st1) < meas(s, st)),
{
    if 0 <= st.pos <= s.len() {
        lemma_token_progress(s, st.pos);
    }
}

/// The step that `//` stands for.
pub open spec fn any_descendant() -> ExprV {
    ExprV::Step { axis: Axis::DescendantOrSelf, test: NodeTestV::Node, predicates: Seq::empty() }
}

/// The axis that a name spells before `::`.
pub open spec fn axis_named(n: Seq<char>) -> Option<Axis> {
    if n == "child"@ {
        Some(Axis::Child)
    } else if n == "descendant"@ {
        Some(Axis::Descendant)
    } else if n == "parent"@ {
        Some(Axis::Parent)
    } else if n == "ancestor"@ {
        Some(Axis::Ancestor)
    } else if n == "following-sibling"@ {
        Some(Axis::FollowingSibling)
    } else if n == "preceding-sibling"@ {
        Some(Axis::PrecedingSibling)
    } else if n == "following"@ {
        Some(Axis::Following)
    } else if n == "preceding"@ {
        Some(Axis::Preceding)
    } else if n == "attribute"@ {
        Some(Axis::Attribute)
    } else if n == "namespace"@ {
        Some(Axis::Namespace)
    } else if n == "self"@ {
        Some(Axis::SelfAxis)
    } else if n == "descendant-or-self"@ {
        Some(Axis::DescendantOrSelf)
    } else if n == "ancestor-or-self"@ {
        Some(Axis::AncestorOrSelf)
    } else {
        None
    }
}

/// The binary operator that a token stands for at a given level of
/// binding (1 loosest, 6 tightest), if any.
pub open spec fn op_at(level: int, t: TokV) -> Option<XPathOperator> {
    if level == 1 {
        if t == TokV::Name("or"@) {
            Some(XPathOperator::Or)
        } else {
            None
        }
    } else if level == 2 {
        if t == TokV::Name("and"@) {
            Some(XPathOperator::And)
        } else {
            None
        }
    } else if level == 3 {
        match t {
            TokV::Eq => Some(XPathOperator::Eq),
            TokV::NotEq => Some(XPathOperator::NotEq),
            _ => None,
        }
    } else if level == 4 {
        match t {
            TokV::Lt => Some(XPathOperator::Lt),
            TokV::LtEq => Some(XPathOperator::LtEq),
            TokV::Gt => Some(XPathOperator::Gt),
            TokV::GtEq => Some(XPathOperator::GtEq),
            _ => None,
        }
    } else if level == 5 {
        match t {
            TokV::Plus => Some(XPathOperator::Plus),
            TokV::Minus => Some(XPathOperator::Minus),
            _ => None,
        }
    } else if level == 6 {
        if t == TokV::Star {
            Some(XPathOperator::Multiply)
        } else if t == TokV::Name("div"@) {
            Some(XPathOperator::Div)
        } else if t == TokV::Name("mod"@) {
            Some(XPathOperator::Mod)
        } else {
            None
        }
    } else {
        None
    }
}

/// An expression at binding level `level` (1 to 6; 7 is a unary
/// expression): operands of the next level joined, left to right, by the
/// operators of this one.
pub open spec fn binary(s: Seq<char>, st: PState, level: int) -> Option<(ExprV, PState)>
    decreases meas(s, st), 20 - level, 1int,
{
    if 1 <= level <= 6 {
        match binary(s, st, level + 1) {
            None => None,
            Some((left, st1)) => if meas(s, st1) <= meas(s, st) {
                binary_tail(s, st1, level, left)
            } else {
                None
            },
        }
    } else if level == 7 {
        unary(s, st)
    } else {
        None
    }
}

/// The rest of an expression at binding level `level` after its first
/// operands, which make up `left`.
pub open spec fn binary_tail(s: Seq<char>, st: PState, level: int, left: ExprV) -> Option<
    (ExprV, PState),
>
    decreases meas(s, st), 20 - level, 0int,
{
    if 1 <= level <= 6 {
        match op_at(level, st.cur) {
            None => Some((left, st)),
            Some(op) => match adv(s, st) {
                None => None,
                Some(st1) => {
                    proof {
                        lemma_adv(s, st);
                    }
                    match binary(s, st1, level + 1) {
                        None => None,
                        Some((right, st2)) => if meas(s, st2) <= meas(s, st1) {
                            binary_tail(
                                s,
                                st2,
                                level,
                                ExprV::BinaryOp { op, left: Box::new(left), right: Box::new(right) },
                            )
                        } else {
                            None
                        },
                    }
                },
            },
        }
    } else {
        Some((left, st))
    }
}

/// A whole expression.
pub open spec fn expression(s: Seq<char>, st: PState) -> Option<(ExprV, PState)>
    decreases meas(s, st), 20int, 2int,
{
    binary(s, st, 1)
}

/// A unary expression: `-` before a unary expression, or a path.
pub open spec fn unary(s: Seq<char>, st: PState) -> Option<(ExprV, PState)>
    decreases meas(s, st), 12int, 0int,
{
    if st.cur is Minus {
        match adv(s, st) {
            None => None,
            Some(st1) => {
                proof {
                    lemma_adv(s, st);
                }
                match unary(s, st1) {
                    None => None,
                    Some((operand, st2)) => Some(
                        (
                            ExprV::BinaryOp {
                                op: XPathOperator::Minus,
                                left: Box::new(ExprV::LiteralNumber("0"@)),
                                right: Box::new(operand),
                            },
                            st2,
                        ),
                    ),
                }
            },
        }
    } else {
        path(s, st)
    }
}

/// A path: an optional leading `/` or `//`, a first step or primary
/// expression, and further steps after `/` or `//`. A lone step is itself;
/// a lone `/` is the root step.
pub open spec fn path(s: Seq<char>, st: PState) -> Option<(ExprV, PState)>
    decreases meas(s, st), 11int, 0int,
{
    if st.cur is Slash {
        match adv(s, st) {
            None => None,
            Some(st1) => if st1.cur is Eof {
                Some(
                    (
                        ExprV::Step {
                            axis: Axis::Root,
                            test: NodeTestV::Node,
                            predicates: Seq::empty(),
                        },
                        st1,
                    ),
                )
            } else {
                path_from(s, st, st1, Seq::empty(), true)
            },
        }
    } else if st.cur is DoubleSlash {
        match adv(s, st) {
            None => None,
            Some(st1) => path_from(s, st, st1, seq![any_descendant()], true),
        }
    } else {
        path_from(s, st, st, Seq::empty(), false)
    }
}

/// The tree of a path of the given steps: a lone step is itself.
pub open spec fn path_wrap(t: Option<(Seq<ExprV>, PState)>) -> Option<(ExprV, PState)> {
    match t {
        None => None,
        Some((all, st)) => if all.len() == 1 {
            Some((all[0], st))
        } else {
            Some((ExprV::Path(all), st))
        },
    }
}

/// A path after its leading `/` or `//` (which gave `steps`), at `st1`;
/// `st0` is where the path began.
pub open spec fn path_from(
    s: Seq<char>,
    st0: PState,
    st1: PState,
    steps: Seq<ExprV>,
    absolute: bool,
) -> Option<(ExprV, PState)>
    decreases meas(s, st0), 10int, 0int,
{
    if absolute && (st1.cur is Eof || st1.cur is RightParen || st1.cur is RightBracket) {
        Some((ExprV::Path(steps), st1))
    } else if meas(s, st1) <= meas(s, st0) {
        match primary(s, st1) {
            None => None,
            Some((first, st2)) => if meas(s, st2) <= meas(s, st0) {
                path_wrap(path_tail(s, st2, steps.push(first)))
            } else {
                None
            },
        }
    } else {
        None
    }
}

/// The further steps of a path, each after `/` or `//`, added to `steps`.
pub open spec fn path_tail(s: Seq<char>, st: PState, steps: Seq<ExprV>) -> Option<
    (Seq<ExprV>, PState),
>
    decreases meas(s, st), 9int, 0int,
{
    if st.cur is Slash || st.cur is DoubleSlash {
        match adv(s, st) {
            None => None,
            Some(st1) => {
                proof {
                    lemma_adv(s, st);
                }
                let steps1 = if st.cur is DoubleSlash {
                    steps.push(any_descendant())
                } else {
                    steps
                };
                if st1.cur is Eof {
                    path_tail(s, st1, steps1)
                } else {
                    match step(s, st1) {
                        None => None,
                        Some((e, st2)) => if meas(s, st2) <= meas(s, st1) {
                            path_tail(s, st2, steps1.push(e))
                        } else {
                            None
                        },
                    }
                }
            },
        }
    } else {
        Some((steps, st))
    }
}

/// A primary expression (a literal, a parenthesized expression or a
/// function call) or else a step.
pub open spec fn primary(s: Seq<char>, st: PState) -> Option<(ExprV, PState)>
    decreases meas(s, st), 8int, 0int,
{
    proof {
        lemma_adv(s, st);
    }
    match st.cur {
        TokV::LiteralString(v) => match adv(s, st) {
            None => None,
            Some(st1) => Some((ExprV::LiteralString(v), st1)),
        },
        TokV::LiteralNumber(n) => match adv(s, st) {
            None => None,
            Some(st1) => Some((ExprV::LiteralNumber(n), st1)),
        },
        TokV::LeftParen => match adv(s, st) {
            None => None,
            Some(st1) => match expression(s, st1) {
                None => None,
                Some((e, st2)) => match adv(s, st2) {
                    None => None,
                    Some(st3) => if st2.cur is RightParen {
                        Some((e, st3))
                    } else {
                        None
                    },
                },
            },
        },
        TokV::Name(n) => if at_is(s, st.pos, '(') {
            call(s, st, n)
        } else {
            step(s, st)
        },
        _ => step(s, st),
    }
}

/// A call of the function `n`, whose name is the current token and is
/// followed by `(`.
pub open spec fn call(s: Seq<char>, st: PState, n: Seq<char>) -> Option<(ExprV, PState)>
    decreases meas(s, st), 7int, 0int,
{
    proof {
        lemma_adv(s, st);
    }
    if st.cur is Eof {
        None
    } else {
        match adv(s, st) {
            None => None,
            Some(st1) => match adv(s, st1) {
                None => None,
                Some(st2) => {
                    proof {
                        lemma_adv(s, st1);
                    }
                    call_finish(
                        s,
                        n,
                        if st2.cur is RightParen {
                            Some((Seq::empty(), st2))
                        } else {
                            call_args(s, st2, Seq::empty())
                        },
                    )
                },
            },
        }
    }
}

/// A call of `n` with the arguments `got`, closed by `)`.
pub open spec fn call_finish(s: Seq<char>, n: Seq<char>, got: Option<(Seq<ExprV>, PState)>) -> Option<
    (ExprV, PState),
> {
    match got {
        None => None,
        Some((args, st3)) => match adv(s, st3) {
            None => None,
            Some(st4) => if st3.cur is RightParen {
                Some((ExprV::FunctionCall { name: n, args }, st4))
            } else {
                None
            },
        },
    }
}

/// The arguments of a call from `st` on, separated by `,`, added to `acc`.
pub open spec fn call_args(s: Seq<char>, st: PState, acc: Seq<ExprV>) -> Option<
    (Seq<ExprV>, PState),
>
    decreases meas(s, st), 30int, 0int,
{
    match expression(s, st) {
        None => None,
        Some((e, st1)) => if meas(s, st1) <= meas(s, st) && st1.cur is Comma {
            match adv(s, st1) {
                None => None,
                Some(st2) => {
                    proof {
                        lemma_adv(s, st1);
                    }
                    call_args(s, st2, acc.push(e))
                },
            }
        } else {
            Some((acc.push(e), st1))
        },
    }
}

/// The test a step names: `*` for any element, `name` for a name; `text()`,
/// `node()` and `comment()` for their kinds.
pub open spec fn node_test(s: Seq<char>, st: PState) -> Option<(NodeTestV, PState)> {
    match st.cur {
        TokV::Star => match adv(s, st) {
            None => None,
            Some(st1) => Some((NodeTestV::Wildcard, st1)),
        },
        TokV::Name(n) => match adv(s, st) {
            None => None,
            Some(st1) => if (n == "text"@ || n == "node"@ || n == "comment"@) && st1.cur is LeftParen {
                match adv(s, st1) {
                    None => None,
                    Some(st2) => match adv(s, st2) {
                        None => None,
                        Some(st3) => if st2.cur is RightParen {
                            Some(
                                (
                                    if n == "text"@ {
                                        NodeTestV::Text
                                    } else if n == "node"@ {
                                        NodeTestV::Node
                                    } else {
                                        NodeTestV::Comment
                                    },
                                    st3,
                                ),
                            )
                        } else {
                            None
                        },
                    },
                }
            } else {
                Some((NodeTestV::Name(n), st1))
            },
        },
        _ => None,
    }
}

/// A step: `.`, `..`, or an optional axis (`@` or `axis::`), a node test
/// and predicates. An axis name without `::` is a child step of that name.
pub open spec fn step(s: Seq<char>, st: PState) -> Option<(ExprV, PState)>
    decreases meas(s, st), 7int, 0int,
{
    proof {
        lemma_adv(s, st);
    }
    match st.cur {
        TokV::At => match adv(s, st) {
            None => None,
            Some(st1) => tested_step(s, st1, Axis::Attribute),
        },
        TokV::Dot => match adv(s, st) {
            None => None,
            Some(st1) => Some(
                (
                    ExprV::Step {
                        axis: Axis::SelfAxis,
                        test: NodeTestV::Node,
                        predicates: Seq::empty(),
                    },
                    st1,
                ),
            ),
        },
        TokV::DoubleDot => match adv(s, st) {
            None => None,
            Some(st1) => Some(
                (
                    ExprV::Step {
                        axis: Axis::Parent,
                        test: NodeTestV::Node,
                        predicates: Seq::empty(),
                    },
                    st1,
                ),
            ),
        },
        TokV::Name(n) => match axis_named(n) {
            Some(ax) => axis_step(s, st, ax, n),
            None => tested_step(s, st, Axis::Child),
        },
        _ => tested_step(s, st, Axis::Child),
    }
}

/// A step that starts with the name `n` of the axis `ax`: on that axis
/// when `::` follows, else a child step for that name.
pub open spec fn axis_step(s: Seq<char>, st: PState, ax: Axis, n: Seq<char>) -> Option<(ExprV, PState)>
    decreases meas(s, st), 6int, 5int,
{
    proof {
        lemma_adv(s, st);
    }
    if st.cur is Eof {
        None
    } else {
        match adv(s, st) {
            None => None,
            Some(st1) => if st1.cur is ColonColon {
                proof {
                    lemma_adv(s, st1);
                }
                match adv(s, st1) {
                    None => None,
                    Some(st2) => tested_step(s, st2, ax),
                }
            } else {
                named_step(s, st1, Axis::Child, n)
            },
        }
    }
}

/// The node test at `st` and the predicates after it, as a step on
/// `axis`.
pub open spec fn tested_step(s: Seq<char>, st: PState, axis: Axis) -> Option<(ExprV, PState)>
    decreases meas(s, st), 6int, 0int,
{
    match node_test(s, st) {
        None => None,
        Some((test, st1)) => if meas(s, st1) <= meas(s, st) {
            match predicates(s, st1, Seq::empty()) {
                None => None,
                Some((ps, st2)) => Some((ExprV::Step { axis, test, predicates: ps }, st2)),
            }
        } else {
            None
        },
    }
}

/// The predicates at `st` after the name `n`, as a step on `axis` that
/// tests for that name (any element for `*`).
pub open spec fn named_step(s: Seq<char>, st: PState, axis: Axis, n: Seq<char>) -> Option<
    (ExprV, PState),
>
    decreases meas(s, st), 6int, 0int,
{
    match predicates(s, st, Seq::empty()) {
        None => None,
        Some((ps, st1)) => Some(
            (
                ExprV::Step {
                    axis,
                    test: if n == "*"@ {
                        NodeTestV::Wildcard
                    } else {
                        NodeTestV::Name(n)
                    },
                    predicates: ps,
                },
                st1,
            ),
        ),
    }
}

/// The predicates `[expression]` from `st` on, added to `acc`.
pub open spec fn predicates(s: Seq<char>, st: PState, acc: Seq<ExprV>) -> Option<
    (Seq<ExprV>, PState),
>
    decreases meas(s, st), 5int, 0int,
{
    if st.cur is LeftBracket {
        match adv(s, st) {
            None => None,
            Some(st1) => {
                proof {
                    lemma_adv(s, st);
                }
                match expression(s, st1) {
                    None => None,
                    Some((e, st2)) => match adv(s, st2) {
                        None => None,
                        Some(st3) => {
                            proof {
                                lemma_adv(s, st2);
                            }
                            if st2.cur is RightBracket && meas(s, st2) <= meas(s, st1) {
                                predicates(s, st3, acc.push(e))
                            } else {
                                None
                            }
                        },
                    },
                }
            },
        }
    } else {
        Some((acc, st))
    }
}

/// The abstract state of a parser: the characters of the expression and
/// where the parse stands.
pub struct ParserV {
    pub input: Seq<char>,
    pub st: PState,
}

/// The parse `want`, begun at `st0`, is what was done: `r` is its tree and
/// `fin` the state after it, or `r` is an error where it fails.
pub open spec fn gave(
    s: Seq<char>,
    st0: PState,
    want: Option<(ExprV, PState)>,
    r: Result<XPathExpr, XmlError>,
    fin: ParserV,
) -> bool {
    &&& fin.input == s
    &&& match want {
        Some((e, st1)) => r matches Ok(x) && x@ == e && fin.st == st1 && meas(s, st1) <= meas(s, st0),
        None => r matches Err(x) && x is XPathError,
    }
}

/// A recursive-descent parser over the tokens of an XPath expression.
pub struct XPathParser {
    lexer: XPathLexer,
    current: Token,
}

impl View for XPathParser {
    type V = ParserV;

    closed spec fn view(&self) -> ParserV {
        ParserV { input: self.lexer@.input, st: PState { pos: self.lexer@.pos as int, cur: self.current@ } }
    }
}

/// The step that `//` stands for.
fn descendant_step() -> (r: XPathExpr)
    ensures
        r@ == any_descendant(),
{
    let r = XPathExpr::Step { axis: Axis::DescendantOrSelf, test: NodeTest::Node, predicates: Vec::new() };
    assert(exprs_view(Seq::<XPathExpr>::empty(), 0) == Seq::<ExprV>::empty());
    r
}

/// The axis that `name` spells before `::`.
fn axis_by_name(name: &str) -> (r: Option<Axis>)
    ensures
        r == axis_named(name@),
{
    if str_eq(name, "child") {
        Some(Axis::Child)
    } else if str_eq(name, "descendant") {
        Some(Axis::Descendant)
    } else if str_eq(name, "parent") {
        Some(Axis::Parent)
    } else if str_eq(name, "ancestor") {
        Some(Axis::Ancestor)
    } else if str_eq(name, "following-sibling") {
        Some(Axis::FollowingSibling)
    } else if str_eq(name, "preceding-sibling") {
        Some(Axis::PrecedingSibling)
    } else if str_eq(name, "following") {
        Some(Axis::Following)
    } else if str_eq(name, "preceding") {
        Some(Axis::Preceding)
    } else if str_eq(name, "attribute") {
        Some(Axis::Attribute)
    } else if str_eq(name, "namespace") {
        Some(Axis::Namespace)
    } else if str_eq(name, "self") {
        Some(Axis::SelfAxis)
    } else if str_eq(name, "descendant-or-self") {
        Some(Axis::DescendantOrSelf)
    } else if str_eq(name, "ancestor-or-self") {
        Some(Axis::AncestorOrSelf)
    } else {
        None
    }
}

/// An XPath error with the given message.
fn parse_error(msg: &str) -> (r: XmlError)
    ensures
        r is XPathError,
        r matches XmlError::XPathError(m) && m@ == msg@,
{
    XmlError::XPathError(msg.to_owned())
}

impl XPathParser {
    /// A parser over `input`, at its first token.
    pub fn new(input: &str) -> (r: Result<Self, XmlError>)
        ensures
            match adv(input@, PState { pos: 0, cur: TokV::Eof }) {
                Some(st) => r matches Ok(p) && p@ == (ParserV { input: input@, st }),
                None => r matches Err(x) && x is XPathError,
            },
    {
        let mut lexer = XPathLexer::new(input);
        let current = lexer.next_token()?;
        Ok(XPathParser { lexer, current })
    }

    /// Moves past the current token, returning it.
    fn advance(&mut self) -> (r: Result<Token, XmlError>)
        ensures
            final(self)@.input == old(self)@.input,
            match adv(old(self)@.input, old(self)@.st) {
                Some(st1) => r matches Ok(t) && t@ == old(self)@.st.cur && final(self)@.st == st1,
                None => r matches Err(x) && x is XPathError,
            },
            adv(old(self)@.input, old(self)@.st) is Some ==> meas(final(self)@.input, final(self)@.st)
                <= meas(old(self)@.input, old(self)@.st) && (!(old(self)@.st.cur is Eof) ==> meas(
                final(self)@.input,
                final(self)@.st,
            ) < meas(old(self)@.input, old(self)@.st)),
    {
        proof {
            use_type_invariant(&self.lexer);
            lemma_adv(self@.input, self@.st);
        }
        let mut prev = Token::Eof;
        core::mem::swap(&mut self.current, &mut prev);
        self.current = self.lexer.next_token()?;
        Ok(prev)
    }

    /// Whether the current token is the name `lit`.
    fn current_is_name(&self, lit: &str) -> (r: bool)
        ensures
            r == (self@.st.cur == TokV::Name(lit@)),
    {
        match &self.current {
            Token::Name(n) => str_eq(n.as_str(), lit),
            _ => false,
        }
    }

    /// Whether `(` follows the current token immediately.
    fn paren_follows(&self) -> (r: bool)
        ensures
            r == at_is(self@.input, self@.st.pos, '('),
    {
        match self.lexer.peek() {
            Some(c) => c == '(',
            None => false,
        }
    }

    /// The operator of binding level `level` that the current token is.
    fn operator_at(&self, level: u8) -> (r: Option<XPathOperator>)
        requires
            1 <= level <= 6,
        ensures
            r == op_at(level as int, self@.st.cur),
    {
        if level == 1 {
            if self.current_is_name("or") {
                Some(XPathOperator::Or)
            } else {
                None
            }
        } else if level == 2 {
            if self.current_is_name("and") {
                Some(XPathOperator::And)
            } else {
                None
            }
        } else if level == 3 {
            match &self.current {
                Token::Eq => Some(XPathOperator::Eq),
                Token::NotEq => Some(XPathOperator::NotEq),
                _ => None,
            }
        } else if level == 4 {
            match &self.current {
                Token::Lt => Some(XPathOperator::Lt),
                Token::LtEq => Some(XPathOperator::LtEq),
                Token::Gt => Some(XPathOperator::Gt),
                Token::GtEq => Some(XPathOperator::GtEq),
                _ => None,
            }
        } else if level == 5 {
            match &self.current {
                Token::Plus => Some(XPathOperator::Plus),
                Token::Minus => Some(XPathOperator::Minus),
                _ => None,
            }
        } else if matches!(self.current, Token::Star) {
            Some(XPathOperator::Multiply)
        } else if self.current_is_name("div") {
            Some(XPathOperator::Div)
        } else if self.current_is_name("mod") {
            Some(XPathOperator::Mod)
        } else {
            None
        }
    }

    /// Parses a whole expression from the current token on.
    pub fn parse_expression(&mut self) -> (r: Result<XPathExpr, XmlError>)
        ensures
            gave(old(self)@.input, old(self)@.st, expression(old(self)@.input, old(self)@.st), r, final(self)@),
        decreases meas(old(self)@.input, old(self)@.st), 20int, 2int,
    {
        self.parse_binary(1)
    }

    /// Parses an expression at binding level `level` (7: a unary
    /// expression).
    #[verifier::spinoff_prover]
    fn parse_binary(&mut self, level: u8) -> (r: Result<XPathExpr, XmlError>)
        requires
            1 <= level <= 7,
        ensures
            gave(old(self)@.input, old(self)@.st, binary(old(self)@.input, old(self)@.st, level as int), r, final(self)@),
        decreases meas(old(self)@.input, old(self)@.st), 20 - level, 1int,
    {
        let ghost s = self@.input;
        let ghost st0 = self@.st;
        if level == 7 {
            return self.parse_unary();
        }
        let mut left = self.parse_binary(level + 1)?;
        loop
            invariant
                1 <= level <= 6,
                self@.input == s,
                s == old(self)@.input,
                st0 == old(self)@.st,
                meas(s, self@.st) <= meas(s, st0),
                binary(s, st0, level as int) == binary_tail(s, self@.st, level as int, left@),
            decreases meas(s, self@.st),
        {
            let op = match self.operator_at(level) {
                Some(op) => op,
                None => {
                    return Ok(left);
                },
            };
            self.advance()?;
            let right = self.parse_binary(level + 1)?;
            left = XPathExpr::BinaryOp { op, left: Box::new(left), right: Box::new(right) };
        }
    }

    /// Parses a unary expression.
    fn parse_unary(&mut self) -> (r: Result<XPathExpr, XmlError>)
        ensures
            gave(old(self)@.input, old(self)@.st, unary(old(self)@.input, old(self)@.st), r, final(self)@),
        decreases meas(old(self)@.input, old(self)@.st), 12int, 0int,
    {
        if matches!(self.current, Token::Minus) {
            self.advance()?;
            let operand = self.parse_unary()?;
            let zero = XPathExpr::LiteralNumber("0".to_owned());
            assert(zero@ == ExprV::LiteralNumber("0"@));
            return Ok(XPathExpr::BinaryOp { op: XPathOperator::Minus, left: Box::new(zero), right: Box::new(operand) });
        }
        self.parse_path()
    }

    /// Whether the current token is `/` or `//`.
    fn at_separator(&self) -> (r: bool)
        ensures
            r == (self@.st.cur is Slash || self@.st.cur is DoubleSlash),
    {
        match &self.current {
            Token::Slash => true,
            Token::DoubleSlash => true,
            _ => false,
        }
    }

    /// Parses a path.
    #[verifier::rlimit(60)]
    #[verifier::spinoff_prover]
    fn parse_path(&mut self) -> (r: Result<XPathExpr, XmlError>)
        ensures
            gave(old(self)@.input, old(self)@.st, path(old(self)@.input, old(self)@.st), r, final(self)@),
        decreases meas(old(self)@.input, old(self)@.st), 11int, 0int,
    {
        let ghost s = self@.input;
        let ghost st0 = self@.st;
        proof {
            use_type_invariant(&self.lexer);
            lemma_adv(s, st0);
        }
        let mut steps: Vec<XPathExpr> = Vec::new();
        let mut is_absolute = false;
        if matches!(self.current, Token::Slash) {
            self.advance()?;
            is_absolute = true;
            if matches!(self.current, Token::Eof) {
                return Ok(XPathExpr::Step { axis: Axis::Root, test: NodeTest::Node, predicates: Vec::new() });
            }
        } else if matches!(self.current, Token::DoubleSlash) {
            self.advance()?;
            is_absolute = true;
            let d = descendant_step();
            proof {
                lemma_exprs_push(steps@, d);
                assert(exprs_all(Seq::<XPathExpr>::empty()) =~= Seq::<ExprV>::empty());
            }
            steps.push(d);
        }
        assert(path(s, st0) == path_from(s, st0, self@.st, exprs_all(steps@), is_absolute));
        if is_absolute && (matches!(self.current, Token::Eof) || matches!(self.current, Token::RightParen)
            || matches!(self.current, Token::RightBracket)) {
            return Ok(XPathExpr::Path(steps));
        }
        let first = self.parse_primary_or_step()?;
        proof {
            lemma_exprs_push(steps@, first);
        }
        steps.push(first);
        let ghost target = path_tail(s, self@.st, exprs_all(steps@));
        assert(path(s, st0) == path_wrap(target));
        while self.at_separator()
            invariant
                self@.input == s,
                s == old(self)@.input,
                st0 == old(self)@.st,
                meas(s, self@.st) <= meas(s, st0),
                path_tail(s, self@.st, exprs_all(steps@)) == target,
                path(s, st0) == path_wrap(target),
            decreases meas(s, self@.st),
        {
            let is_dsc = match self.advance()? {
                Token::DoubleSlash => true,
                _ => false,
            };
            if is_dsc {
                let d = descendant_step();
                proof {
                    lemma_exprs_push(steps@, d);
                }
                steps.push(d);
            }
            if !matches!(self.current, Token::Eof) {
                let next = self.parse_step()?;
                proof {
                    lemma_exprs_push(steps@, next);
                }
                steps.push(next);
            }
        }
        proof {
            lemma_exprs_len(steps@, steps@.len() as int);
        }
        if steps.len() == 1 {
            Ok(steps.remove(0))
        } else {
            Ok(XPathExpr::Path(steps))
        }
    }
}


impl XPathParser {
    /// Parses a primary expression (a literal, a parenthesized expression
    /// or a function call) or else a step.
    #[verifier::spinoff_prover]
    fn parse_primary_or_step(&mut self) -> (r: Result<XPathExpr, XmlError>)
        ensures
            gave(old(self)@.input, old(self)@.st, primary(old(self)@.input, old(self)@.st), r, final(self)@),
        decreases meas(old(self)@.input, old(self)@.st), 8int, 0int,
    {
        let ghost s = self@.input;
        let ghost st0 = self@.st;
        proof {
            use_type_invariant(&self.lexer);
            lemma_adv(s, st0);
        }
        let lit: Option<XPathExpr> = match &self.current {
            Token::LiteralString(v) => Some(XPathExpr::LiteralString(v.clone())),
            Token::LiteralNumber(n) => Some(XPathExpr::LiteralNumber(n.clone())),
            _ => None,
        };
        if let Some(e) = lit {
            self.advance()?;
            return Ok(e);
        }
        if matches!(self.current, Token::LeftParen) {
            self.advance()?;
            let expr = self.parse_expression()?;
            match self.advance()? {
                Token::RightParen => {},
                _ => {
                    return Err(parse_error("Expected ')' closing parenthesized expression"));
                },
            }
            return Ok(expr);
        }
        let call_name: Option<String> = match &self.current {
            Token::Name(n) => if self.paren_follows() {
                Some(n.clone())
            } else {
                None
            },
            _ => None,
        };
        match call_name {
            Some(fname) => self.parse_call(fname),
            None => self.parse_step(),
        }
    }

    /// Parses a call of `fname`, whose name is the current token.
    #[verifier::spinoff_prover]
    fn parse_call(&mut self, fname: String) -> (r: Result<XPathExpr, XmlError>)
        requires
            old(self)@.st.cur == TokV::Name(fname@),
        ensures
            gave(old(self)@.input, old(self)@.st, call(old(self)@.input, old(self)@.st, fname@), r, final(self)@),
        decreases meas(old(self)@.input, old(self)@.st), 7int, 0int,
    {
        let ghost s = self@.input;
        let ghost st0 = self@.st;
        proof {
            use_type_invariant(&self.lexer);
            lemma_adv(s, st0);
        }
        self.advance()?;
        let ghost st1 = self@.st;
        proof {
            use_type_invariant(&self.lexer);
            lemma_adv(s, st1);
        }
        self.advance()?;
        let ghost st2 = self@.st;
        let ghost target: Option<(Seq<ExprV>, PState)> = if st2.cur is RightParen {
            Some((Seq::empty(), st2))
        } else {
            call_args(s, st2, Seq::empty())
        };
        assert(call(s, st0, fname@) == call_finish(s, fname@, target));
        let mut args: Vec<XPathExpr> = Vec::new();
        assert(exprs_all(args@) =~= Seq::<ExprV>::empty());
        if !matches!(self.current, Token::RightParen) {
            loop
                invariant_except_break
                    call_args(s, self@.st, exprs_all(args@)) == target,
                invariant
                    self@.input == s,
                    s == old(self)@.input,
                    st0 == old(self)@.st,
                    meas(s, self@.st) <= meas(s, st2),
                    meas(s, st2) < meas(s, st0),
                    call(s, st0, fname@) == call_finish(s, fname@, target),
                ensures
                    target == Some((exprs_all(args@), self@.st)),
                decreases meas(s, self@.st),
            {
                let a = self.parse_expression()?;
                proof {
                    lemma_exprs_push(args@, a);
                }
                args.push(a);
                if matches!(self.current, Token::Comma) {
                    self.advance()?;
                } else {
                    break;
                }
            }
        }
        match self.advance()? {
            Token::RightParen => {},
            _ => {
                let mut msg = "Expected ')' in function call '".to_owned();
                push_str(&mut msg, fname.as_str());
                push_str(&mut msg, "'");
                return Err(XmlError::XPathError(msg));
            },
        }
        Ok(XPathExpr::FunctionCall { name: fname, args })
    }

    /// Parses a step.
    #[verifier::spinoff_prover]
    fn parse_step(&mut self) -> (r: Result<XPathExpr, XmlError>)
        ensures
            gave(old(self)@.input, old(self)@.st, step(old(self)@.input, old(self)@.st), r, final(self)@),
        decreases meas(old(self)@.input, old(self)@.st), 7int, 0int,
    {
        let ghost s = self@.input;
        let ghost st0 = self@.st;
        proof {
            use_type_invariant(&self.lexer);
            lemma_adv(s, st0);
        }
        assert(exprs_view(Seq::<XPathExpr>::empty(), 0) == Seq::<ExprV>::empty());
        if matches!(self.current, Token::At) {
            self.advance()?;
            return self.parse_tested_step(Axis::Attribute);
        } else if matches!(self.current, Token::Dot) {
            self.advance()?;
            return Ok(XPathExpr::Step { axis: Axis::SelfAxis, test: NodeTest::Node, predicates: Vec::new() });
        } else if matches!(self.current, Token::DoubleDot) {
            self.advance()?;
            return Ok(XPathExpr::Step { axis: Axis::Parent, test: NodeTest::Node, predicates: Vec::new() });
        }
        let named: Option<(String, Axis)> = match &self.current {
            Token::Name(name) => match axis_by_name(name.as_str()) {
                Some(ax) => Some((name.clone(), ax)),
                None => None,
            },
            _ => None,
        };
        match named {
            Some((name_str, ax)) => self.parse_axis_step(name_str, ax),
            None => self.parse_tested_step(Axis::Child),
        }
    }

    /// Parses a step that starts with `name`, the name of the axis `ax`.
    fn parse_axis_step(&mut self, name: String, ax: Axis) -> (r: Result<XPathExpr, XmlError>)
        requires
            old(self)@.st.cur == TokV::Name(name@),
        ensures
            gave(old(self)@.input, old(self)@.st, axis_step(old(self)@.input, old(self)@.st, ax, name@), r, final(self)@),
        decreases meas(old(self)@.input, old(self)@.st), 6int, 5int,
    {
        let ghost s = self@.input;
        let ghost st0 = self@.st;
        proof {
            use_type_invariant(&self.lexer);
            lemma_adv(s, st0);
        }
        self.advance()?;
        proof {
            use_type_invariant(&self.lexer);
            lemma_adv(s, self@.st);
        }
        if matches!(self.current, Token::ColonColon) {
            self.advance()?;
            self.parse_tested_step(ax)
        } else {
            self.finish_step_with_name(Axis::Child, name)
        }
    }

    /// Parses a node test and the predicates after it, as a step on `axis`.
    fn parse_tested_step(&mut self, axis: Axis) -> (r: Result<XPathExpr, XmlError>)
        ensures
            gave(old(self)@.input, old(self)@.st, tested_step(old(self)@.input, old(self)@.st, axis), r, final(self)@),
        decreases meas(old(self)@.input, old(self)@.st), 6int, 0int,
    {
        let test = self.parse_node_test()?;
        let predicates = self.parse_predicates()?;
        Ok(XPathExpr::Step { axis, test, predicates })
    }

    /// Parses the predicates after the name `name`, as a step on `axis`
    /// that tests for that name.
    fn finish_step_with_name(&mut self, axis: Axis, name: String) -> (r: Result<XPathExpr, XmlError>)
        ensures
            gave(old(self)@.input, old(self)@.st, named_step(old(self)@.input, old(self)@.st, axis, name@), r, final(self)@),
        decreases meas(old(self)@.input, old(self)@.st), 6int, 0int,
    {
        let test = if str_eq(name.as_str(), "*") {
            NodeTest::Wildcard
        } else {
            NodeTest::Name(name)
        };
        let predicates = self.parse_predicates()?;
        Ok(XPathExpr::Step { axis, test, predicates })
    }

    /// Parses a node test.
    fn parse_node_test(&mut self) -> (r: Result<NodeTest, XmlError>)
        ensures
            final(self)@.input == old(self)@.input,
            match node_test(old(self)@.input, old(self)@.st) {
                Some((t, st1)) => r matches Ok(x) && x@ == t && final(self)@.st == st1 && meas(
                    old(self)@.input,
                    st1,
                ) <= meas(old(self)@.input, old(self)@.st),
                None => r matches Err(x) && x is XPathError,
            },
    {
        let ghost s = self@.input;
        let ghost st0 = self@.st;
        proof {
            use_type_invariant(&self.lexer);
            lemma_adv(s, st0);
        }
        if matches!(self.current, Token::Star) {
            self.advance()?;
            return Ok(NodeTest::Wildcard);
        }
        let name = match &self.current {
            Token::Name(n) => n.clone(),
            _ => {
                return Err(parse_error("Expected node test in XPath step"));
            },
        };
        self.advance()?;
        let ghost st1 = self@.st;
        proof {
            use_type_invariant(&self.lexer);
            lemma_adv(s, st1);
        }
        let is_text = str_eq(name.as_str(), "text");
        let is_node = str_eq(name.as_str(), "node");
        let is_comment = str_eq(name.as_str(), "comment");
        if (is_text || is_node || is_comment) && matches!(self.current, Token::LeftParen) {
            self.advance()?;
            proof {
                use_type_invariant(&self.lexer);
                lemma_adv(s, self@.st);
            }
            match self.advance()? {
                Token::RightParen => {},
                _ => {
                    return Err(
                        parse_error(
                            if is_text {
                                "Expected ')' after text("
                            } else if is_node {
                                "Expected ')' after node("
                            } else {
                                "Expected ')' after comment("
                            },
                        ),
                    );
                },
            }
            if is_text {
                Ok(NodeTest::Text)
            } else if is_node {
                Ok(NodeTest::Node)
            } else {
                Ok(NodeTest::Comment)
            }
        } else {
            Ok(NodeTest::Name(name))
        }
    }

    /// Parses the predicates `[expression]` that follow a step.
    fn parse_predicates(&mut self) -> (r: Result<Vec<XPathExpr>, XmlError>)
        ensures
            final(self)@.input == old(self)@.input,
            match predicates(old(self)@.input, old(self)@.st, Seq::empty()) {
                Some((ps, st1)) => r matches Ok(x) && exprs_all(x@) == ps && final(self)@.st == st1
                    && meas(old(self)@.input, st1) <= meas(old(self)@.input, old(self)@.st),
                None => r matches Err(x) && x is XPathError,
            },
        decreases meas(old(self)@.input, old(self)@.st), 5int, 0int,
    {
        let ghost s = self@.input;
        let ghost st0 = self@.st;
        let mut preds: Vec<XPathExpr> = Vec::new();
        assert(exprs_all(preds@) =~= Seq::<ExprV>::empty());
        while matches!(self.current, Token::LeftBracket)
            invariant
                self@.input == s,
                s == old(self)@.input,
                st0 == old(self)@.st,
                meas(s, self@.st) <= meas(s, st0),
                predicates(s, st0, Seq::empty()) == predicates(s, self@.st, exprs_all(preds@)),
            decreases meas(s, self@.st),
        {
            self.advance()?;
            let e = self.parse_expression()?;
            match self.advance()? {
                Token::RightBracket => {},
                _ => {
                    return Err(parse_error("Expected ']' closing predicate"));
                },
            }
            proof {
                lemma_exprs_push(preds@, e);
            }
            preds.push(e);
        }
        Ok(preds)
    }
}

} // verus!
