//! XPath expressions: the tokenizer, the parser and the syntax tree it
//! builds, and the axes and node tests that steps are made of.

pub mod ast;
pub mod axes;
pub mod functions;
pub mod lexer;
pub mod nodeset;
pub mod parser;

pub use ast::{Axis, NodeTest, XPathExpr, XPathOperator};
pub use lexer::{Token, XPathLexer};
pub use parser::XPathParser;
