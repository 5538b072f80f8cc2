//! Parsers: the tree-building parser and the streaming pull parser.

pub mod pull_parser;
pub mod subset;
pub mod xml_parser;

pub use pull_parser::{XmlPullAttribute, XmlPullEvent, XmlPullParser};
pub use xml_parser::XmlParser;
