//! Error types for parsing, entity expansion, DTD, XSD and XPath evaluation.

use vstd::prelude::*;

verus! {

/// All error conditions of the library.
#[derive(Debug, Clone, PartialEq, Eq)]
pub enum XmlError {
    /// XML syntax or malformed token error.
    SyntaxError { message: String, line: usize, col: usize },
    /// Security limit threshold exceeded.
    SecurityLimitExceeded(String),
    /// Entity resolution or reference expansion error.
    EntityError(String),
    /// DTD constraint validation error.
    DtdError(String),
    /// XSD Schema constraint validation error.
    XsdError(String),
    /// XPath syntax or evaluation error.
    XPathError(String),
    /// Invalid node operation error.
    NodeError(String),
    /// I/O error.
    Io(String),
    /// Error while converting between values and XML text.
    SerializationError(String),
}

/// The decimal numeral of `n`.
pub open spec fn decimal(n: nat) -> Seq<char>
    decreases n,
{
    if n < 10 {
        seq![digit_char(n)]
    } else {
        decimal(n / 10).push(digit_char(n % 10))
    }
}

/// The character of a decimal digit.
pub open spec fn digit_char(d: nat) -> char {
    seq!['0', '1', '2', '3', '4', '5', '6', '7', '8', '9'][d as int]
}

/// The decimal numeral of `n`.
pub fn decimal_chars(n: usize) -> (r: Vec<char>)
    ensures
        r@ == decimal(n as nat),
    decreases n,
{
    let digits: [char; 10] = ['0', '1', '2', '3', '4', '5', '6', '7', '8', '9'];
    assert(digits@ =~= seq!['0', '1', '2', '3', '4', '5', '6', '7', '8', '9']);
    if n < 10 {
        let mut v: Vec<char> = Vec::new();
        v.push(digits[n]);
        assert(v@ =~= seq![digit_char(n as nat)]);
        v
    } else {
        let mut v = decimal_chars(n / 10);
        v.push(digits[n % 10]);
        v
    }
}

/// The text that describes an error: a label for its kind, then its
/// message (a syntax error also names its line and column).
pub open spec fn error_text(e: XmlError) -> Seq<char> {
    match e {
        XmlError::SyntaxError { message, line, col } => "Syntax error at line "@ + decimal(line as nat) + ", col "@
            + decimal(col as nat) + ": "@ + message@,
        XmlError::SecurityLimitExceeded(m) => "Security limit exceeded: "@ + m@,
        XmlError::EntityError(m) => "Entity error: "@ + m@,
        XmlError::DtdError(m) => "DTD Validation error: "@ + m@,
        XmlError::XsdError(m) => "XSD Validation error: "@ + m@,
        XmlError::XPathError(m) => "XPath error: "@ + m@,
        XmlError::NodeError(m) => "Node error: "@ + m@,
        XmlError::Io(m) => "IO error: "@ + m@,
        XmlError::SerializationError(m) => "Serialization error: "@ + m@,
    }
}

impl XmlError {
    /// The text that describes the error.
    pub fn message(&self) -> (r: String)
        ensures
            r@ == error_text(*self),
    {
        let mut out = String::new();
        match self {
            XmlError::SyntaxError { message, line, col } => {
                crate::text::push_str(&mut out, "Syntax error at line ");
                let l = decimal_chars(*line);
                crate::text::push_str(&mut out, crate::text::string_from_chars(l.as_slice()).as_str());
                crate::text::push_str(&mut out, ", col ");
                let c = decimal_chars(*col);
                crate::text::push_str(&mut out, crate::text::string_from_chars(c.as_slice()).as_str());
                crate::text::push_str(&mut out, ": ");
                crate::text::push_str(&mut out, message.as_str());
            },
            XmlError::SecurityLimitExceeded(m) => {
                crate::text::push_str(&mut out, "Security limit exceeded: ");
                crate::text::push_str(&mut out, m.as_str());
            },
            XmlError::EntityError(m) => {
                crate::text::push_str(&mut out, "Entity error: ");
                crate::text::push_str(&mut out, m.as_str());
            },
            XmlError::DtdError(m) => {
                crate::text::push_str(&mut out, "DTD Validation error: ");
                crate::text::push_str(&mut out, m.as_str());
            },
            XmlError::XsdError(m) => {
                crate::text::push_str(&mut out, "XSD Validation error: ");
                crate::text::push_str(&mut out, m.as_str());
            },
            XmlError::XPathError(m) => {
                crate::text::push_str(&mut out, "XPath error: ");
                crate::text::push_str(&mut out, m.as_str());
            },
            XmlError::NodeError(m) => {
                crate::text::push_str(&mut out, "Node error: ");
                crate::text::push_str(&mut out, m.as_str());
            },
            XmlError::Io(m) => {
                crate::text::push_str(&mut out, "IO error: ");
                crate::text::push_str(&mut out, m.as_str());
            },
            XmlError::SerializationError(m) => {
                crate::text::push_str(&mut out, "Serialization error: ");
                crate::text::push_str(&mut out, m.as_str());
            },
        }
        out
    }
}

} // verus!
