//! One interface over the rule sets a document can be checked against.

use vstd::prelude::*;
use crate::document::Document;
use crate::dtd::validator::{dtd_valid, effective_rules, DtdValidator};
use crate::error::XmlError;
use crate::xsd::validator::{xsd_valid, XsdValidator};

verus! {

/// A rule set that an in-memory document can be checked against.
pub trait XmlValidator {
    /// Checks the document against the rule set.
    fn validate(&self, doc: &Document) -> Result<(), XmlError>;
}

impl XmlValidator for DtdValidator {
    /// Checks the document against the loaded declarations and those of its
    /// internal subset.
    fn validate(&self, doc: &Document) -> (r: Result<(), XmlError>)
        ensures
            (r is Ok) == dtd_valid(doc@, effective_rules(doc@, self@, None)),
            r matches Err(e) ==> e is DtdError,
    {
        DtdValidator::validate(self, doc)
    }
}

impl XmlValidator for XsdValidator {
    /// Checks the document against the loaded schema rules.
    fn validate(&self, doc: &Document) -> (r: Result<(), XmlError>)
        ensures
            (r is Ok) == xsd_valid(doc@, self@),
            r matches Err(e) ==> e is XsdError,
    {
        XsdValidator::validate(self, doc)
    }
}

} // verus!
