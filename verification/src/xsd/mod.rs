//! XML Schema rules and validation.

pub mod schema;
pub mod validator;

pub use validator::{Compositor, XsdAttributeRule, XsdComplexType, XsdElementRule, XsdRestriction, XsdValidator};
