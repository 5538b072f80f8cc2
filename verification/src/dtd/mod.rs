//! DTD rules and validation.

pub mod validator;

pub use validator::{ContentModel, DtdAttributeRule, DtdElementRule, DtdValidator};
