//! Resolution of external entities.

use vstd::prelude::*;
use crate::error::XmlError;

verus! {

/// Resolves external entities given their system and public identifiers.
pub trait EntityResolver {
    /// The replacement text of an external entity.
    fn resolve_entity(&self, public_id: Option<&str>, system_id: &str) -> Result<String, XmlError>;
}

/// The default resolver, which refuses every external entity.
#[derive(Debug, Clone, Default)]
pub struct DefaultEntityResolver;

impl EntityResolver for DefaultEntityResolver {
    /// Always fails with `SecurityLimitExceeded`: external entities are not fetched.
    fn resolve_entity(&self, _public_id: Option<&str>, system_id: &str) -> (r: Result<String, XmlError>)
        ensures
            r matches Err(e) && e is SecurityLimitExceeded,
            r matches Err(XmlError::SecurityLimitExceeded(m)) && m@
                == "External entity resolution is disabled by security policy for system_id '"@ + system_id@ + "'"@,
    {
        let mut msg = "External entity resolution is disabled by security policy for system_id '".to_owned();
        crate::text::push_str(&mut msg, system_id);
        crate::text::push_str(&mut msg, "'");
        Err(XmlError::SecurityLimitExceeded(msg))
    }
}

} // verus!
