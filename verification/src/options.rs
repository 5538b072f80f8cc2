//! Limits and switches that govern parsing.

use vstd::prelude::*;

verus! {

/// Security limits applied while parsing.
#[derive(Debug, Clone, PartialEq, Eq, Structural)]
pub struct ParseOptions {
    pub max_xml_size: usize,
    pub max_entity_expansion_depth: usize,
    pub max_nesting_depth: usize,
    pub max_element_count: usize,
    pub max_attribute_count: usize,
    pub max_total_attribute_count: usize,
    pub max_text_node_size: usize,
    pub allow_external_entities: bool,
}

impl Default for ParseOptions {
    /// 100 MiB of input, entity nesting 512, element nesting 1000, one
    /// million elements, 10 000 attributes per element, one million
    /// attributes in all, 1 MiB per text node, no external entities.
    fn default() -> (r: Self)
        ensures
            r.max_xml_size == 100 * 1024 * 1024,
            r.max_entity_expansion_depth == 512,
            r.max_nesting_depth == 1000,
            r.max_element_count == 1_000_000,
            r.max_attribute_count == 10_000,
            r.max_total_attribute_count == 1_000_000,
            r.max_text_node_size == 1024 * 1024,
            !r.allow_external_entities,
    {
        ParseOptions {
            max_xml_size: 100 * 1024 * 1024,
            max_entity_expansion_depth: 512,
            max_nesting_depth: 1000,
            max_element_count: 1_000_000,
            max_attribute_count: 10_000,
            max_total_attribute_count: 1_000_000,
            max_text_node_size: 1024 * 1024,
            allow_external_entities: false,
        }
    }
}

} // verus!
