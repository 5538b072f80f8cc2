//! Entities: the predefined entities, numeric references, custom entity
//! tables, and resolution of external entities.

pub mod mapper;
pub mod resolver;

pub use mapper::EntityMapper;
pub use resolver::{DefaultEntityResolver, EntityResolver};
