//! Writing documents as XML text: the indenting serializer and canonical XML.

pub mod canonical;
pub mod markup;
pub mod round_trip;
pub mod serializer;

pub use canonical::{canonicalize, CanonicalOptions, CanonicalSerializer};
pub use serializer::{SerializeOptions, XmlSerializer};
