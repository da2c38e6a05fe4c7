//! Serialization and deserialization of StrictYAML documents: a reader of
//! StrictYAML text into events, the decisions that turn those events into
//! the values of serde's data model, and a writer of those values as
//! StrictYAML text.
pub mod de;
pub mod emit;
pub mod error;
pub mod event;
pub mod laws;
pub mod parser;
pub mod quote;
pub mod scalar;
pub mod ser;
pub mod syntax;
pub mod text;
pub mod tree_laws;

pub use de::Deserializer;
pub use error::{Error, Marker};
pub use event::Event;
pub use ser::Serializer;
