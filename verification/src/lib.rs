//! Index registry and schema model of an embedded search-engine storage
//! layer: a thread-safe catalog mapping index names to lazily constructed
//! index handles backed by a single embedded key-value store, plus an
//! ordered, flag-annotated schema for the attributes of each index.

pub mod attr;
pub mod binary;
pub mod database;
pub mod error;
pub mod index;
pub mod json;
pub mod names;
pub mod ordmap;
pub mod props;
pub mod schema;
pub mod store;
pub mod text;
pub mod textform;
pub mod wire;

pub use attr::SchemaAttr;
pub use database::Database;
pub use error::RegistryError;
pub use index::Index;
pub use props::SchemaProps;
pub use schema::{Schema, SchemaBuilder, SchemaView};
