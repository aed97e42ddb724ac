//! A handle to one named index: its name, its immutable schema, and a
//! clone of the store that backs it. Handles are cheap to clone and are
//! shared between the registry's cache and its callers.

use crate::binary::{decode_binary, encode_binary};
use crate::schema::{Schema, SchemaView};
use crate::error::RegistryError;
use crate::store::{store_get, store_insert, store_share};
use vstd::prelude::*;
use vstd::string::StringExecFns;

verus! {

/// The ghost content of an index handle: its name and its schema.
pub struct IndexView {
    pub name: Seq<char>,
    pub schema: SchemaView,
}

pub struct Index {
    name: String,
    schema: Schema,
    store: sled::Db,
}

impl View for Index {
    type V = IndexView;

    closed spec fn view(&self) -> IndexView {
        IndexView { name: self.name@, schema: self.schema@ }
    }
}

impl Clone for Index {
    fn clone(&self) -> (r: Index)
        ensures
            r@ == self@,
    {
        Index { name: self.name.clone(), schema: self.schema.clone(), store: store_share(&self.store) }
    }
}

/// The store key of the schema record of the index with this name.
pub open spec fn spec_schema_key(name: Seq<char>) -> Seq<char> {
    "schema-"@ + name
}

impl Index {
    pub open spec fn wf(self) -> bool {
        self@.schema.wf()
    }

    /// The name this handle is bound to.
    pub fn name(&self) -> (r: &str)
        ensures
            r@ == self@.name,
    {
        self.name.as_str()
    }

    /// The immutable schema of this index.
    pub fn schema(&self) -> (r: &Schema)
        ensures
            r@ == self@.schema,
    {
        &self.schema
    }

    fn schema_key(name: &str) -> (r: String)
        ensures
            r@ == spec_schema_key(name@),
    {
        let mut k = String::from_str("schema-");
        k.append(name);
        k
    }

    /// Reopens an index whose schema the store already holds: reads and
    /// decodes the schema record. An absent or undecodable record is a
    /// corrupt catalog, reported as an error.
    pub fn new(store: sled::Db, name: &str) -> (r: Result<Index, RegistryError>)
        ensures
            r matches Ok(ix) ==> ix@.name == name@ && ix.wf(),
    {
        let key = Self::schema_key(name);
        match store_get(&store, key.as_str()) {
            Err(e) => Err(RegistryError::Store(e)),
            Ok(None) => Err(RegistryError::MissingSchema),
            Ok(Some(bytes)) => match decode_binary(&bytes) {
                None => Err(RegistryError::CorruptSchema),
                Some(schema) => Ok(Index { name: name.to_owned(), schema, store }),
            },
        }
    }

    /// Initializes a brand-new index region: writes the given schema as
    /// the index's schema record.
    pub fn with_schema(store: sled::Db, name: &str, schema: Schema) -> (r: Result<Index, RegistryError>)
        requires
            schema.wf(),
        ensures
            r matches Ok(ix) ==> ix@.name == name@ && ix@.schema == schema@ && ix.wf(),
    {
        let key = Self::schema_key(name);
        let bytes = encode_binary(&schema);
        match store_insert(&store, key.as_str(), bytes) {
            Err(e) => Err(RegistryError::Store(e)),
            Ok(_) => Ok(Index { name: name.to_owned(), schema, store }),
        }
    }
}

} // verus!
