//! The error taxonomy of the registry's fallible operations.

use vstd::prelude::*;

verus! {

/// What a registry operation can fail with: a fault of the backing
/// store, or a record whose bytes decode to no value. A missing index
/// name is never an error; it is a plain empty outcome.
#[derive(Debug)]
pub enum RegistryError {
    /// The backing store reported a fault while opening, reading or
    /// writing.
    Store(sled::Error),
    /// The durable index-name record holds bytes that decode to no
    /// distinct name set.
    CorruptIndexList,
    /// A schema record holds bytes that decode to no schema.
    CorruptSchema,
    /// An index named by the durable set has no schema record.
    MissingSchema,
}

} // verus!
