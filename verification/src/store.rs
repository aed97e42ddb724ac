//! Trusted boundary around the embedded key-value store that backs the
//! registry, and the error taxonomy of the fallible operations.

use vstd::prelude::*;

verus! {

#[verifier::external_type_specification]
#[verifier::external_body]
pub struct ExDb(sled::Db);

#[verifier::external_type_specification]
#[verifier::external_body]
pub struct ExSledError(sled::Error);

/// Relies on sled::open: opens or creates the store at `path`.
/// Nothing is promised of the outcome; it depends on the machine.
#[verifier::external_body]
pub(crate) fn store_open(path: &str) -> Result<sled::Db, sled::Error> {
    sled::open(path)
}

/// Relies on sled::Tree::get, reached through Db's deref; the value
/// bytes are copied out of the returned buffer. Nothing is promised of
/// the outcome; it depends on what is on disk.
#[verifier::external_body]
pub(crate) fn store_get(db: &sled::Db, key: &str) -> Result<Option<Vec<u8>>, sled::Error> {
    match db.get(key) {
        Ok(Some(v)) => Ok(Some(v.to_vec())),
        Ok(None) => Ok(None),
        Err(e) => Err(e),
    }
}

/// Relies on sled::Tree::insert, reached through Db's deref; any value
/// previously under the key is returned as plain bytes.
#[verifier::external_body]
pub(crate) fn store_insert(db: &sled::Db, key: &str, value: Vec<u8>) -> Result<
    Option<Vec<u8>>,
    sled::Error,
> {
    match db.insert(key, value) {
        Ok(Some(v)) => Ok(Some(v.to_vec())),
        Ok(None) => Ok(None),
        Err(e) => Err(e),
    }
}

/// Relies on sled::Db deriving Clone: the clone shares the same
/// underlying store engine.
#[verifier::external_body]
pub(crate) fn store_share(db: &sled::Db) -> sled::Db {
    db.clone()
}

} // verus!
