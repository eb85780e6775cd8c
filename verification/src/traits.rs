//! The interface through which the store persists values.
use vstd::prelude::*;

verus! {

/// Where values are kept across restarts: a user of the store implements
/// it for a file system, a database, or anything that can put, read and
/// delete bytes by key.
pub trait StorageEngine {
    /// Keeps `data` under `key`.
    fn put(&mut self, key: &str, data: Vec<u8>) -> std::io::Result<()>;

    /// The values kept under `key` (a wildcard key may match several),
    /// each with the key it is kept under.
    fn get(&self, key: &str) -> Vec<(String, Vec<u8>)>;

    /// Forgets the value kept under `key`.
    fn delete(&self, key: &str) -> std::io::Result<()>;
}

} // verus!
