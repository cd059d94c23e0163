//! The store handle's lifecycle. The host opens the directory-backed
//! connection and performs the table I/O; the handle records where the
//! store lives and whether it is ready.

use vstd::prelude::*;
use crate::error::MemoryError;

verus! {

/// Where the store lives and whether `initialize` has completed.
pub struct LanceDBStorage {
    db_path: String,
    initialized: bool,
}

impl LanceDBStorage {
    pub closed spec fn path(&self) -> Seq<char> {
        self.db_path@
    }

    pub closed spec fn ready(&self) -> bool {
        self.initialized
    }

    /// A handle on the store at `db_path`, not yet initialized. Does no I/O
    /// and cannot fail.
    pub fn new(db_path: &str) -> (r: Result<Self, MemoryError>)
        ensures
            r is Ok,
            r.unwrap().path() == db_path@,
            !r.unwrap().ready(),
    {
        Ok(LanceDBStorage { db_path: String::from_str(db_path), initialized: false })
    }

    /// Where the store lives.
    pub fn db_path(&self) -> (r: &str)
        ensures
            r@ == self.path(),
    {
        self.db_path.as_str()
    }

    /// Whether `initialize` has completed.
    pub fn is_initialized(&self) -> (r: bool)
        ensures
            r == self.ready(),
    {
        self.initialized
    }

    /// Records that the connection is open and the tables exist; a second
    /// call changes nothing.
    pub fn mark_initialized(&mut self)
        ensures
            final(self).ready(),
            final(self).path() == old(self).path(),
    {
        self.initialized = true;
    }

    /// Fails with `NotInitialized` before `initialize` has completed.
    pub fn check_initialized(&self) -> (r: Result<(), MemoryError>)
        ensures
            r is Ok <==> self.ready(),
            r is Err ==> r == Err::<(), MemoryError>(MemoryError::NotInitialized),
    {
        if self.initialized {
            Ok(())
        } else {
            Err(MemoryError::NotInitialized)
        }
    }
}

} // verus!
