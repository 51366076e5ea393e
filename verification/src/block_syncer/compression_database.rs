//! The description of the database that holds the DA compression state.
use vstd::prelude::*;

verus! {

/// The database of DA compressed blocks and their registry.
#[derive(Copy, Clone, Debug)]
pub struct Compression;

impl Compression {
    /// The version of the database layout.
    pub fn version() -> (v: u32)
        ensures
            v == 0,
    {
        0
    }

    /// The name of the database.
    pub fn name() -> (n: String)
        ensures
            n@ == "compression"@,
    {
        "compression".to_string()
    }

    /// The key prefix length of every column: none.
    pub fn prefix() -> (p: Option<usize>)
        ensures
            p is None,
    {
        None
    }
}

} // verus!
