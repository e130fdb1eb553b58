//! A small personal finance ledger: income and expense transactions kept in
//! memory, lazily loaded from per-month files and flushed back grouped by
//! year, month and transaction type.

use vstd::prelude::*;

pub mod codec;
pub mod digits;
pub mod filter;
pub mod store;
pub mod transaction;

verus! {

/// The errors the ledger can report.
#[derive(Clone, Copy, Debug, PartialEq, Eq, Structural)]
pub enum Error {
    /// Directory or file input/output failed for a reason other than a
    /// missing monthly file.
    StorageUnavailable,
    /// A monthly file did not hold a well-formed envelope.
    CorruptData,
    /// A filter pattern is not a valid regular expression.
    InvalidPattern,
    /// No storage root could be resolved.
    ConfigurationMissing,
}

/// What the store is told about its surroundings: the root directory the
/// monthly files live in, as a path rendered to text.
pub struct Config {
    pub data_dir: String,
}

impl Config {
    /// A configuration over the given storage root.
    pub fn new(data_dir: String) -> (r: Self)
        ensures
            r.data_dir@ == data_dir@,
    {
        Config { data_dir }
    }
}

} // verus!
