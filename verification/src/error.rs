//! Errors reported by the library.
use vstd::prelude::*;

verus! {

/// Errors of table extraction and of the command-line front end.
#[derive(Debug)]
pub enum Error {
    /// A request that cannot be carried out, with a message for the user.
    InvalidOperation(String),
}

/// Result type of the library.
pub type Result<T> = core::result::Result<T, Error>;

} // verus!
