//! The errors that the library reports.

use vstd::prelude::*;

verus! {

/// What went wrong in a call.
#[derive(Debug)]
pub enum TinyBaseError {
    /// The storage could not do what was asked.
    Storage(String),
    /// Bytes could not be turned into a value.
    Codec(String),
    /// A query was used wrongly: no condition, or an index of another table.
    QueryBuilder(String),
    /// A name or an id is already taken.
    Duplicate(String),
}

pub type DbResult<T> = Result<T, TinyBaseError>;

} // verus!
