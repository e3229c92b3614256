//! The closed error taxonomy returned by every fallible table operation,
//! and the two conversion helpers that map host-side values into it.

use vstd::prelude::*;

verus! {

/// `std::io::Error` is declared here so that [`DatabaseError::IOError`] can
/// carry the originating filesystem failure for diagnostics.  The value is
/// opaque to verified code: nothing in this crate inspects it, it is only
/// stored and handed back to the host.
#[verifier::external_type_specification]
#[verifier::external_body]
pub struct ExIoError(std::io::Error);

/// Database error enum.
#[derive(Debug)]
pub enum DatabaseError {
    /// The item queried for was not found.
    ItemNotFound,
    /// A duplicate value was found when adding to the database with
    /// [`Database::strict_dupes`](crate::Database::strict_dupes) allowed.
    DupeFound,
    /// A persistence operation needed a concrete file path and none could be
    /// resolved.  This commonly happens when loading or dumping a database
    /// with [`Database::save_path`](crate::Database::save_path) being
    /// [`Option::None`].
    SavePathRequired,
    /// The bytes handed to a load did not form a valid encoded collection
    /// for the current record type.
    DecodeError,
    /// Misc [`std::io::Error`] that could not be properly handled.
    IOError(std::io::Error),
}

/// Converts a possible [`std::io::Error`] to a [`DatabaseError`].
pub fn io_to_dberror<T>(io_res: Result<T, std::io::Error>) -> (r: Result<T, DatabaseError>)
    ensures
        io_res matches Ok(x) ==> r matches Ok(y) && y == x,
        io_res matches Err(e) ==> r matches Err(DatabaseError::IOError(f)) && f == e,
{
    match io_res {
        Ok(x) => Ok(x),
        Err(e) => Err(DatabaseError::IOError(e)),
    }
}

/// Converts an [`Option`] over a path into a [`Result`] over it, reporting
/// the absent path as [`DatabaseError::SavePathRequired`].
pub fn path_to_dberror(path: Option<&String>) -> (r: Result<String, DatabaseError>)
    ensures
        path matches Some(p) ==> r matches Ok(q) && q@ == p@,
        path is None ==> r matches Err(DatabaseError::SavePathRequired),
{
    match path {
        None => Err(DatabaseError::SavePathRequired),
        Some(x) => Ok(x.clone()),
    }
}

} // verus!
