//! The error surface of the datastore.

use vstd::prelude::*;

verus! {

/// What a datastore operation can report.
///
/// `Storage` carries an error of the underlying key-value store verbatim.
/// `Decode` means a key or value did not parse under the expected schema.
/// `PoisonError` is kept for callers that guard the metadata registry with a
/// lock of their own and need to surface a poisoned lock through this type.
#[derive(Debug)]
pub enum DSError {
    Storage(sled::Error),
    Decode,
    PoisonError(String),
}

/// Maps a storage error into the datastore error type.
pub fn map_err<T>(r: Result<T, sled::Error>) -> (out: Result<T, DSError>)
    ensures
        r matches Ok(v) ==> (out matches Ok(w) && w == v),
        r is Err ==> (out matches Err(e) && e.is_storage()),
{
    match r {
        Ok(v) => Ok(v),
        Err(e) => Err(DSError::Storage(e)),
    }
}

impl DSError {
    /// True for the `Decode` variant; contracts use this to tell schema
    /// violations apart from storage failures.
    pub open spec fn is_decode(&self) -> bool {
        matches!(self, DSError::Decode)
    }

    pub open spec fn is_storage(&self) -> bool {
        matches!(self, DSError::Storage(_))
    }
}

} // verus!
