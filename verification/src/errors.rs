use vstd::prelude::*;

use crate::serialization::SerializationError;

verus! {

/// Failures surfaced by the storage engine.
///
/// `InvalidDbLocation`, `FileDirectoryCreation` and `IO` describe failures of
/// the surrounding file plumbing; the in-memory core never produces them, but
/// a disk-backed shell reports them through the same type.
#[derive(Debug, PartialEq, Eq, Structural)]
pub enum Error {
    InvalidDbLocation,
    FileDirectoryCreation,
    Serialization(SerializationError),
    IO,
    TooBig,
}

impl From<SerializationError> for Error {
    fn from(error: SerializationError) -> (r: Self) {
        Error::Serialization(error)
    }
}

impl vstd::std_specs::convert::FromSpecImpl<SerializationError> for Error {
    open spec fn obeys_from_spec() -> bool {
        true
    }

    open spec fn from_spec(error: SerializationError) -> Self {
        Error::Serialization(error)
    }
}

} // verus!
