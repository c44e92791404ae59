//! The typed failures of every operation in this crate.

use vstd::prelude::*;
use vstd::string::StringExecFns;

verus! {

/// Why a reference name did not lead to an object id.
#[derive(Clone, Copy, Debug, PartialEq, Eq, Structural)]
pub enum RefResolutionError {
    /// The chain reached a name that holds nothing usable.
    Dangling,
    /// The chain of symbolic references is longer than the hop limit.
    CycleOrTooDeep,
}

/// Everything that can go wrong while reading a repository. All of these are
/// ordinary return values; none of them ends the process.
#[derive(Clone, Copy, Debug, PartialEq, Eq, Structural)]
pub enum Error {
    /// No repository marker between the given path and the root.
    RepoNotFound,
    /// A string that is not the canonical lowercase hex form of an object id.
    InvalidObjectId,
    /// The store holds nothing under the requested id.
    ObjectNotFound,
    /// The stored bytes do not decode to the object that was asked for.
    CorruptObject,
    /// A reference could not be followed to an object id.
    RefResolution(RefResolutionError),
}

impl Error {
    /// A short human-readable description of the failure.
    pub fn message(&self) -> (text: String)
        ensures
            text@ == match *self {
                Error::RepoNotFound => "repository not found"@,
                Error::InvalidObjectId => "invalid object id"@,
                Error::ObjectNotFound => "object not found"@,
                Error::CorruptObject => "corrupt object"@,
                Error::RefResolution(RefResolutionError::Dangling) => "dangling reference"@,
                Error::RefResolution(RefResolutionError::CycleOrTooDeep) =>
                    "reference cycle or chain too deep"@,
            },
    {
        match self {
            Error::RepoNotFound => String::from_str("repository not found"),
            Error::InvalidObjectId => String::from_str("invalid object id"),
            Error::ObjectNotFound => String::from_str("object not found"),
            Error::CorruptObject => String::from_str("corrupt object"),
            Error::RefResolution(RefResolutionError::Dangling) => String::from_str(
                "dangling reference",
            ),
            Error::RefResolution(RefResolutionError::CycleOrTooDeep) => String::from_str(
                "reference cycle or chain too deep",
            ),
        }
    }
}

} // verus!
