//! The error taxonomy shared by every component of the store.

use vstd::prelude::*;

verus! {

/// Errors surfaced by tables, versions and the store hierarchy.
///
/// Each variant carries a human-readable message. `Corrupted` marks a
/// table file whose footer, index or blocks fail to parse; `Io` wraps a
/// storage failure reported by the surrounding file-system layer.
#[derive(Debug, Clone)]
pub enum Error {
    NotFound(String),
    AlreadyExists(String),
    InvalidArgument(String),
    Corrupted(String),
    Internal(String),
    Io(String),
    Unknown(String),
}

impl Error {
    pub fn invalid_argument(m: String) -> (r: Error)
        ensures
            r == Error::InvalidArgument(m),
    {
        Error::InvalidArgument(m)
    }

    pub fn corrupted(m: String) -> (r: Error)
        ensures
            r == Error::Corrupted(m),
    {
        Error::Corrupted(m)
    }

    pub fn internal(m: String) -> (r: Error)
        ensures
            r == Error::Internal(m),
    {
        Error::Internal(m)
    }

    pub fn unknown(m: String) -> (r: Error)
        ensures
            r == Error::Unknown(m),
    {
        Error::Unknown(m)
    }

    /// The message carried by the error, whatever its variant.
    pub fn message(&self) -> (r: &String)
        ensures
            match self {
                Error::NotFound(m) => r == m,
                Error::AlreadyExists(m) => r == m,
                Error::InvalidArgument(m) => r == m,
                Error::Corrupted(m) => r == m,
                Error::Internal(m) => r == m,
                Error::Io(m) => r == m,
                Error::Unknown(m) => r == m,
            },
    {
        match self {
            Error::NotFound(m) => m,
            Error::AlreadyExists(m) => m,
            Error::InvalidArgument(m) => m,
            Error::Corrupted(m) => m,
            Error::Internal(m) => m,
            Error::Io(m) => m,
            Error::Unknown(m) => m,
        }
    }
}

} // verus!
