use vstd::prelude::*;

verus! {

/// The error taxonomy of the tracking core.
///
/// `NoActiveInterval` signals an internal inconsistency (clearing a marker
/// that is absent); `CorruptState` means an artifact exists but cannot be
/// decoded, which is fatal to the invoking command and never silently
/// treated as "empty"; `StorageError` stands for an underlying filesystem
/// failure, whose cause the caller reports alongside it.
#[derive(Clone, Copy, Debug, PartialEq, Eq, Structural)]
pub enum Error {
    EmptyTagSet,
    AlreadyTracking,
    NoActiveInterval,
    CorruptState,
    StorageError,
}

/// The human-readable description of each error.
pub open spec fn error_text(e: Error) -> Seq<char> {
    match e {
        Error::EmptyTagSet => "at least one tag is required"@,
        Error::AlreadyTracking => "an interval is already being tracked"@,
        Error::NoActiveInterval => "no interval is being tracked"@,
        Error::CorruptState => "a stored artifact could not be decoded"@,
        Error::StorageError => "the storage layer failed"@,
    }
}

impl Error {
    /// A human-readable description, for the caller's error stream.
    pub fn message(&self) -> (r: &'static str)
        ensures
            r@ == error_text(*self),
    {
        match self {
            Error::EmptyTagSet => "at least one tag is required",
            Error::AlreadyTracking => "an interval is already being tracked",
            Error::NoActiveInterval => "no interval is being tracked",
            Error::CorruptState => "a stored artifact could not be decoded",
            Error::StorageError => "the storage layer failed",
        }
    }
}

} // verus!
