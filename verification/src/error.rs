//! What can go wrong, by kind.

use vstd::prelude::*;

verus! {

/// The caller handed in something that cannot be used.
#[derive(Clone, Copy, Debug, PartialEq, Eq, Structural)]
pub enum InputError {
    /// A dictionary cannot be built over no keys.
    EmptyInput,
    /// The same key was given twice and duplicates are rejected.
    DuplicateKey,
    /// An index or an identifier past the last one.
    OutOfRange,
    /// The keys are longer in all than a dictionary can hold.
    TooLarge,
}

/// Stored bytes cannot be read back.
#[derive(Clone, Copy, Debug, PartialEq, Eq, Structural)]
pub enum FormatError {
    /// Wrong magic number, wrong checksum, truncated or inconsistent data.
    CorruptFormat,
    /// Written by a later version of the format.
    VersionMismatch,
}

/// The dictionary is in the wrong state for the operation.
#[derive(Clone, Copy, Debug, PartialEq, Eq, Structural)]
pub enum StateError {
    /// A query or a save on a dictionary that holds nothing.
    NotBuilt,
    /// A build on a dictionary that already holds keys.
    AlreadyBuilt,
}

#[derive(Clone, Copy, Debug, PartialEq, Eq, Structural)]
pub enum Error {
    Input(InputError),
    Format(FormatError),
    State(StateError),
}

/// The words that describe each error.
pub open spec fn description(e: Error) -> Seq<char> {
    match e {
        Error::Input(InputError::EmptyInput) => "no keys to build from"@,
        Error::Input(InputError::DuplicateKey) => "duplicate key"@,
        Error::Input(InputError::OutOfRange) => "index out of range"@,
        Error::Input(InputError::TooLarge) => "keys too large"@,
        Error::Format(FormatError::CorruptFormat) => "corrupt data"@,
        Error::Format(FormatError::VersionMismatch) => "unsupported format version"@,
        Error::State(StateError::NotBuilt) => "dictionary not built"@,
        Error::State(StateError::AlreadyBuilt) => "dictionary already built"@,
    }
}

impl Error {
    /// A short description for messages.
    pub fn describe(&self) -> (text: &'static str)
        ensures
            text@ == description(*self),
    {
        match self {
            Error::Input(InputError::EmptyInput) => "no keys to build from",
            Error::Input(InputError::DuplicateKey) => "duplicate key",
            Error::Input(InputError::OutOfRange) => "index out of range",
            Error::Input(InputError::TooLarge) => "keys too large",
            Error::Format(FormatError::CorruptFormat) => "corrupt data",
            Error::Format(FormatError::VersionMismatch) => "unsupported format version",
            Error::State(StateError::NotBuilt) => "dictionary not built",
            Error::State(StateError::AlreadyBuilt) => "dictionary already built",
        }
    }
}

} // verus!
