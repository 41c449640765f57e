//! The outcomes other than success that an operation of the engine reports.

use vstd::prelude::*;

verus! {

/// Why an operation did not succeed.
#[derive(Clone, Copy, Debug, PartialEq, Eq, Structural)]
pub enum XitError {
    /// An argument was empty, of the wrong length, not hexadecimal, or a
    /// forbidden or reserved name.
    InputValidation,
    /// No object is stored under the address.
    ObjectNotFound,
    /// A stored object does not inflate, has no NUL after its header, or its
    /// header is not a known kind followed by one more token.
    CorruptObject,
    /// The object exists but is of another kind than the one asked for.
    WrongObjectKind,
    /// A tree payload has an entry without a space, without a NUL, or with
    /// fewer than twenty address bytes; or trees nest deeper than the limit.
    CorruptTree,
    /// A reference file does not hold what its form requires.
    CorruptRef,
    /// The branch or tag to create is already there.
    AlreadyExists,
    /// A reference, an index or an identity that was asked for is absent.
    NotFound,
    /// The compressor reported a failure.
    Io,
}

/// The five families into which the errors fall.
#[derive(Clone, Copy, Debug, PartialEq, Eq, Structural)]
pub enum ErrorClass {
    InputValidation,
    NotFound,
    Corrupt,
    Conflict,
    Io,
}

impl XitError {
    /// The family of this error.
    pub open spec fn class_spec(self) -> ErrorClass {
        match self {
            XitError::InputValidation => ErrorClass::InputValidation,
            XitError::ObjectNotFound | XitError::NotFound => ErrorClass::NotFound,
            XitError::CorruptObject | XitError::WrongObjectKind | XitError::CorruptTree
            | XitError::CorruptRef => ErrorClass::Corrupt,
            XitError::AlreadyExists => ErrorClass::Conflict,
            XitError::Io => ErrorClass::Io,
        }
    }

    /// The family of this error.
    pub fn class(&self) -> (c: ErrorClass)
        ensures
            c == self.class_spec(),
    {
        match self {
            XitError::InputValidation => ErrorClass::InputValidation,
            XitError::ObjectNotFound => ErrorClass::NotFound,
            XitError::NotFound => ErrorClass::NotFound,
            XitError::CorruptObject => ErrorClass::Corrupt,
            XitError::WrongObjectKind => ErrorClass::Corrupt,
            XitError::CorruptTree => ErrorClass::Corrupt,
            XitError::CorruptRef => ErrorClass::Corrupt,
            XitError::AlreadyExists => ErrorClass::Conflict,
            XitError::Io => ErrorClass::Io,
        }
    }
}

} // verus!
