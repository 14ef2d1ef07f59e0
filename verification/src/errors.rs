//! The ways in which a call on the store can fail.

use vstd::prelude::*;
use vstd::string::*;

verus! {

/// Why a call was refused. Whatever the variant, the store is as it was
/// before the call.
#[derive(Debug, Clone, Copy, PartialEq, Eq, Structural)]
pub enum Error {
    /// The storage backend failed. The storage kept in memory never does.
    Storage,
    /// An operation broke the order that the log asks for: a second creation,
    /// or a change to a task that is not there.
    InvalidOperation,
    /// A task with this identifier is already there.
    DuplicateUuid,
    /// No task with this identifier is there.
    TaskNotFound,
    /// A text that should hold an identifier or a time does not.
    MalformedValue,
}

impl Error {
    /// A short description for the user.
    pub fn message(&self) -> (r: String)
        ensures
            r@ == match *self {
                Error::Storage => "storage failure"@,
                Error::InvalidOperation => "invalid operation"@,
                Error::DuplicateUuid => "duplicate uuid"@,
                Error::TaskNotFound => "task not found"@,
                Error::MalformedValue => "malformed value"@,
            },
    {
        match self {
            Error::Storage => String::from_str("storage failure"),
            Error::InvalidOperation => String::from_str("invalid operation"),
            Error::DuplicateUuid => String::from_str("duplicate uuid"),
            Error::TaskNotFound => String::from_str("task not found"),
            Error::MalformedValue => String::from_str("malformed value"),
        }
    }
}

} // verus!
