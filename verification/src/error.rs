//! What can go wrong with a record or with the log.

use vstd::prelude::*;
use vstd::string::StringExecFns;

verus! {

/// Why bytes could not be read as a record.
#[derive(Clone, Copy, Debug, PartialEq, Eq, Structural)]
pub enum DecodeError {
    /// The bytes end before the record does: the bytes at hand are fewer
    /// than the record's header announces. After an unclean shutdown this
    /// marks the end of what was written.
    TruncatedFrame,
    /// The record is all there, but it is not one that the encoder writes: a
    /// length declared inside it reaches past its end, bytes are left over, a
    /// key is not UTF-8, or the window ends before it starts.
    CorruptFrame,
}

/// Why the log refused an operation.
#[derive(Clone, Copy, Debug, PartialEq, Eq, Structural)]
pub enum WalError {
    /// The operation would break a rule of the log: the event is not valid,
    /// or the segment is not in the state that the operation needs.
    InvalidInvariant,
}

impl DecodeError {
    /// A line of text for a person.
    pub fn message(&self) -> (text: String)
        ensures
            text@ == (match self {
                DecodeError::TruncatedFrame => "truncated frame"@,
                DecodeError::CorruptFrame => "corrupt frame"@,
            }),
    {
        match self {
            DecodeError::TruncatedFrame => String::from_str("truncated frame"),
            DecodeError::CorruptFrame => String::from_str("corrupt frame"),
        }
    }
}

impl WalError {
    /// A line of text for a person.
    pub fn message(&self) -> (text: String)
        ensures
            text@ == "invalid invariant"@,
    {
        String::from_str("invalid invariant")
    }
}

} // verus!
