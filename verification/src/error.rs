//! What a push and a pop report when they do not succeed.

use vstd::prelude::*;

verus! {

/// Why a push was refused.
#[derive(Debug, PartialEq, Eq)]
pub enum PushError<T> {
    /// The stack has been closed. The value comes back to the caller.
    Closed(T),
}

impl<T> PushError<T> {
    /// Hands the refused value back.
    pub fn into_inner(self) -> (value: T)
        ensures
            self == PushError::Closed(value),
    {
        match self {
            PushError::Closed(v) => v,
        }
    }

    /// The text shown to a user.
    pub fn message(&self) -> (text: &'static str)
        ensures
            text@ == "stack is closed"@,
    {
        match self {
            PushError::Closed(_) => "stack is closed",
        }
    }
}

/// Why a pop came back without a value.
#[derive(Debug, Clone, Copy, PartialEq, Eq, Structural)]
pub enum PopError {
    /// No value was found, and the stack still takes values.
    Empty,
    /// The stack is closed and drained.
    Closed,
}

impl PopError {
    /// The text shown to a user.
    pub fn message(&self) -> (text: &'static str)
        ensures
            text@ == match *self {
                PopError::Empty => "stack is empty"@,
                PopError::Closed => "stack is closed"@,
            },
    {
        match self {
            PopError::Empty => "stack is empty",
            PopError::Closed => "stack is closed",
        }
    }
}

} // verus!
