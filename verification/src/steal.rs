//! The outcome of a steal attempt.

use vstd::prelude::*;

verus! {

/// Outcome of one attempt to steal from the top of a deque.
#[derive(Clone, Copy, Debug, PartialEq, Eq)]
pub enum Steal<T> {
    /// The deque was observed empty.
    Empty,
    /// Lost a race with another thief or an emptying pop; the caller should retry.
    Retry,
    /// Successfully stole a value from the top of the deque.
    Success(T),
}

impl<T> Steal<T> {
    /// The stolen value, if any, as a specification.
    pub open spec fn value(self) -> Option<T> {
        match self {
            Steal::Success(v) => Some(v),
            _ => None,
        }
    }

    /// Returns the stolen value, if any.
    pub fn success(self) -> (r: Option<T>)
        ensures
            r == self.value(),
            match self {
                Steal::Success(v) => r == Some(v),
                Steal::Empty => r is None,
                Steal::Retry => r is None,
            },
    {
        match self {
            Steal::Success(v) => Some(v),
            _ => None,
        }
    }

    /// Whether the attempt lost a race and should be repeated.
    pub fn is_retry(&self) -> (r: bool)
        ensures
            r == (self is Retry),
    {
        matches!(self, Steal::Retry)
    }
}

} // verus!
