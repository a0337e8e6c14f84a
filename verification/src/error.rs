//! The errors that producers and spawners get.
use vstd::prelude::*;

verus! {

/// Returned when a send fails because the task has stopped.
#[derive(Debug)]
pub struct SendError<T>(pub T);

impl<T> SendError<T> {
    /// The context that was not sent.
    pub fn into_inner(self) -> (inner: T)
        ensures
            inner == self.0,
        opens_invariants none
    {
        self.0
    }

    /// The text that describes the error.
    pub fn to_string(&self) -> (text: String)
        ensures
            text@ == "task receiver closed"@,
    {
        "task receiver closed".to_owned()
    }
}

/// Returned from non-blocking send paths: either the bounded channel is full
/// or the task has stopped.
///
/// This enum is `#[non_exhaustive]`; callers must include a wildcard arm
/// when matching to remain forward-compatible.
#[derive(Debug)]
#[non_exhaustive]
pub enum TrySendError<T> {
    /// Bounded channel currently full. The item is returned to the caller.
    Full(T),
    /// Receiver has been dropped / task has stopped.
    Closed(T),
}

impl<T> TrySendError<T> {
    /// The item that the error hands back.
    pub open spec fn item(self) -> T {
        match self {
            TrySendError::Full(t) => t,
            TrySendError::Closed(t) => t,
        }
    }

    /// The context that was not sent.
    pub fn into_inner(self) -> (inner: T)
        ensures
            inner == self.item(),
            self matches TrySendError::Full(t) ==> inner == t,
            self matches TrySendError::Closed(t) ==> inner == t,
        opens_invariants none
    {
        match self {
            TrySendError::Full(t) => t,
            TrySendError::Closed(t) => t,
        }
    }

    /// The text that describes the error.
    pub fn to_string(&self) -> (text: String)
        ensures
            self is Full ==> text@ == "channel full"@,
            self is Closed ==> text@ == "task receiver closed"@,
    {
        match self {
            TrySendError::Full(_) => "channel full".to_owned(),
            TrySendError::Closed(_) => "task receiver closed".to_owned(),
        }
    }
}

/// Returned from a non-blocking receive that yields no message.
#[derive(Clone, Copy, Debug, PartialEq, Eq, Structural)]
pub enum TryRecvError {
    /// No message is ready, but senders remain.
    Empty,
    /// All senders are gone and every message has been received.
    Disconnected,
}

/// Returned when spawning a task fails because the reactor thread is gone.
#[derive(Debug)]
pub struct SpawnError;

impl SpawnError {
    /// The text that describes the error.
    pub fn to_string(&self) -> (text: String)
        ensures
            text@ == "reactor background thread has shut down"@,
    {
        "reactor background thread has shut down".to_owned()
    }
}

} // verus!
