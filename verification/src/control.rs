//! The control channel through which a reactor is asked to start tasks.
use vstd::prelude::*;

use crate::channel::DynReceiver;
use crate::endpoint::{placed, unbounded, Observation, UnboundedTx, Wire};
use crate::error::SpawnError;

verus! {

/// The sending end of a reactor's control channel, until it is closed.
#[verifier::reject_recursive_types(R)]
pub struct Control<R> {
    sender: Option<UnboundedTx<R>>,
}

impl<R> Control<R> {
    /// The channel that requests go through; `None` once it is closed.
    pub closed spec fn wire(&self) -> Option<Wire<R>> {
        match self.sender {
            Some(s) => Some(s.wire()),
            None => None,
        }
    }

    /// Opens a control channel.
    pub fn open() -> (ends: (Self, DynReceiver<R>))
        ensures
            ends.0.wire() == Some(ends.1.wire()),
            ends.1.wire().bound is None,
            ends.1.log() == Seq::<Observation<R>>::empty(),
        opens_invariants none
    {
        let (tx, rx) = unbounded();
        (Control { sender: Some(tx) }, DynReceiver::Unbounded(rx))
    }

    /// Pushes a spawn request onto the control channel. Fails if the channel is
    /// closed at this end, or if the reactor thread is gone.
    pub fn submit(&self, request: R) -> (submitted: Result<(), SpawnError>)
        ensures
            match self.wire() {
                None => submitted is Err,
                Some(w) => match submitted {
                    Ok(()) => placed(w, request),
                    Err(_) => w.abandoned,
                },
            },
            submitted is Ok ==> self.wire() is Some && exists|n: nat| #[trigger]
                self.wire()->0.carried.contains((n, request)),
        opens_invariants none
    {
        match &self.sender {
            None => Err(SpawnError),
            Some(s) => match s.send(request) {
                Ok(()) => Ok(()),
                Err(_) => Err(SpawnError),
            },
        }
    }

    /// Closes the control channel at this end.
    pub fn close(&mut self)
        ensures
            final(self).wire() is None,
        opens_invariants none
    {
        self.sender = None;
    }
}

} // verus!
