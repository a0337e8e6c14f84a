//! Channels of either capacity, under one sender and one receiver type.
use std::task::Context;
use tokio::sync::mpsc;
use vstd::prelude::*;

use crate::endpoint::{
    attempt, bounded, bounded_plain, max_capacity, messages, one_each, placed, saw_closed,
    unbounded, unbounded_plain, BoundedRx, BoundedTx, Observation, Plain, UnboundedRx,
    UnboundedTx, Wire,
};
use crate::error::{SendError, TryRecvError, TrySendError};

verus! {

/// Channel capacity policy.
///
/// `#[non_exhaustive]` so that adding new policies (e.g. bounded with an
/// overflow strategy) in a future release is not a breaking change.
#[derive(Clone, Copy, Debug)]
#[non_exhaustive]
pub enum Capacity {
    /// Bounded channel; producers apply backpressure when full.
    Bounded(usize),
    /// Unbounded channel; producers never block, but producers can OOM the
    /// consumer if they vastly outpace it.
    Unbounded,
}

impl Capacity {
    /// How many messages a channel of this capacity buffers: a bounded channel holds
    /// at least one.
    pub open spec fn bound(self) -> Option<usize> {
        match self {
            Capacity::Bounded(n) => Some(if n == 0 { 1usize } else { n }),
            Capacity::Unbounded => None,
        }
    }

    /// Whether a channel of this capacity can be made.
    pub open spec fn supported(self) -> bool {
        self matches Capacity::Bounded(n) ==> n <= max_capacity()
    }

    /// Tests whether a channel of this capacity can be made.
    pub fn is_supported(&self) -> (yes: bool)
        ensures
            yes == self.supported(),
            yes == match self {
                Capacity::Bounded(n) => *n <= usize::MAX / 8,
                Capacity::Unbounded => true,
            },
        opens_invariants none
    {
        match self {
            Capacity::Bounded(n) => *n <= usize::MAX / 8,
            Capacity::Unbounded => true,
        }
    }
}

/// The result of a poll.
#[derive(Debug)]
pub enum Polled<T> {
    /// The poll came to a result.
    Ready(T),
    /// The poll has to be repeated after a wakeup.
    Pending,
}

impl<T> Observation<T> {
    /// The result of a non-blocking receive that made this observation.
    pub open spec fn as_try_recv(self) -> Result<T, TryRecvError> {
        match self {
            Observation::Message(m) => Ok(m),
            Observation::Nothing => Err(TryRecvError::Empty),
            Observation::Closed => Err(TryRecvError::Disconnected),
        }
    }

    /// The result of a poll that made this observation.
    pub open spec fn as_poll(self) -> Polled<Option<T>> {
        match self {
            Observation::Message(m) => Polled::Ready(Some(m)),
            Observation::Nothing => Polled::Pending,
            Observation::Closed => Polled::Ready(None),
        }
    }

    /// Reports the observation as a non-blocking receive does.
    pub fn into_try_recv(self) -> (result: Result<T, TryRecvError>)
        ensures
            result == self.as_try_recv(),
            self matches Observation::Message(m) ==> result == Ok::<T, TryRecvError>(m),
            self is Nothing ==> result == Err::<T, TryRecvError>(TryRecvError::Empty),
            self is Closed ==> result == Err::<T, TryRecvError>(TryRecvError::Disconnected),
        opens_invariants none
    {
        match self {
            Observation::Message(m) => Ok(m),
            Observation::Nothing => Err(TryRecvError::Empty),
            Observation::Closed => Err(TryRecvError::Disconnected),
        }
    }

    /// Reports the observation as a poll does.
    pub fn into_poll(self) -> (result: Polled<Option<T>>)
        ensures
            result == self.as_poll(),
            self matches Observation::Message(m) ==> result == Polled::Ready(Some(m)),
            self is Nothing ==> result is Pending,
            self is Closed ==> result == Polled::Ready(None::<T>),
        opens_invariants none
    {
        match self {
            Observation::Message(m) => Polled::Ready(Some(m)),
            Observation::Nothing => Polled::Pending,
            Observation::Closed => Polled::Ready(None),
        }
    }
}

/// What a non-blocking send of `value` into the channel `wire` may answer: success
/// for a message that has a place in the channel, or an error that hands `value` back
/// because the channel is full, which only a bounded one can be, or because the
/// receiver is gone.
pub open spec fn send_outcome<T>(
    wire: Wire<T>,
    value: T,
    sent: Result<(), TrySendError<T>>,
) -> bool {
    match sent {
        Ok(()) => placed(wire, value),
        Err(TrySendError::Full(back)) => back == value && wire.filled && wire.bound is Some,
        Err(TrySendError::Closed(back)) => back == value && wire.abandoned,
    }
}

/// The first step of a send that waits for free capacity.
#[verifier::reject_recursive_types(T)]
pub enum SendStep<'a, T> {
    /// The channel is unbounded and the send is over.
    Done(Result<(), SendError<T>>),
    /// The channel is bounded: the value is to be sent through the tokio sender, which
    /// waits for capacity, and [`finish_send`] takes the answer.
    Wait(&'a mpsc::Sender<T>, T),
}

/// Sender of a channel of either capacity.
#[verifier::reject_recursive_types(T)]
pub enum DynSender<T> {
    /// Sends into a bounded channel.
    Bounded(BoundedTx<T>),
    /// Sends into an unbounded channel.
    Unbounded(UnboundedTx<T>),
}

impl<T> DynSender<T> {
    /// The channel that this sender feeds.
    pub open spec fn wire(&self) -> Wire<T> {
        match self {
            DynSender::Bounded(s) => s.wire(),
            DynSender::Unbounded(s) => s.wire(),
        }
    }

    /// The first step of a send of `value` that waits for free capacity. An unbounded
    /// channel has its answer at once: success for a message that has a place in the
    /// channel, or an error that hands `value` back because the receiver is gone. For a
    /// bounded one the step is this sender's tokio sender and `value`.
    pub open spec fn first_step(&self, value: T, step: SendStep<'_, T>) -> bool {
        match step {
            SendStep::Done(sent) => self is Unbounded && match sent {
                Ok(()) => placed(self.wire(), value),
                Err(e) => e.0 == value && self.wire().abandoned,
            },
            SendStep::Wait(tx, v) => self matches DynSender::Bounded(s) && *tx == s.inner() && v
                == value,
        }
    }

    /// Non-blocking send. For bounded channels, returns `Full` if the queue
    /// is full. Makes no further sending end of the channel.
    pub fn try_send(&self, value: T) -> (sent: Result<(), TrySendError<T>>)
        ensures
            send_outcome(self.wire(), value, sent),
            sent is Ok ==> exists|n: nat| #[trigger] self.wire().carried.contains((n, value)),
            sent matches Err(TrySendError::Full(back)) ==> back == value
                && self.wire().bound is Some && self.wire().filled,
            sent matches Err(TrySendError::Closed(back)) ==> back == value
                && self.wire().abandoned,
        opens_invariants none
    {
        match self {
            DynSender::Bounded(s) => s.try_send(value),
            DynSender::Unbounded(s) => match s.send(value) {
                Ok(()) => Ok(()),
                Err(back) => Err(TrySendError::Closed(back)),
            },
        }
    }

    /// First step of a send with backpressure. Unbounded channels resolve
    /// immediately; for bounded channels the caller awaits capacity on the tokio
    /// sender that it gets. Makes no further sending end of the channel.
    pub fn send_async(&self, value: T) -> (step: SendStep<'_, T>)
        ensures
            self.first_step(value, step),
            step is Done <==> self is Unbounded,
            step matches SendStep::Done(Ok(())) ==> exists|n: nat| #[trigger]
                self.wire().carried.contains((n, value)),
            step matches SendStep::Done(Err(e)) ==> e.0 == value && self.wire().abandoned,
            step matches SendStep::Wait(tx, v) ==> v == value && *tx == self->Bounded_0.inner(),
        opens_invariants none
    {
        match self {
            DynSender::Bounded(s) => SendStep::Wait(s.as_tokio(), value),
            DynSender::Unbounded(s) => match s.send(value) {
                Ok(()) => SendStep::Done(Ok(())),
                Err(back) => SendStep::Done(Err(SendError(back))),
            },
        }
    }
}

/// Last step of a send with backpressure: reports what the tokio sender answered,
/// which on failure hands the value back.
pub fn finish_send<T>(answer: Result<(), T>) -> (sent: Result<(), SendError<T>>)
    ensures
        answer is Ok <==> sent is Ok,
        answer matches Err(back) ==> sent == Err::<(), SendError<T>>(SendError(back)),
    opens_invariants none
{
    match answer {
        Ok(()) => Ok(()),
        Err(back) => Err(SendError(back)),
    }
}

impl<T> Clone for DynSender<T> {
    fn clone(&self) -> (copy: Self)
        ensures
            copy.wire() == self.wire(),
            copy is Bounded <==> self is Bounded,
    {
        match self {
            DynSender::Bounded(s) => DynSender::Bounded(s.duplicate()),
            DynSender::Unbounded(s) => DynSender::Unbounded(s.duplicate()),
        }
    }
}

/// Receiver of a channel of either capacity.
///
/// Only call [`try_recv`](Self::try_recv) or [`poll_recv`](Self::poll_recv). Both the enum
/// and its variants are `#[non_exhaustive]`: new representations may be added without a
/// major version bump, and other crates may not construct or destructure them.
#[verifier::reject_recursive_types(T)]
#[non_exhaustive]
pub enum DynReceiver<T> {
    /// Receives from a bounded channel.
    #[non_exhaustive]
    Bounded(BoundedRx<T>),
    /// Receives from an unbounded channel.
    #[non_exhaustive]
    Unbounded(UnboundedRx<T>),
}

impl<T> DynReceiver<T> {
    /// The channel that this receiver drains.
    pub open spec fn wire(&self) -> Wire<T> {
        match self {
            DynReceiver::Bounded(r) => r.wire(),
            DynReceiver::Unbounded(r) => r.wire(),
        }
    }

    /// What each attempt to receive has found, oldest first.
    pub open spec fn log(&self) -> Seq<Observation<T>> {
        match self {
            DynReceiver::Bounded(r) => r.log(),
            DynReceiver::Unbounded(r) => r.log(),
        }
    }

    /// Whether the task of `cx` is to be woken when there is something to receive.
    pub open spec fn armed(&self, cx: Context<'_>) -> bool {
        match self {
            DynReceiver::Bounded(r) => r.armed(cx),
            DynReceiver::Unbounded(r) => r.armed(cx),
        }
    }

    /// The messages received so far, oldest first.
    pub open spec fn received(&self) -> Seq<T> {
        messages(self.log())
    }

    /// Whether the channel has been found closed.
    pub open spec fn finished(&self) -> bool {
        saw_closed(self.log())
    }

    /// The messages received so far have the first places in the channel, in their
    /// order, and once the channel has been found closed no other place is left.
    pub open spec fn in_step(&self) -> bool {
        &&& forall|n: nat|
            n < self.received().len() ==> self.wire().carried.contains(
                (n, #[trigger] self.received()[n as int]),
            )
        &&& self.finished() ==> forall|n: nat, m: T| #[trigger]
            self.wire().carried.contains((n, m)) ==> n < self.received().len()
    }

    /// Non-blocking receive. Returns `Err(TryRecvError::Empty)` if no value
    /// is ready; `Err(TryRecvError::Disconnected)` if all senders are gone.
    pub fn try_recv(&mut self) -> (result: Result<T, TryRecvError>)
        ensures
            observed(*old(self), *final(self), final(self).log().last()),
            result == final(self).log().last().as_try_recv(),
            old(self).finished() ==> result == Err::<T, TryRecvError>(TryRecvError::Disconnected),
            final(self).wire() == old(self).wire(),
            final(self).log().len() == old(self).log().len() + 1,
            final(self).log().drop_last() == old(self).log(),
            match final(self).log().last() {
                Observation::Message(m) => result == Ok::<T, TryRecvError>(m),
                Observation::Nothing => result == Err::<T, TryRecvError>(TryRecvError::Empty),
                Observation::Closed => result == Err::<T, TryRecvError>(
                    TryRecvError::Disconnected,
                ),
            },
        opens_invariants none
    {
        let seen = match self {
            DynReceiver::Bounded(r) => r.try_recv(),
            DynReceiver::Unbounded(r) => r.try_recv(),
        };
        seen.into_try_recv()
    }

    /// Poll-based receive: a message, `None` once the channel is closed, or pending,
    /// in which case the task of `cx` is woken when there is something to receive.
    pub fn poll_recv(&mut self, cx: &mut Context<'_>) -> (result: Polled<Option<T>>)
        ensures
            observed(*old(self), *final(self), final(self).log().last()),
            result == final(self).log().last().as_poll(),
            result is Pending ==> final(self).armed(*old(cx)),
            result is Pending ==> match *final(self) {
                DynReceiver::Bounded(r) => r.armed(*old(cx)),
                DynReceiver::Unbounded(r) => r.armed(*old(cx)),
            },
            *final(cx) == *old(cx),
            final(self).wire() == old(self).wire(),
            final(self).log().len() == old(self).log().len() + 1,
            final(self).log().drop_last() == old(self).log(),
            match final(self).log().last() {
                Observation::Message(m) => result == Polled::Ready(Some(m)),
                Observation::Nothing => result is Pending,
                Observation::Closed => result == Polled::Ready(None::<T>),
            },
        opens_invariants none
    {
        let seen = match self {
            DynReceiver::Bounded(r) => r.poll_recv(cx),
            DynReceiver::Unbounded(r) => r.poll_recv(cx),
        };
        seen.into_poll()
    }
}

/// One attempt to receive, which finds `seen`, takes the receiver from `pre` to
/// `post`. Nothing but the history changes, which grows by a possible observation.
pub open spec fn observed<T>(pre: DynReceiver<T>, post: DynReceiver<T>, seen: Observation<T>) -> bool {
    &&& post.wire() == pre.wire()
    &&& post.log() == pre.log().push(seen)
    &&& attempt(pre.wire(), pre.log(), seen)
}

/// `sender` and `receiver` are the ends of a fresh channel of the capacity `cap`.
pub open spec fn fresh_channel<T>(
    cap: Capacity,
    sender: DynSender<T>,
    receiver: DynReceiver<T>,
) -> bool {
    &&& sender.wire() == receiver.wire()
    &&& sender.wire().bound == cap.bound()
    &&& sender is Bounded <==> cap is Bounded
    &&& receiver.log() == Seq::<Observation<T>>::empty()
}

/// Makes a channel of the given capacity.
pub fn make_channel<T>(cap: Capacity) -> (ends: (DynSender<T>, DynReceiver<T>))
    requires
        cap.supported(),
    ensures
        fresh_channel(cap, ends.0, ends.1),
        ends.0.wire() == ends.1.wire(),
        ends.0.wire().bound == match cap {
            Capacity::Bounded(n) => Some(if n >= 1 { n } else { 1usize }),
            Capacity::Unbounded => None,
        },
        ends.0 is Bounded <==> cap is Bounded,
        ends.1.log().len() == 0,
    opens_invariants none
{
    match cap {
        Capacity::Bounded(n) => {
            let (tx, rx) = bounded(if n == 0 { 1 } else { n });
            (DynSender::Bounded(tx), DynReceiver::Bounded(rx))
        },
        Capacity::Unbounded => {
            let (tx, rx) = unbounded();
            (DynSender::Unbounded(tx), DynReceiver::Unbounded(rx))
        },
    }
}

/// Makes a channel of the given capacity for messages without ghost parts. It is the same
/// channel as [`make_channel`] makes; its contract says more: each place in the channel
/// has one message.
pub fn make_plain_channel<T: Plain>(cap: Capacity) -> (ends: (DynSender<T>, DynReceiver<T>))
    requires
        cap.supported(),
    ensures
        fresh_channel(cap, ends.0, ends.1),
        ends.0.wire() == ends.1.wire(),
        ends.0.wire().bound == match cap {
            Capacity::Bounded(n) => Some(if n >= 1 { n } else { 1usize }),
            Capacity::Unbounded => None,
        },
        ends.0 is Bounded <==> cap is Bounded,
        ends.1.log().len() == 0,
        one_each(ends.0.wire()),
    opens_invariants none
{
    match cap {
        Capacity::Bounded(n) => {
            let (tx, rx) = bounded_plain(if n == 0 { 1 } else { n });
            (DynSender::Bounded(tx), DynReceiver::Bounded(rx))
        },
        Capacity::Unbounded => {
            let (tx, rx) = unbounded_plain();
            (DynSender::Unbounded(tx), DynReceiver::Unbounded(rx))
        },
    }
}

} // verus!
