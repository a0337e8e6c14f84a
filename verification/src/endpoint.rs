//! The two ends of a tokio `mpsc` channel, as abstract types.
//!
//! Everything that is taken on trust about tokio stands in this module. Each end
//! keeps the tokio value in a private field, beside ghost state that only the
//! functions below can give it:
//!
//! - [`Wire`] describes the channel that an end belongs to. The two ends that one
//!   call makes describe the same channel.
//! - `log` is the history of a receiving end: what each attempt to receive found,
//!   oldest first.
//! - `armed` says whose task a receiving end wakes when there is something to receive.
//!
//! What an attempt finds depends on what other threads have sent or dropped by
//! then, so nothing here says which of the possible observations it is. Nor does
//! anything say which place in the channel's order a send gets: other senders may come
//! in between.
//!
//! A channel is closed to its receiver only when every sending end is gone, so a function
//! that sends must leave no further end behind. The functions that make one, `duplicate`,
//! are the only ones here without the mark `opens_invariants none`. A function with the
//! mark can call only functions with it, and so makes no further end of a channel.
use std::task::Context;
use tokio::sync::mpsc;
use vstd::prelude::*;

use crate::error::TrySendError;

verus! {

/// tokio's bounded sender; an opaque value.
#[verifier::external_type_specification]
#[verifier::external_body]
#[verifier::reject_recursive_types(T)]
pub struct ExSender<T>(mpsc::Sender<T>);

/// tokio's bounded receiver; an opaque value.
#[verifier::external_type_specification]
#[verifier::external_body]
#[verifier::reject_recursive_types(T)]
pub struct ExReceiver<T>(mpsc::Receiver<T>);

/// tokio's unbounded sender; an opaque value.
#[verifier::external_type_specification]
#[verifier::external_body]
#[verifier::reject_recursive_types(T)]
pub struct ExUnboundedSender<T>(mpsc::UnboundedSender<T>);

/// tokio's unbounded receiver; an opaque value.
#[verifier::external_type_specification]
#[verifier::external_body]
#[verifier::reject_recursive_types(T)]
pub struct ExUnboundedReceiver<T>(mpsc::UnboundedReceiver<T>);

/// The context of a poll, which carries the waker; an opaque value.
#[verifier::external_type_specification]
#[verifier::external_body]
pub struct ExContext<'a>(Context<'a>);

/// The largest capacity that tokio gives a bounded channel: its semaphore holds at
/// most `usize::MAX >> 3` permits.
pub open spec fn max_capacity() -> int {
    usize::MAX as int / 8
}

/// What one attempt to receive found.
pub enum Observation<T> {
    /// A message, which the attempt took out of the channel.
    Message(T),
    /// No message for now.
    Nothing,
    /// Every sender is gone and every message has been taken.
    Closed,
}

/// The channel that an end belongs to, as contracts speak of it.
#[verifier::reject_recursive_types(T)]
pub struct Wire<T> {
    /// How many messages the channel buffers; `None` if there is no bound.
    pub bound: Option<usize>,
    /// The places in the order in which the channel takes messages in during its life, one
    /// for each, and what may stand there: at least the message that does. That no other
    /// may is said of [`Plain`] messages only, with [`one_each`].
    pub carried: Set<(nat, T)>,
    /// Whether there is a time in the channel's life at which all its capacity is taken,
    /// by messages in the buffer or on their way into it.
    pub filled: bool,
    /// Whether there is a time in the channel's life at which its receiver is gone.
    pub abandoned: bool,
}

/// The message `value` has a place in the channel `wire`.
pub open spec fn placed<T>(wire: Wire<T>, value: T) -> bool {
    exists|n: nat| #[trigger] wire.carried.contains((n, value))
}

/// No place in the channel `wire` has two messages.
pub open spec fn one_each<T>(wire: Wire<T>) -> bool {
    forall|n: nat, a: T, b: T| #[trigger]
        wire.carried.contains((n, a)) && #[trigger] wire.carried.contains((n, b)) ==> a == b
}

/// The messages among the observations of `log`, oldest first.
pub open spec fn messages<T>(log: Seq<Observation<T>>) -> Seq<T>
    decreases log.len(),
{
    if log.len() == 0 {
        Seq::empty()
    } else {
        match log.last() {
            Observation::Message(m) => messages(log.drop_last()).push(m),
            _ => messages(log.drop_last()),
        }
    }
}

/// Whether an attempt recorded in `log` found the channel closed.
pub open spec fn saw_closed<T>(log: Seq<Observation<T>>) -> bool {
    exists|i: int| 0 <= i < log.len() && #[trigger] log[i] is Closed
}

/// What an attempt to receive from the channel `wire`, after the history `log`, can
/// find: a message with the next place in the channel's order, nothing for now, or the
/// end, if no place is left. A channel once found closed yields no message any more.
pub open spec fn attempt<T>(wire: Wire<T>, log: Seq<Observation<T>>, seen: Observation<T>) -> bool {
    let taken = messages(log).len();
    match seen {
        Observation::Message(m) => !saw_closed(log) && wire.carried.contains((taken, m)),
        Observation::Nothing => true,
        Observation::Closed => forall|n: nat, m: T| #[trigger]
            wire.carried.contains((n, m)) ==> n < taken,
    }
}

/// The sending end of a bounded channel.
#[verifier::reject_recursive_types(T)]
pub struct BoundedTx<T> {
    tx: mpsc::Sender<T>,
    wire: Ghost<Wire<T>>,
}

/// The receiving end of a bounded channel.
#[verifier::reject_recursive_types(T)]
pub struct BoundedRx<T> {
    rx: mpsc::Receiver<T>,
    wire: Ghost<Wire<T>>,
    log: Ghost<Seq<Observation<T>>>,
    waiting: Ghost<Option<Context<'static>>>,
}

/// The sending end of an unbounded channel.
#[verifier::reject_recursive_types(T)]
pub struct UnboundedTx<T> {
    tx: mpsc::UnboundedSender<T>,
    wire: Ghost<Wire<T>>,
}

/// The receiving end of an unbounded channel.
#[verifier::reject_recursive_types(T)]
pub struct UnboundedRx<T> {
    rx: mpsc::UnboundedReceiver<T>,
    wire: Ghost<Wire<T>>,
    log: Ghost<Seq<Observation<T>>>,
    waiting: Ghost<Option<Context<'static>>>,
}

/// Closes the list of [`Plain`] types: no other crate can add to it.
pub(crate) trait Sealed {

}

/// Messages that hold nothing but what executable code can read: integers, `bool`, `char`,
/// `()`, `String`, and pairs and options of such. None of them has ghost parts, so what
/// tokio moves from one end of a channel to the other is all of them.
#[allow(private_bounds)]
pub trait Plain: Sealed {

}

impl Sealed for u8 {

}

impl Plain for u8 {

}

impl Sealed for u16 {

}

impl Plain for u16 {

}

impl Sealed for u32 {

}

impl Plain for u32 {

}

impl Sealed for u64 {

}

impl Plain for u64 {

}

impl Sealed for u128 {

}

impl Plain for u128 {

}

impl Sealed for usize {

}

impl Plain for usize {

}

impl Sealed for i8 {

}

impl Plain for i8 {

}

impl Sealed for i16 {

}

impl Plain for i16 {

}

impl Sealed for i32 {

}

impl Plain for i32 {

}

impl Sealed for i64 {

}

impl Plain for i64 {

}

impl Sealed for i128 {

}

impl Plain for i128 {

}

impl Sealed for isize {

}

impl Plain for isize {

}

impl Sealed for bool {

}

impl Plain for bool {

}

impl Sealed for char {

}

impl Plain for char {

}

impl Sealed for () {

}

impl Plain for () {

}

impl Sealed for String {

}

impl Plain for String {

}

impl<A: Plain, B: Plain> Sealed for (A, B) {

}

impl<A: Plain, B: Plain> Plain for (A, B) {

}

impl<A: Plain> Sealed for Option<A> {

}

impl<A: Plain> Plain for Option<A> {

}

/// Calls `tokio::sync::mpsc::channel`.
///
/// Claimed: the two ends belong to one channel, which buffers `capacity` messages,
/// and nothing has been received from it yet. tokio panics on a capacity of zero
/// and on one beyond [`max_capacity`].
#[verifier::external_body]
pub(crate) fn bounded<T>(capacity: usize) -> (ends: (BoundedTx<T>, BoundedRx<T>))
    requires
        1 <= capacity <= max_capacity(),
    ensures
        ends.0.wire() == ends.1.wire(),
        ends.0.wire().bound == Some(capacity),
        ends.1.log() == Seq::<Observation<T>>::empty(),
    opens_invariants none
{
    let (tx, rx) = mpsc::channel(capacity);
    let sender = BoundedTx { tx, wire: Ghost(arbitrary()) };
    (sender, BoundedRx { rx, wire: Ghost(arbitrary()), log: Ghost(Seq::empty()), waiting: Ghost(None) })
}

/// Calls `tokio::sync::mpsc::unbounded_channel`.
///
/// Claimed: the two ends belong to one channel, which has no bound, and nothing has
/// been received from it yet.
#[verifier::external_body]
pub(crate) fn unbounded<T>() -> (ends: (UnboundedTx<T>, UnboundedRx<T>))
    ensures
        ends.0.wire() == ends.1.wire(),
        ends.0.wire().bound is None,
        ends.1.log() == Seq::<Observation<T>>::empty(),
    opens_invariants none
{
    let (tx, rx) = mpsc::unbounded_channel();
    let sender = UnboundedTx { tx, wire: Ghost(arbitrary()) };
    (sender, UnboundedRx { rx, wire: Ghost(arbitrary()), log: Ghost(Seq::empty()), waiting: Ghost(None) })
}

/// Calls `tokio::sync::mpsc::channel`, for messages without ghost parts.
///
/// Claimed: as for [`bounded`] and that each place in the channel has one message.
#[verifier::external_body]
pub(crate) fn bounded_plain<T: Plain>(capacity: usize) -> (ends: (BoundedTx<T>, BoundedRx<T>))
    requires
        1 <= capacity <= max_capacity(),
    ensures
        ends.0.wire() == ends.1.wire(),
        ends.0.wire().bound == Some(capacity),
        ends.1.log() == Seq::<Observation<T>>::empty(),
        one_each(ends.0.wire()),
    opens_invariants none
{
    let (tx, rx) = mpsc::channel(capacity);
    let sender = BoundedTx { tx, wire: Ghost(arbitrary()) };
    (sender, BoundedRx { rx, wire: Ghost(arbitrary()), log: Ghost(Seq::empty()), waiting: Ghost(None) })
}

/// Calls `tokio::sync::mpsc::unbounded_channel`, for messages without ghost parts.
///
/// Claimed: as for [`unbounded`] and that each place in the channel has one message.
#[verifier::external_body]
pub(crate) fn unbounded_plain<T: Plain>() -> (ends: (UnboundedTx<T>, UnboundedRx<T>))
    ensures
        ends.0.wire() == ends.1.wire(),
        ends.0.wire().bound is None,
        ends.1.log() == Seq::<Observation<T>>::empty(),
        one_each(ends.0.wire()),
    opens_invariants none
{
    let (tx, rx) = mpsc::unbounded_channel();
    let sender = UnboundedTx { tx, wire: Ghost(arbitrary()) };
    (sender, UnboundedRx { rx, wire: Ghost(arbitrary()), log: Ghost(Seq::empty()), waiting: Ghost(None) })
}

impl<T> BoundedTx<T> {
    /// The channel that this end belongs to.
    pub closed spec fn wire(&self) -> Wire<T> {
        self.wire@
    }

    /// The tokio sender inside.
    pub closed spec fn inner(&self) -> mpsc::Sender<T> {
        self.tx
    }

    /// The tokio sender, for a caller that awaits free capacity on it.
    pub(crate) fn as_tokio(&self) -> (tx: &mpsc::Sender<T>)
        ensures
            *tx == self.inner(),
        opens_invariants none
    {
        &self.tx
    }

    /// Calls `tokio::sync::mpsc::Sender::try_send`.
    ///
    /// Claimed: on success the message has a place in this channel; on failure it is
    /// handed back, either because the channel, which has a bound, is full or because
    /// the receiver is gone. Left unsaid is which of the three happens: that depends on
    /// how far the receiver has come by then and on whether it still exists.
    #[verifier::external_body]
    pub(crate) fn try_send(&self, value: T) -> (sent: Result<(), TrySendError<T>>)
        ensures
            sent is Ok ==> placed(self.wire(), value),
            sent matches Err(TrySendError::Full(back)) ==> back == value && self.wire().filled
                && self.wire().bound is Some,
            sent matches Err(TrySendError::Closed(back)) ==> back == value
                && self.wire().abandoned,
        opens_invariants none
    {
        match self.tx.try_send(value) {
            Ok(()) => Ok(()),
            Err(mpsc::error::TrySendError::Full(back)) => Err(TrySendError::Full(back)),
            Err(mpsc::error::TrySendError::Closed(back)) => Err(TrySendError::Closed(back)),
        }
    }

    /// Calls `tokio::sync::mpsc::Sender::clone`.
    ///
    /// Claimed: the clone sends into the same channel. The channel has one more sending end
    /// from then on, until the clone is dropped.
    #[verifier::external_body]
    pub(crate) fn duplicate(&self) -> (copy: Self)
        ensures
            copy.wire() == self.wire(),
    {
        BoundedTx { tx: self.tx.clone(), wire: Ghost(arbitrary()) }
    }
}

impl<T> UnboundedTx<T> {
    /// The channel that this end belongs to.
    pub closed spec fn wire(&self) -> Wire<T> {
        self.wire@
    }

    /// Calls `tokio::sync::mpsc::UnboundedSender::send`, which fails only when the
    /// receiver is gone.
    ///
    /// Claimed: on success the message has a place in this channel; on failure it is
    /// handed back because the receiver is gone. Left unsaid is which of the two
    /// happens: that depends on whether the receiver still exists by then. (tokio
    /// aborts the process if `usize::MAX / 2` messages are waiting.)
    #[verifier::external_body]
    pub(crate) fn send(&self, value: T) -> (sent: Result<(), T>)
        ensures
            sent is Ok ==> placed(self.wire(), value),
            sent matches Err(back) ==> back == value && self.wire().abandoned,
        opens_invariants none
    {
        self.tx.send(value).map_err(|e| e.0)
    }

    /// Calls `tokio::sync::mpsc::UnboundedSender::clone`.
    ///
    /// Claimed: the clone sends into the same channel. The channel has one more sending end
    /// from then on, until the clone is dropped.
    #[verifier::external_body]
    pub(crate) fn duplicate(&self) -> (copy: Self)
        ensures
            copy.wire() == self.wire(),
    {
        UnboundedTx { tx: self.tx.clone(), wire: Ghost(arbitrary()) }
    }
}

impl<T> BoundedRx<T> {
    /// The channel that this end belongs to.
    pub closed spec fn wire(&self) -> Wire<T> {
        self.wire@
    }

    /// What each attempt to receive has found, oldest first.
    pub closed spec fn log(&self) -> Seq<Observation<T>> {
        self.log@
    }

    /// Whether the task of `cx` is to be woken when there is something to receive.
    pub closed spec fn armed(&self, cx: Context<'_>) -> bool {
        self.waiting@ == Some(cx)
    }

    /// Calls `tokio::sync::mpsc::Receiver::try_recv`.
    ///
    /// Claimed: the history grows by what the call found. Messages come out in the
    /// order in which the channel took them in, without gaps; the channel is found
    /// closed only when all of them have come out, and from then on always. Nothing is
    /// said of a wakeup: the call arranges none, and may use up one that is arranged.
    #[verifier::external_body]
    pub(crate) fn try_recv(&mut self) -> (seen: Observation<T>)
        ensures
            final(self).wire() == old(self).wire(),
            final(self).log() == old(self).log().push(seen),
            attempt(old(self).wire(), old(self).log(), seen),
            saw_closed(old(self).log()) ==> seen is Closed,
        opens_invariants none
    {
        match self.rx.try_recv() {
            Ok(m) => Observation::Message(m),
            Err(mpsc::error::TryRecvError::Empty) => Observation::Nothing,
            Err(mpsc::error::TryRecvError::Disconnected) => Observation::Closed,
        }
    }

    /// Calls `tokio::sync::mpsc::Receiver::poll_recv`.
    ///
    /// Claimed: the history grows by what the call found. Messages come out in the
    /// order in which the channel took them in, without gaps; the channel is found
    /// closed only when all of them have come out. (It may be reported as pending even
    /// after that: tokio makes a task that has used up its budget yield before it looks
    /// into the channel.) If the call finds nothing, it has arranged for the task of `cx`
    /// to be woken. It leaves `cx` as it is.
    #[verifier::external_body]
    pub(crate) fn poll_recv(&mut self, cx: &mut Context<'_>) -> (seen: Observation<T>)
        ensures
            final(self).wire() == old(self).wire(),
            final(self).log() == old(self).log().push(seen),
            attempt(old(self).wire(), old(self).log(), seen),
            seen is Nothing ==> final(self).armed(*old(cx)),
            *final(cx) == *old(cx),
        opens_invariants none
    {
        match self.rx.poll_recv(cx) {
            std::task::Poll::Ready(Some(m)) => Observation::Message(m),
            std::task::Poll::Ready(None) => Observation::Closed,
            std::task::Poll::Pending => Observation::Nothing,
        }
    }
}

impl<T> UnboundedRx<T> {
    /// The channel that this end belongs to.
    pub closed spec fn wire(&self) -> Wire<T> {
        self.wire@
    }

    /// What each attempt to receive has found, oldest first.
    pub closed spec fn log(&self) -> Seq<Observation<T>> {
        self.log@
    }

    /// Whether the task of `cx` is to be woken when there is something to receive.
    pub closed spec fn armed(&self, cx: Context<'_>) -> bool {
        self.waiting@ == Some(cx)
    }

    /// Calls `tokio::sync::mpsc::UnboundedReceiver::try_recv`.
    ///
    /// Claimed: as for the bounded receiver's.
    #[verifier::external_body]
    pub(crate) fn try_recv(&mut self) -> (seen: Observation<T>)
        ensures
            final(self).wire() == old(self).wire(),
            final(self).log() == old(self).log().push(seen),
            attempt(old(self).wire(), old(self).log(), seen),
            saw_closed(old(self).log()) ==> seen is Closed,
        opens_invariants none
    {
        match self.rx.try_recv() {
            Ok(m) => Observation::Message(m),
            Err(mpsc::error::TryRecvError::Empty) => Observation::Nothing,
            Err(mpsc::error::TryRecvError::Disconnected) => Observation::Closed,
        }
    }

    /// Calls `tokio::sync::mpsc::UnboundedReceiver::poll_recv`.
    ///
    /// Claimed: as for the bounded receiver's.
    #[verifier::external_body]
    pub(crate) fn poll_recv(&mut self, cx: &mut Context<'_>) -> (seen: Observation<T>)
        ensures
            final(self).wire() == old(self).wire(),
            final(self).log() == old(self).log().push(seen),
            attempt(old(self).wire(), old(self).log(), seen),
            seen is Nothing ==> final(self).armed(*old(cx)),
            *final(cx) == *old(cx),
        opens_invariants none
    {
        match self.rx.poll_recv(cx) {
            std::task::Poll::Ready(Some(m)) => Observation::Message(m),
            std::task::Poll::Ready(None) => Observation::Closed,
            std::task::Poll::Pending => Observation::Nothing,
        }
    }
}

/// A receiving end wakes one task at most.
pub proof fn law_one_task_is_woken<T>(
    bounded: BoundedRx<T>,
    unbounded: UnboundedRx<T>,
    a: Context<'_>,
    b: Context<'_>,
)
    ensures
        bounded.armed(a) && bounded.armed(b) ==> a == b,
        unbounded.armed(a) && unbounded.armed(b) ==> a == b,
{
}

} // verus!
