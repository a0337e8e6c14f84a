//! The channels of a started task: the producers' handle and the consumer's ends.
use std::sync::Arc;
use vstd::prelude::*;

use crate::builder::{all_supported, Channel, ChannelSpec, TaskBuilder};
use crate::channel::{
    fresh_channel, make_channel, make_plain_channel, send_outcome, Capacity, DynReceiver, DynSender,
    SendStep,
};
use crate::endpoint::{one_each, Plain};
use crate::error::TrySendError;
use crate::guarantees::law_task_has_exactly_the_declared_channels;

verus! {

/// Producer-side handle. Cheap to clone; can be shared across threads.
#[verifier::reject_recursive_types(Ctx)]
pub struct TaskHandler<Ctx> {
    senders: Arc<Vec<DynSender<Ctx>>>,
}

impl<Ctx> View for TaskHandler<Ctx> {
    type V = Seq<DynSender<Ctx>>;

    /// The senders of the task's channels, in registration order.
    closed spec fn view(&self) -> Seq<DynSender<Ctx>> {
        self.senders@
    }
}

/// Calls `Arc::clone`.
///
/// Claimed: the clone points to the same value.
#[verifier::external_body]
fn share<T>(shared: &Arc<T>) -> (copy: Arc<T>)
    ensures
        copy == *shared,
{
    shared.clone()
}

impl<Ctx> Clone for TaskHandler<Ctx> {
    fn clone(&self) -> (copy: Self)
        ensures
            copy@ == self@,
    {
        TaskHandler { senders: share(&self.senders) }
    }
}

impl<Ctx> TaskHandler<Ctx> {
    /// What [`try_send`](Self::try_send) of `ctx` on the channel `ch` may answer.
    pub open spec fn try_send_answers(
        &self,
        ch: Channel<Ctx>,
        ctx: Ctx,
        sent: Result<(), TrySendError<Ctx>>,
    ) -> bool {
        send_outcome(self@[ch.index() as int].wire(), ctx, sent)
    }

    /// What [`send`](Self::send) of `ctx` on the channel `ch` may answer.
    pub open spec fn send_answers(
        &self,
        ch: Channel<Ctx>,
        ctx: Ctx,
        sent: Result<(), TrySendError<Ctx>>,
    ) -> bool {
        send_outcome(self@[ch.index() as int].wire(), ctx, sent)
    }

    /// Tests whether the token stands for one of the handler's channels.
    pub fn has_channel(&self, ch: Channel<Ctx>) -> (yes: bool)
        ensures
            yes == (ch.index() < self@.len()),
    {
        ch.idx() < self.senders.len()
    }

    /// Non-blocking send. On a bounded channel this returns `Full` when the
    /// queue is at capacity; on an unbounded channel it is effectively
    /// infallible except when the task has already stopped.
    pub fn try_send(&self, ch: Channel<Ctx>, ctx: Ctx) -> (sent: Result<(), TrySendError<Ctx>>)
        requires
            ch.index() < self@.len(),
        ensures
            self.try_send_answers(ch, ctx, sent),
            sent is Ok ==> exists|n: nat| #[trigger]
                self@[ch.index() as int].wire().carried.contains((n, ctx)),
            sent matches Err(TrySendError::Full(back)) ==> back == ctx
                && self@[ch.index() as int].wire().bound is Some,
            sent matches Err(TrySendError::Closed(back)) ==> back == ctx
                && self@[ch.index() as int].wire().abandoned,
    {
        self.senders[ch.idx()].try_send(ctx)
    }

    /// The same call as [`try_send`](Self::try_send). Use
    /// [`send_async`](Self::send_async) when you want proper backpressure on bounded
    /// channels.
    pub fn send(&self, ch: Channel<Ctx>, ctx: Ctx) -> (sent: Result<(), TrySendError<Ctx>>)
        requires
            ch.index() < self@.len(),
        ensures
            self.send_answers(ch, ctx, sent),
            sent is Ok ==> exists|n: nat| #[trigger]
                self@[ch.index() as int].wire().carried.contains((n, ctx)),
            sent matches Err(TrySendError::Full(back)) ==> back == ctx
                && self@[ch.index() as int].wire().bound is Some,
            sent matches Err(TrySendError::Closed(back)) ==> back == ctx
                && self@[ch.index() as int].wire().abandoned,
    {
        self.try_send(ch, ctx)
    }

    /// First step of a send with backpressure. On bounded channels the caller awaits
    /// free capacity on the tokio sender that it gets; on unbounded channels the send
    /// resolves immediately.
    pub fn send_async(&self, ch: Channel<Ctx>, ctx: Ctx) -> (step: SendStep<'_, Ctx>)
        requires
            ch.index() < self@.len(),
        ensures
            self@[ch.index() as int].first_step(ctx, step),
            step is Done <==> self@[ch.index() as int] is Unbounded,
            step matches SendStep::Done(Ok(())) ==> exists|n: nat| #[trigger]
                self@[ch.index() as int].wire().carried.contains((n, ctx)),
            step matches SendStep::Done(Err(e)) ==> e.0 == ctx
                && self@[ch.index() as int].wire().abandoned,
            step matches SendStep::Wait(tx, v) ==> v == ctx && *tx
                == self@[ch.index() as int]->Bounded_0.inner(),
    {
        self.senders[ch.idx()].send_async(ctx)
    }

    /// The number of channels of the task.
    pub fn channel_count(&self) -> (count: usize)
        ensures
            count == self@.len(),
    {
        self.senders.len()
    }
}

/// The channels of a task that is about to start.
#[verifier::reject_recursive_types(Ctx)]
pub struct TaskChannels<Ctx> {
    /// The handle for producers.
    pub handler: TaskHandler<Ctx>,
    /// The receivers, in registration order.
    pub receivers: Vec<DynReceiver<Ctx>>,
    /// The priorities, aligned with the receivers.
    pub priorities: Vec<u8>,
}

/// The channels that a task gets: those declared or, if there are none, a single
/// unbounded one so that the handler is usable.
pub open spec fn effective_specs(declared: Seq<ChannelSpec>) -> Seq<ChannelSpec> {
    if declared.len() == 0 {
        seq![ChannelSpec { priority: 0, capacity: Capacity::Unbounded }]
    } else {
        declared
    }
}

/// `senders`, `receivers` and `priorities` are fresh channels as `specs` declare them.
pub open spec fn opened<Ctx>(
    specs: Seq<ChannelSpec>,
    senders: Seq<DynSender<Ctx>>,
    receivers: Seq<DynReceiver<Ctx>>,
    priorities: Seq<u8>,
) -> bool {
    &&& senders.len() == specs.len()
    &&& receivers.len() == specs.len()
    &&& priorities.len() == specs.len()
    &&& forall|i: int|
        #![trigger specs[i]]
        #![trigger senders[i]]
        #![trigger receivers[i]]
        #![trigger priorities[i]]
        0 <= i < specs.len() ==> fresh_channel(specs[i].capacity, senders[i], receivers[i])
            && priorities[i] == specs[i].priority
}

/// Makes the channels that `builder` declares, each with a call of `make`.
fn open_with<Ctx, F: Fn(Capacity) -> (DynSender<Ctx>, DynReceiver<Ctx>)>(
    builder: TaskBuilder<Ctx>,
    make: F,
) -> (channels: TaskChannels<Ctx>)
    requires
        all_supported(builder@),
        forall|cap: Capacity| cap.supported() ==> #[trigger] call_requires(make, (cap,)),
    ensures
        channels.handler@.len() == effective_specs(builder@).len(),
        channels.receivers@.len() == effective_specs(builder@).len(),
        channels.priorities@.len() == effective_specs(builder@).len(),
        forall|i: int|
            0 <= i < channels.priorities@.len() ==> #[trigger] channels.priorities@[i]
                == effective_specs(builder@)[i].priority && call_ensures(
                make,
                (effective_specs(builder@)[i].capacity,),
                (channels.handler@[i], channels.receivers@[i]),
            ),
{
    let specs = builder.specs();
    let mut senders: Vec<DynSender<Ctx>> = Vec::new();
    let mut receivers: Vec<DynReceiver<Ctx>> = Vec::new();
    let mut priorities: Vec<u8> = Vec::new();
    if specs.len() == 0 {
        // Degenerate case: create a single unbounded channel so the handler
        // is usable.
        let (tx, rx) = make(Capacity::Unbounded);
        senders.push(tx);
        receivers.push(rx);
        priorities.push(0);
    } else {
        let mut i: usize = 0;
        while i < specs.len()
            invariant
                i <= specs@.len(),
                all_supported(specs@),
                forall|cap: Capacity| cap.supported() ==> #[trigger] call_requires(make, (cap,)),
                senders@.len() == i,
                receivers@.len() == i,
                priorities@.len() == i,
                forall|j: int|
                    0 <= j < i ==> #[trigger] priorities@[j] == specs@[j].priority
                        && call_ensures(make, (specs@[j].capacity,), (senders@[j], receivers@[j])),
            decreases specs@.len() - i,
        {
            let (tx, rx) = make(specs[i].capacity);
            senders.push(tx);
            receivers.push(rx);
            priorities.push(specs[i].priority);
            i = i + 1;
        }
    }
    TaskChannels { handler: TaskHandler { senders: Arc::new(senders) }, receivers, priorities }
}

/// Makes the channels that `builder` declares.
pub fn open_task<Ctx>(builder: TaskBuilder<Ctx>) -> (channels: TaskChannels<Ctx>)
    requires
        all_supported(builder@),
    ensures
        opened(
            effective_specs(builder@),
            channels.handler@,
            channels.receivers@,
            channels.priorities@,
        ),
        builder@.len() > 0 ==> channels.handler@.len() == builder@.len()
            && channels.receivers@.len() == builder@.len() && channels.priorities@.len()
            == builder@.len(),
        builder@.len() == 0 ==> channels.handler@.len() == 1 && channels.receivers@.len() == 1
            && channels.priorities@.len() == 1,
        forall|i: int|
            0 <= i < builder@.len() ==> #[trigger] channels.priorities@[i] == builder@[i].priority,
        forall|i: int|
            0 <= i < channels.handler@.len() ==> (#[trigger] channels.handler@[i]).wire()
                == channels.receivers@[i].wire(),
{
    let ghost declared = builder@;
    let ghost specs = effective_specs(declared);
    let channels = open_with(builder, make_channel::<Ctx>);
    assert forall|i: int| 0 <= i < specs.len() implies fresh_channel(
        #[trigger] specs[i].capacity,
        channels.handler@[i],
        channels.receivers@[i],
    ) by {
        assert(channels.priorities@[i] == specs[i].priority);
    }
    proof {
        assert forall|i: int| 0 <= i < specs.len() implies (
        #[trigger] channels.handler@[i]).wire() == channels.receivers@[i].wire() by {
            assert(fresh_channel(
                specs[i].capacity,
                channels.handler@[i],
                channels.receivers@[i],
            ));
        }
        law_task_has_exactly_the_declared_channels(
            declared,
            channels.handler@,
            channels.receivers@,
            channels.priorities@,
        );
    }
    channels
}

/// Makes the channels that `builder` declares, for contexts without ghost parts. They are
/// the same channels as [`open_task`] makes; the contract says more: each place in a
/// channel has one context.
pub fn open_plain_task<Ctx: Plain>(builder: TaskBuilder<Ctx>) -> (channels: TaskChannels<Ctx>)
    requires
        all_supported(builder@),
    ensures
        opened(
            effective_specs(builder@),
            channels.handler@,
            channels.receivers@,
            channels.priorities@,
        ),
        forall|i: int|
            0 <= i < channels.handler@.len() ==> one_each(
                (#[trigger] channels.handler@[i]).wire(),
            ),
        builder@.len() > 0 ==> channels.handler@.len() == builder@.len()
            && channels.receivers@.len() == builder@.len() && channels.priorities@.len()
            == builder@.len(),
        builder@.len() == 0 ==> channels.handler@.len() == 1 && channels.receivers@.len() == 1
            && channels.priorities@.len() == 1,
        forall|i: int|
            0 <= i < builder@.len() ==> #[trigger] channels.priorities@[i] == builder@[i].priority,
        forall|i: int|
            0 <= i < channels.handler@.len() ==> (#[trigger] channels.handler@[i]).wire()
                == channels.receivers@[i].wire(),
{
    let ghost declared = builder@;
    let ghost specs = effective_specs(declared);
    let channels = open_with(builder, make_plain_channel::<Ctx>);
    assert forall|i: int| 0 <= i < specs.len() implies fresh_channel(
        #[trigger] specs[i].capacity,
        channels.handler@[i],
        channels.receivers@[i],
    ) by {
        assert(channels.priorities@[i] == specs[i].priority);
    }
    assert forall|i: int| 0 <= i < specs.len() implies one_each(
        (#[trigger] channels.handler@[i]).wire(),
    ) by {
        assert(channels.priorities@[i] == specs[i].priority);
    }
    proof {
        assert forall|i: int| 0 <= i < specs.len() implies (
        #[trigger] channels.handler@[i]).wire() == channels.receivers@[i].wire() by {
            assert(fresh_channel(
                specs[i].capacity,
                channels.handler@[i],
                channels.receivers@[i],
            ));
        }
        law_task_has_exactly_the_declared_channels(
            declared,
            channels.handler@,
            channels.receivers@,
            channels.priorities@,
        );
    }
    channels
}

} // verus!
