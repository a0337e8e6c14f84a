//! The declaration of a task's channels.
use std::marker::PhantomData;
use vstd::prelude::*;

use crate::channel::Capacity;

verus! {

/// An opaque token identifying one channel registered on a task. It holds no context, so
/// it is `Send` and `Sync` whatever `Ctx` is.
#[derive(Debug)]
pub struct Channel<Ctx> {
    idx: usize,
    _marker: PhantomData<Ghost<Ctx>>,
}

impl<Ctx> Channel<Ctx> {
    /// The place of the channel among those registered on its task.
    pub closed spec fn index(self) -> usize {
        self.idx
    }

    /// Tells which channel the token stands for.
    pub(crate) fn idx(&self) -> (idx: usize)
        ensures
            idx == self.index(),
        opens_invariants none
    {
        self.idx
    }
}

impl<Ctx> Clone for Channel<Ctx> {
    fn clone(&self) -> (copy: Self)
        ensures
            copy == *self,
    {
        *self
    }
}

impl<Ctx> Copy for Channel<Ctx> {

}

/// How one channel was declared.
#[derive(Clone, Copy, Debug)]
pub struct ChannelSpec {
    /// Lower value = higher priority. 0 is the highest.
    pub priority: u8,
    /// How many messages the channel buffers.
    pub capacity: Capacity,
}

/// Declares the set of channels a task will receive on.
pub struct TaskBuilder<Ctx> {
    channels: Vec<ChannelSpec>,
    _marker: PhantomData<Ghost<Ctx>>,
}

impl<Ctx> View for TaskBuilder<Ctx> {
    type V = Seq<ChannelSpec>;

    /// The channels declared so far, in registration order.
    closed spec fn view(&self) -> Seq<ChannelSpec> {
        self.channels@
    }
}

impl<Ctx> Default for TaskBuilder<Ctx> {
    fn default() -> (builder: Self)
        ensures
            builder@ == Seq::<ChannelSpec>::empty(),
    {
        Self::new()
    }
}

/// Whether channels of all the declared capacities can be made.
pub open spec fn all_supported(specs: Seq<ChannelSpec>) -> bool {
    forall|i: int| 0 <= i < specs.len() ==> (#[trigger] specs[i]).capacity.supported()
}

impl<Ctx> TaskBuilder<Ctx> {
    /// A builder without channels.
    pub fn new() -> (builder: Self)
        ensures
            builder@ == Seq::<ChannelSpec>::empty(),
    {
        TaskBuilder { channels: Vec::new(), _marker: PhantomData }
    }

    /// Register a channel with the given priority (0 = highest) and capacity.
    ///
    /// Multiple channels may share the same priority; among equals the
    /// default scheduler visits them in registration order.
    pub fn add_channel(&mut self, priority: u8, capacity: Capacity) -> (ch: Channel<Ctx>)
        ensures
            final(self)@ == old(self)@.push(ChannelSpec { priority, capacity }),
            ch.index() == old(self)@.len(),
    {
        let idx: usize = self.channels.len();
        self.channels.push(ChannelSpec { priority, capacity });
        Channel { idx, _marker: PhantomData }
    }

    /// Convenience: register an unbounded channel.
    pub fn add_unbounded(&mut self, priority: u8) -> (ch: Channel<Ctx>)
        ensures
            final(self)@ == old(self)@.push(
                ChannelSpec { priority, capacity: Capacity::Unbounded },
            ),
            ch.index() == old(self)@.len(),
    {
        self.add_channel(priority, Capacity::Unbounded)
    }

    /// Convenience: register a bounded channel with the given capacity.
    pub fn add_bounded(&mut self, priority: u8, capacity: usize) -> (ch: Channel<Ctx>)
        ensures
            final(self)@ == old(self)@.push(
                ChannelSpec { priority, capacity: Capacity::Bounded(capacity) },
            ),
            ch.index() == old(self)@.len(),
    {
        self.add_channel(priority, Capacity::Bounded(capacity))
    }

    /// The number of channels declared so far.
    pub fn channel_count(&self) -> (count: usize)
        ensures
            count == self@.len(),
    {
        self.channels.len()
    }

    /// Tests whether channels of all the declared capacities can be made.
    pub fn is_supported(&self) -> (yes: bool)
        ensures
            yes == all_supported(self@),
            yes <==> forall|i: int|
                0 <= i < self@.len() ==> match (#[trigger] self@[i]).capacity {
                    Capacity::Bounded(n) => n <= usize::MAX / 8,
                    Capacity::Unbounded => true,
                },
    {
        let mut i: usize = 0;
        while i < self.channels.len()
            invariant
                i <= self@.len(),
                self@ == self.channels@,
                all_supported(self@.take(i as int)),
            decreases self@.len() - i,
        {
            if !self.channels[i].capacity.is_supported() {
                return false;
            }
            i = i + 1;
        }
        assert(self@.take(i as int) == self@);
        true
    }

    /// The declared channels, in registration order.
    pub(crate) fn specs(&self) -> (specs: &Vec<ChannelSpec>)
        ensures
            specs@ == self@,
    {
        &self.channels
    }
}

} // verus!
