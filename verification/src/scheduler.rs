//! The built-in dispatch policies.
//!
//! Choosing the next context takes up to three steps. `next_ctx` looks at what is
//! there without waiting. If there is nothing, the caller waits by repeating
//! [`poll_any`](crate::scan::poll_any), and hands what came to `resume`.
use vstd::prelude::*;

use crate::channel::DynReceiver;
use crate::guarantees::{
    law_dispatch_keeps_the_channels, law_fair_ends_only_a_task_without_channels,
    law_item_below_the_top_ends_the_streak, law_item_was_received_from_one_channel,
    law_no_more_neglected_message_is_passed_by, law_no_more_urgent_message_is_passed_by,
    law_wait_names_every_channel,
    law_wait_only_if_every_channel_was_asked_in_vain, lemma_dispatch_keeps_the_number,
};
use crate::order::{is_priority_order, sort_order};
use crate::scan::{
    found_along, found_at, lemma_found_by_priority, lemma_nothing_found, nothing_found,
    took_by_priority, took_for_relief, try_recv_in_order, try_recv_in_order_tagged,
    try_recv_lowest_nonempty,
};

verus! {

/// What a scheduler's look at the receivers came to.
pub enum Dispatch<Ctx> {
    /// The context to process next, or `None` if the task should terminate.
    Ready(Option<Ctx>),
    /// No context is there. The caller has to wait on the receivers, in this order.
    Wait(Vec<usize>),
}

/// Strict priority: always serve the highest-priority non-empty channel.
/// Lower-priority channels may starve if higher ones never drain.
#[derive(Clone, Copy, Debug, Default)]
pub struct StrictPriority;

/// A scan by priority gave the dispatch `d`: the most urgent message, or, where no
/// receiver had any, the order to wait in.
pub open spec fn dispatched_by_priority<Ctx>(
    pre: Seq<DynReceiver<Ctx>>,
    post: Seq<DynReceiver<Ctx>>,
    priorities: Seq<u8>,
    d: Dispatch<Ctx>,
    is_top: bool,
) -> bool {
    match d {
        Dispatch::Ready(Some(m)) => took_by_priority(pre, post, priorities, m, is_top),
        Dispatch::Ready(None) => false,
        Dispatch::Wait(order) => nothing_found(pre, post) && is_priority_order(priorities, order@),
    }
}

/// How [`StrictPriority`] chooses: by priority alone.
pub open spec fn strict_dispatch<Ctx>(
    pre: Seq<DynReceiver<Ctx>>,
    post: Seq<DynReceiver<Ctx>>,
    priorities: Seq<u8>,
    d: Dispatch<Ctx>,
) -> bool {
    exists|is_top: bool| #[trigger] dispatched_by_priority(pre, post, priorities, d, is_top)
}

impl StrictPriority {
    /// Takes the next context, if one is there. If there is none, the order to wait in
    /// names every channel.
    pub fn next_ctx<Ctx>(
        &mut self,
        rxs: &mut [DynReceiver<Ctx>],
        priorities: &[u8],
    ) -> (d: Dispatch<Ctx>)
        requires
            priorities@.len() == old(rxs)@.len(),
        ensures
            strict_dispatch(old(rxs)@, final(rxs)@, priorities@, d),
            final(rxs)@.len() == old(rxs)@.len(),
            forall|i: int|
                0 <= i < old(rxs)@.len() ==> (#[trigger] final(rxs)@[i]).wire()
                    == old(rxs)@[i].wire() && old(rxs)@[i].log().is_prefix_of(
                    final(rxs)@[i].log(),
                ),
            d matches Dispatch::Ready(Some(m)) ==> exists|i: int|
                0 <= i < old(rxs)@.len() && #[trigger] final(rxs)@[i].received()
                    == old(rxs)@[i].received().push(m) && forall|j: int|
                    0 <= j < old(rxs)@.len() && j != i ==> (#[trigger] final(rxs)@[j]).received()
                        == old(rxs)@[j].received(),
            forall|i: int, j: int|
                0 <= i < old(rxs)@.len() && 0 <= j < old(rxs)@.len() && i != j
                    && #[trigger] final(rxs)@[i].received() != old(rxs)@[i].received() && (
                priorities@[j] < priorities@[i] || priorities@[j] == priorities@[i] && j < i)
                    ==> (#[trigger] final(rxs)@[j]).log().len() == old(rxs)@[j].log().len() + 1
                    && !(final(rxs)@[j].log().last() is Message),
            d != Dispatch::<Ctx>::Ready(None),
            d matches Dispatch::Wait(order) ==> order@.len() == old(rxs)@.len(),
            d matches Dispatch::Wait(order) ==> forall|i: usize|
                i < old(rxs)@.len() ==> #[trigger] order@.contains(i),
            d is Wait ==> forall|i: int|
                0 <= i < old(rxs)@.len() ==> (#[trigger] final(rxs)@[i]).log().len()
                    > old(rxs)@[i].log().len() && final(rxs)@[i].received()
                    == old(rxs)@[i].received(),
    {
        let d = self.look(rxs, priorities);
        proof {
            let s = arbitrary::<FairState>();
            assert forall|i: int, j: int|
                0 <= i < old(rxs)@.len() && 0 <= j < old(rxs)@.len() && i != j
                    && #[trigger] rxs@[i].received() != old(rxs)@[i].received() && (
                priorities@[j] < priorities@[i] || priorities@[j] == priorities@[i] && j < i)
                    implies (#[trigger] rxs@[j]).log().len() == old(rxs)@[j].log().len() + 1
                && !(rxs@[j].log().last() is Message) by {
                law_no_more_urgent_message_is_passed_by(
                    s,
                    s,
                    old(rxs)@,
                    rxs@,
                    priorities@,
                    d,
                    i,
                    j,
                );
            }
            if d is Ready && d->Ready_0 is Some {
                law_item_was_received_from_one_channel(
                    s,
                    s,
                    old(rxs)@,
                    rxs@,
                    priorities@,
                    d->Ready_0->0,
                );
            }
            assert forall|i: int| 0 <= i < old(rxs)@.len() implies (#[trigger] rxs@[i]).wire()
                == old(rxs)@[i].wire() && old(rxs)@[i].log().is_prefix_of(rxs@[i].log()) by {
                law_dispatch_keeps_the_channels(s, s, old(rxs)@, rxs@, priorities@, d, i);
            }
            lemma_dispatch_keeps_the_number(s, s, old(rxs)@, rxs@, priorities@, d);
            if d is Wait {
                let order = d->Wait_0;
                law_wait_names_every_channel(s, s, old(rxs)@, rxs@, priorities@, order);
                assert forall|i: int| 0 <= i < old(rxs)@.len() implies (
                #[trigger] rxs@[i]).log().len() > old(rxs)@[i].log().len() && rxs@[i].received()
                    == old(rxs)@[i].received() by {
                    law_wait_only_if_every_channel_was_asked_in_vain(
                        s,
                        s,
                        old(rxs)@,
                        rxs@,
                        priorities@,
                        order,
                        i,
                    );
                }
            }
        }
        d
    }

    /// Looks through the receivers by priority.
    fn look<Ctx>(
        &mut self,
        rxs: &mut [DynReceiver<Ctx>],
        priorities: &[u8],
    ) -> (d: Dispatch<Ctx>)
        requires
            priorities@.len() == old(rxs)@.len(),
        ensures
            strict_dispatch(old(rxs)@, final(rxs)@, priorities@, d),
    {
        let order = sort_order(priorities);
        // Non-blocking scan.
        match try_recv_in_order(rxs, order.as_slice()) {
            Some(m) => {
                proof {
                    let idx = choose|idx: usize| #[trigger]
                        found_along(old(rxs)@, rxs@, order@, idx, m);
                    let k = choose|k: int| #[trigger]
                        found_at(old(rxs)@, rxs@, order@, k, m) && order@[k] == idx;
                    assert(order@.len() == order.len());
                    lemma_found_by_priority(old(rxs)@, rxs@, priorities@, order@, k, m);
                    let is_top = priorities@[idx as int] == priorities@[order@[0] as int];
                    assert(dispatched_by_priority(
                        old(rxs)@,
                        rxs@,
                        priorities@,
                        Dispatch::Ready(Some(m)),
                        is_top,
                    ));
                }
                Dispatch::Ready(Some(m))
            },
            None => {
                // The caller waits until something arrives.
                proof {
                    assert(order@.len() == order.len());
                    lemma_nothing_found(old(rxs)@, rxs@, order@);
                }
                let d = Dispatch::Wait(order);
                assert(dispatched_by_priority(old(rxs)@, rxs@, priorities@, d, true));
                d
            },
        }
    }

    /// Takes what the wait brought: a context, with a flag that says whether it is from
    /// the top-priority band, or `None` if every receiver is closed.
    pub fn resume<Ctx>(&mut self, arrived: Option<(Ctx, bool)>) -> (next: Option<Ctx>)
        ensures
            arrived is None ==> next is None,
            arrived matches Some((m, _)) ==> next == Some(m),
    {
        match arrived {
            Some((m, _)) => Some(m),
            None => None,
        }
    }
}

/// Strict priority with anti-starvation: after `budget` consecutive items
/// from the top-priority band, serve one item from the lowest non-empty band
/// if any is waiting.
#[derive(Clone, Copy, Debug)]
pub struct FairPriority {
    /// How many consecutive items the top-priority band gets before relief is due.
    pub budget: u32,
    top_streak: u32,
}

/// The state of a [`FairPriority`], as contracts speak of it.
pub struct FairState {
    /// How many consecutive items the top-priority band gets before relief is due.
    pub budget: u32,
    /// How many items in a row came from the top-priority band.
    pub streak: u32,
}

impl FairState {
    /// Whether the top-priority band has used up its budget.
    pub open spec fn relief_due(self) -> bool {
        self.streak >= self.budget
    }
}

impl View for FairPriority {
    type V = FairState;

    closed spec fn view(&self) -> FairState {
        FairState { budget: self.budget, streak: self.top_streak }
    }
}

/// The streak after an item that is, or is not, from the top-priority band.
pub open spec fn next_streak(streak: u32, is_top: bool) -> u32 {
    if !is_top {
        0
    } else if streak == u32::MAX {
        streak
    } else {
        (streak + 1) as u32
    }
}

/// A scan by priority gave the dispatch `d` and took the streak from `from` to `to`.
pub open spec fn counted_dispatch<Ctx>(
    pre: Seq<DynReceiver<Ctx>>,
    post: Seq<DynReceiver<Ctx>>,
    priorities: Seq<u8>,
    from: u32,
    to: u32,
    d: Dispatch<Ctx>,
) -> bool {
    exists|is_top: bool| #[trigger]
        dispatched_by_priority(pre, post, priorities, d, is_top) && to == if d is Ready {
            next_streak(from, is_top)
        } else {
            from
        }
}

/// A scan for relief found nothing, and the scan by priority that followed it, with
/// the streak back at zero, gave the dispatch `d` and the streak `to`.
pub open spec fn dispatched_without_relief<Ctx>(
    pre: Seq<DynReceiver<Ctx>>,
    post: Seq<DynReceiver<Ctx>>,
    priorities: Seq<u8>,
    to: u32,
    d: Dispatch<Ctx>,
) -> bool {
    exists|mid: Seq<DynReceiver<Ctx>>| #[trigger]
        nothing_found(pre, mid) && counted_dispatch(mid, post, priorities, 0, to, d)
}

/// How a [`FairPriority`] in the state `s0` chooses, which leaves it in the state `s1`.
pub open spec fn fair_dispatch<Ctx>(
    s0: FairState,
    s1: FairState,
    pre: Seq<DynReceiver<Ctx>>,
    post: Seq<DynReceiver<Ctx>>,
    priorities: Seq<u8>,
    d: Dispatch<Ctx>,
) -> bool {
    &&& s1.budget == s0.budget
    &&& if pre.len() == 0 {
        // A task without channels terminates.
        d == Dispatch::<Ctx>::Ready(None) && s1 == s0 && post == pre
    } else if !s0.relief_due() {
        counted_dispatch(pre, post, priorities, s0.streak, s1.streak, d)
    } else {
        // One item from the lowest non-empty band, if any is waiting.
        ||| d matches Dispatch::Ready(Some(m)) && took_for_relief(pre, post, priorities, m)
            && s1.streak == 0
        ||| dispatched_without_relief(pre, post, priorities, s1.streak, d)
    }
}

impl FairPriority {
    /// A scheduler that grants the top-priority band `budget` consecutive items.
    pub fn new(budget: u32) -> (s: Self)
        ensures
            s@ == (FairState { budget, streak: 0 }),
    {
        FairPriority { budget, top_streak: 0 }
    }

    /// Takes the next context, if one is there. If there is none, the order to wait in
    /// names every channel. An item from below the top-priority band ends the streak.
    pub fn next_ctx<Ctx>(
        &mut self,
        rxs: &mut [DynReceiver<Ctx>],
        priorities: &[u8],
    ) -> (d: Dispatch<Ctx>)
        requires
            priorities@.len() == old(rxs)@.len(),
        ensures
            fair_dispatch(old(self)@, final(self)@, old(rxs)@, final(rxs)@, priorities@, d),
            final(rxs)@.len() == old(rxs)@.len(),
            forall|i: int|
                0 <= i < old(rxs)@.len() ==> (#[trigger] final(rxs)@[i]).wire()
                    == old(rxs)@[i].wire() && old(rxs)@[i].log().is_prefix_of(
                    final(rxs)@[i].log(),
                ),
            d matches Dispatch::Ready(Some(m)) ==> exists|i: int|
                0 <= i < old(rxs)@.len() && #[trigger] final(rxs)@[i].received()
                    == old(rxs)@[i].received().push(m) && forall|j: int|
                    0 <= j < old(rxs)@.len() && j != i ==> (#[trigger] final(rxs)@[j]).received()
                        == old(rxs)@[j].received(),
            old(self)@.streak < old(self)@.budget ==> forall|i: int, j: int|
                0 <= i < old(rxs)@.len() && 0 <= j < old(rxs)@.len() && i != j
                    && #[trigger] final(rxs)@[i].received() != old(rxs)@[i].received() && (
                priorities@[j] < priorities@[i] || priorities@[j] == priorities@[i] && j < i)
                    ==> (#[trigger] final(rxs)@[j]).log().len() == old(rxs)@[j].log().len() + 1
                    && !(final(rxs)@[j].log().last() is Message),
            old(self)@.streak >= old(self)@.budget ==> forall|i: int, j: int|
                0 <= i < old(rxs)@.len() && 0 <= j < old(rxs)@.len() && i != j
                    && #[trigger] final(rxs)@[i].received() != old(rxs)@[i].received() && (
                priorities@[j] > priorities@[i] || priorities@[j] == priorities@[i] && j < i)
                    ==> (#[trigger] final(rxs)@[j]).log().len() > old(rxs)@[j].log().len()
                    && !(final(rxs)@[j].log()[old(rxs)@[j].log().len() as int] is Message),
            d == Dispatch::<Ctx>::Ready(None) <==> old(rxs)@.len() == 0,
            d matches Dispatch::Wait(order) ==> order@.len() == old(rxs)@.len(),
            d matches Dispatch::Wait(order) ==> forall|i: usize|
                i < old(rxs)@.len() ==> #[trigger] order@.contains(i),
            d is Wait ==> forall|i: int|
                0 <= i < old(rxs)@.len() ==> (#[trigger] final(rxs)@[i]).log().len()
                    > old(rxs)@[i].log().len() && final(rxs)@[i].received()
                    == old(rxs)@[i].received(),
            forall|i: int, j: int|
                0 <= i < old(rxs)@.len() && 0 <= j < priorities@.len()
                    && #[trigger] final(rxs)@[i].received() != old(rxs)@[i].received()
                    && #[trigger] priorities@[j] < priorities@[i] ==> final(self)@.streak == 0,
    {
        let d = self.look(rxs, priorities);
        proof {
            let s0 = old(self)@;
            let s1 = self@;
            assert forall|i: int, j: int|
                0 <= i < old(rxs)@.len() && 0 <= j < old(rxs)@.len() && i != j
                    && #[trigger] rxs@[i].received() != old(rxs)@[i].received() && (
                priorities@[j] < priorities@[i] || priorities@[j] == priorities@[i] && j < i)
                    && s0.streak < s0.budget implies (#[trigger] rxs@[j]).log().len()
                == old(rxs)@[j].log().len() + 1
                && !(rxs@[j].log().last() is Message) by {
                law_no_more_urgent_message_is_passed_by(
                    s0,
                    s1,
                    old(rxs)@,
                    rxs@,
                    priorities@,
                    d,
                    i,
                    j,
                );
            }
            if d is Ready && d->Ready_0 is Some {
                law_item_was_received_from_one_channel(
                    s0,
                    s1,
                    old(rxs)@,
                    rxs@,
                    priorities@,
                    d->Ready_0->0,
                );
            }
            assert forall|i: int, j: int|
                0 <= i < old(rxs)@.len() && 0 <= j < old(rxs)@.len() && i != j
                    && #[trigger] rxs@[i].received() != old(rxs)@[i].received() && (
                priorities@[j] > priorities@[i] || priorities@[j] == priorities@[i] && j < i)
                    && s0.streak >= s0.budget implies (#[trigger] rxs@[j]).log().len()
                > old(rxs)@[j].log().len() && !(rxs@[j].log()[old(
                rxs,
            )@[j].log().len() as int] is Message) by {
                law_no_more_neglected_message_is_passed_by(
                    s0,
                    s1,
                    old(rxs)@,
                    rxs@,
                    priorities@,
                    d,
                    i,
                    j,
                );
            }
            assert forall|i: int| 0 <= i < old(rxs)@.len() implies (#[trigger] rxs@[i]).wire()
                == old(rxs)@[i].wire() && old(rxs)@[i].log().is_prefix_of(rxs@[i].log()) by {
                law_dispatch_keeps_the_channels(s0, s1, old(rxs)@, rxs@, priorities@, d, i);
            }
            lemma_dispatch_keeps_the_number(s0, s1, old(rxs)@, rxs@, priorities@, d);
            law_fair_ends_only_a_task_without_channels(s0, s1, old(rxs)@, rxs@, priorities@, d);
            if d is Wait {
                let order = d->Wait_0;
                law_wait_names_every_channel(s0, s1, old(rxs)@, rxs@, priorities@, order);
                assert forall|i: int| 0 <= i < old(rxs)@.len() implies (
                #[trigger] rxs@[i]).log().len() > old(rxs)@[i].log().len() && rxs@[i].received()
                    == old(rxs)@[i].received() by {
                    law_wait_only_if_every_channel_was_asked_in_vain(
                        s0,
                        s1,
                        old(rxs)@,
                        rxs@,
                        priorities@,
                        order,
                        i,
                    );
                }
            }
            assert forall|i: int, j: int|
                0 <= i < old(rxs)@.len() && 0 <= j < priorities@.len()
                    && #[trigger] rxs@[i].received() != old(rxs)@[i].received()
                    && #[trigger] priorities@[j] < priorities@[i] implies s1.streak == 0 by {
                law_item_below_the_top_ends_the_streak(
                    s0,
                    s1,
                    old(rxs)@,
                    rxs@,
                    priorities@,
                    d,
                    i,
                    j,
                );
            }
        }
        d
    }

    /// Looks through the receivers: for relief, if it is due, then by priority.
    fn look<Ctx>(
        &mut self,
        rxs: &mut [DynReceiver<Ctx>],
        priorities: &[u8],
    ) -> (d: Dispatch<Ctx>)
        requires
            priorities@.len() == old(rxs)@.len(),
        ensures
            fair_dispatch(old(self)@, final(self)@, old(rxs)@, final(rxs)@, priorities@, d),
    {
        let order = sort_order(priorities);
        if order.len() == 0 {
            return Dispatch::Ready(None);
        }
        let top_priority: u8 = priorities[order[0]];

        // 1) Starvation relief.
        if self.top_streak >= self.budget {
            self.top_streak = 0;
            if let Some(m) = try_recv_lowest_nonempty(rxs, priorities) {
                return Dispatch::Ready(Some(m));
            }
            // nothing waiting; fall through
        }
        let ghost mid = rxs@;

        // 2) Non-blocking priority scan.
        match try_recv_in_order_tagged(rxs, order.as_slice()) {
            Some((m, idx)) => {
                let is_top = priorities[idx] == top_priority;
                self.top_streak = if is_top {
                    self.top_streak.saturating_add(1)
                } else {
                    0
                };
                let d = Dispatch::Ready(Some(m));
                proof {
                    let k = choose|k: int| #[trigger]
                        found_at(mid, rxs@, order@, k, m) && order@[k] == idx;
                    lemma_found_by_priority(mid, rxs@, priorities@, order@, k, m);
                    assert(dispatched_by_priority(mid, rxs@, priorities@, d, is_top));
                }
                d
            },
            None => {
                // 3) The caller waits for any.
                proof {
                    lemma_nothing_found(mid, rxs@, order@);
                }
                let d = Dispatch::Wait(order);
                assert(dispatched_by_priority(mid, rxs@, priorities@, d, true));
                d
            },
        }
    }

    /// Takes what the wait brought: a context, with a flag that says whether it is from
    /// the top-priority band, or `None` if every receiver is closed.
    pub fn resume<Ctx>(&mut self, arrived: Option<(Ctx, bool)>) -> (next: Option<Ctx>)
        ensures
            final(self)@.budget == old(self)@.budget,
            arrived is None ==> next is None && final(self)@.streak == old(self)@.streak,
            arrived matches Some((m, is_top)) ==> next == Some(m) && final(self)@.streak
                == next_streak(old(self)@.streak, is_top),
            arrived matches Some((_, is_top)) ==> (!is_top ==> final(self)@.streak == 0) && (
            is_top && old(self)@.streak < u32::MAX ==> final(self)@.streak == old(self)@.streak + 1)
                && (is_top && old(self)@.streak == u32::MAX ==> final(self)@.streak == u32::MAX),
    {
        match arrived {
            Some((m, is_top)) => {
                self.top_streak = if is_top {
                    self.top_streak.saturating_add(1)
                } else {
                    0
                };
                Some(m)
            },
            None => None,
        }
    }
}

impl Default for FairPriority {
    /// The default scheduler, with a budget of 16.
    fn default() -> (s: Self)
        ensures
            s@ == (FairState { budget: 16, streak: 0 }),
    {
        FairPriority::new(16)
    }
}

} // verus!
