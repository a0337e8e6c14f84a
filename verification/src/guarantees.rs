//! What a user of the library can rely on, said in plain terms: of histories, messages,
//! priority values and counts, without the vocabulary that the contracts are written in.
use std::task::Context;
use vstd::prelude::*;

use crate::builder::{all_supported, ChannelSpec};
use crate::channel::{observed, send_outcome, Capacity, DynReceiver, DynSender, Polled, SendStep};
use crate::endpoint::Observation;
use crate::error::{TryRecvError, TrySendError};
use crate::handler::{effective_specs, opened};
use crate::order::{
    in_top_band, is_priority_order, is_relief_order, more_neglected, more_urgent, names_only,
};
use crate::runs::{
    earlier, fair_dispatch_step, fair_poll_step, fair_steps, handed_out, lemma_stop_yields,
    lemma_walk_grows, poll_turn, resumed, turns, FairStep, Turn,
};
use crate::scan::{
    awaited_along, found_by_priority, found_for_relief, lemma_last_visit_closed, lemma_poll_over,
    lemma_walked_closed_once, nothing_found, polled_by_priority, polled_in_turn, stopped_at,
    took_by_priority, walked, walked_closed,
};
use crate::scheduler::{
    counted_dispatch, dispatched_by_priority, dispatched_without_relief, fair_dispatch,
    next_streak, strict_dispatch, Dispatch, FairState,
};

verus! {

// The vocabulary.

/// The receiver was asked once and gave `m`.
pub open spec fn gave<T>(pre: DynReceiver<T>, post: DynReceiver<T>, m: T) -> bool {
    &&& post.wire() == pre.wire()
    &&& post.log() == pre.log().push(Observation::Message(m))
}

/// The receiver was asked once and had no message.
pub open spec fn had_none<T>(pre: DynReceiver<T>, post: DynReceiver<T>) -> bool {
    &&& post.wire() == pre.wire()
    &&& post.log().len() == pre.log().len() + 1
    &&& post.log() == pre.log().push(post.log().last())
    &&& !(post.log().last() is Message)
}

/// Each receiver was asked once and had no message.
pub open spec fn all_had_none<T>(pre: Seq<DynReceiver<T>>, post: Seq<DynReceiver<T>>) -> bool {
    &&& post.len() == pre.len()
    &&& forall|i: int| 0 <= i < pre.len() ==> had_none(#[trigger] pre[i], #[trigger] post[i])
}

/// Channel `a` has a smaller priority value than channel `b` or, with the same, was
/// registered before it.
pub open spec fn ahead(priorities: Seq<u8>, a: int, b: int) -> bool {
    priorities[a] < priorities[b] || priorities[a] == priorities[b] && a < b
}

/// Channel `a` has a larger priority value than channel `b` or, with the same, was
/// registered before it.
pub open spec fn below(priorities: Seq<u8>, a: int, b: int) -> bool {
    priorities[a] > priorities[b] || priorities[a] == priorities[b] && a < b
}

/// No channel has a smaller priority value than channel `i`.
pub open spec fn on_top(priorities: Seq<u8>, i: int) -> bool {
    forall|j: int| 0 <= j < priorities.len() ==> priorities[i] <= #[trigger] priorities[j]
}

/// `order` names each of the channels once, by ascending priority value and equals in
/// registration order.
pub open spec fn names_each_by_priority(order: Seq<usize>, priorities: Seq<u8>) -> bool {
    &&& order.len() == priorities.len()
    &&& forall|k: int| 0 <= k < order.len() ==> #[trigger] order[k] < priorities.len()
    &&& forall|i: usize| i < priorities.len() ==> #[trigger] order.contains(i)
    &&& forall|a: int, b: int|
        0 <= a < b < order.len() ==> ahead(
            priorities,
            #[trigger] order[a] as int,
            #[trigger] order[b] as int,
        )
}

/// Channel `i` gave `m`. Each channel ahead of it was asked once and had no message; the
/// others were not touched.
pub open spec fn most_urgent_gave<T>(
    pre: Seq<DynReceiver<T>>,
    post: Seq<DynReceiver<T>>,
    priorities: Seq<u8>,
    i: int,
    m: T,
) -> bool {
    &&& post.len() == pre.len()
    &&& 0 <= i < pre.len()
    &&& gave(pre[i], post[i], m)
    &&& forall|j: int|
        0 <= j < pre.len() && j != i && ahead(priorities, j, i) ==> had_none(
            #[trigger] pre[j],
            #[trigger] post[j],
        )
    &&& forall|j: int|
        0 <= j < pre.len() && j != i && !ahead(priorities, j, i) ==> #[trigger] post[j]
            == #[trigger] pre[j]
}

/// Channel `i` gave `m`. Each channel below it was asked once and had no message; the
/// others were not touched.
pub open spec fn most_neglected_gave<T>(
    pre: Seq<DynReceiver<T>>,
    post: Seq<DynReceiver<T>>,
    priorities: Seq<u8>,
    i: int,
    m: T,
) -> bool {
    &&& post.len() == pre.len()
    &&& 0 <= i < pre.len()
    &&& gave(pre[i], post[i], m)
    &&& forall|j: int|
        0 <= j < pre.len() && j != i && below(priorities, j, i) ==> had_none(
            #[trigger] pre[j],
            #[trigger] post[j],
        )
    &&& forall|j: int|
        0 <= j < pre.len() && j != i && !below(priorities, j, i) ==> #[trigger] post[j]
            == #[trigger] pre[j]
}

// Single dispatches.

proof fn lemma_none<T>(pre: Seq<DynReceiver<T>>, post: Seq<DynReceiver<T>>)
    requires
        nothing_found(pre, post),
    ensures
        all_had_none(pre, post),
{
}

proof fn lemma_urgent<T>(
    pre: Seq<DynReceiver<T>>,
    post: Seq<DynReceiver<T>>,
    priorities: Seq<u8>,
    i: int,
    m: T,
)
    requires
        found_by_priority(pre, post, priorities, i, m),
    ensures
        most_urgent_gave(pre, post, priorities, i, m),
{
    assert(forall|j: int| #[trigger] more_urgent(priorities, j, i) <==> ahead(priorities, j, i));
}

proof fn lemma_neglected<T>(
    pre: Seq<DynReceiver<T>>,
    post: Seq<DynReceiver<T>>,
    priorities: Seq<u8>,
    i: int,
    m: T,
)
    requires
        found_for_relief(pre, post, priorities, i, m),
    ensures
        most_neglected_gave(pre, post, priorities, i, m),
{
    assert(forall|j: int| #[trigger] more_neglected(priorities, j, i) <==> below(priorities, j, i));
}

/// What the result of a scan by priority says of the channels and of the flag.
proof fn lemma_by_priority<T>(
    pre: Seq<DynReceiver<T>>,
    post: Seq<DynReceiver<T>>,
    priorities: Seq<u8>,
    d: Dispatch<T>,
    is_top: bool,
)
    requires
        dispatched_by_priority(pre, post, priorities, d, is_top),
    ensures
        d matches Dispatch::Ready(Some(m)) ==> exists|i: int| #[trigger]
            most_urgent_gave(pre, post, priorities, i, m) && is_top == on_top(priorities, i),
        d != Dispatch::<T>::Ready(None),
        d matches Dispatch::Wait(order) ==> all_had_none(pre, post) && names_each_by_priority(
            order@,
            priorities,
        ),
{
    match d {
        Dispatch::Ready(Some(m)) => {
            let i = lemma_took(pre, post, priorities, m, is_top);
            assert(most_urgent_gave(pre, post, priorities, i, m));
        },
        Dispatch::Ready(None) => {},
        Dispatch::Wait(order) => {
            lemma_none(pre, post);
            law_priority_order_names_each_channel(priorities, order@);
        },
    }
}

proof fn lemma_took<T>(
    pre: Seq<DynReceiver<T>>,
    post: Seq<DynReceiver<T>>,
    priorities: Seq<u8>,
    m: T,
    is_top: bool,
) -> (i: int)
    requires
        took_by_priority(pre, post, priorities, m, is_top),
    ensures
        most_urgent_gave(pre, post, priorities, i, m),
        is_top == on_top(priorities, i),
{
    let i = choose|i: int| #[trigger]
        found_by_priority(pre, post, priorities, i, m) && is_top
            == in_top_band(priorities, i);
    lemma_urgent(pre, post, priorities, i, m);
    i
}

/// The priority order names each channel once, by ascending priority value and equals in
/// registration order.
pub proof fn law_priority_order_names_each_channel(priorities: Seq<u8>, order: Seq<usize>)
    requires
        is_priority_order(priorities, order),
    ensures
        names_each_by_priority(order, priorities),
{
}

/// The relief order names each channel once, by descending priority value and equals in
/// registration order.
pub proof fn law_relief_order_names_each_channel(priorities: Seq<u8>, order: Seq<usize>)
    requires
        is_relief_order(priorities, order),
    ensures
        order.len() == priorities.len(),
        forall|k: int| 0 <= k < order.len() ==> #[trigger] order[k] < priorities.len(),
        forall|i: usize| i < priorities.len() ==> #[trigger] order.contains(i),
        forall|a: int, b: int|
            0 <= a < b < order.len() ==> below(
                priorities,
                #[trigger] order[a] as int,
                #[trigger] order[b] as int,
            ),
{
}

/// A dispatch of `StrictPriority` gives the message of the first channel, by priority value
/// and registration, that has one. If none has, it asks to wait on each of the channels. It
/// never ends the task.
pub proof fn law_strict_gives_the_most_urgent<T>(
    pre: Seq<DynReceiver<T>>,
    post: Seq<DynReceiver<T>>,
    priorities: Seq<u8>,
    d: Dispatch<T>,
)
    requires
        strict_dispatch(pre, post, priorities, d),
    ensures
        d matches Dispatch::Ready(Some(m)) ==> exists|i: int| #[trigger]
            most_urgent_gave(pre, post, priorities, i, m),
        d != Dispatch::<T>::Ready(None),
        d matches Dispatch::Wait(order) ==> all_had_none(pre, post) && names_each_by_priority(
            order@,
            priorities,
        ),
{
    let is_top = choose|is_top: bool| #[trigger]
        dispatched_by_priority(pre, post, priorities, d, is_top);
    lemma_by_priority(pre, post, priorities, d, is_top);
}

/// While the top-priority band has not had `budget` items in a row, a dispatch of
/// `FairPriority` gives the message of the first channel, by priority value and
/// registration, that has one. An item from a channel with the smallest priority value
/// lengthens the streak by one; any other ends it. If no channel has a message, the
/// dispatch asks to wait on each of the channels and the streak stays.
pub proof fn law_fair_gives_the_most_urgent_within_budget<T>(
    s0: FairState,
    s1: FairState,
    pre: Seq<DynReceiver<T>>,
    post: Seq<DynReceiver<T>>,
    priorities: Seq<u8>,
    d: Dispatch<T>,
)
    requires
        fair_dispatch(s0, s1, pre, post, priorities, d),
        pre.len() > 0,
        s0.streak < s0.budget,
    ensures
        s1.budget == s0.budget,
        d matches Dispatch::Ready(Some(m)) ==> exists|i: int| #[trigger]
            most_urgent_gave(pre, post, priorities, i, m) && s1.streak == (if on_top(
                priorities,
                i,
            ) {
                s0.streak + 1
            } else {
                0
            }),
        d != Dispatch::<T>::Ready(None),
        d matches Dispatch::Wait(order) ==> all_had_none(pre, post) && names_each_by_priority(
            order@,
            priorities,
        ) && s1.streak == s0.streak,
{
    lemma_counted(pre, post, priorities, s0.streak, s1.streak, d);
}

/// The streak that a scan by priority leaves.
proof fn lemma_counted<T>(
    pre: Seq<DynReceiver<T>>,
    post: Seq<DynReceiver<T>>,
    priorities: Seq<u8>,
    from: u32,
    to: u32,
    d: Dispatch<T>,
)
    requires
        counted_dispatch(pre, post, priorities, from, to, d),
        from < u32::MAX,
    ensures
        d matches Dispatch::Ready(Some(m)) ==> exists|i: int| #[trigger]
            most_urgent_gave(pre, post, priorities, i, m) && to == (if on_top(priorities, i) {
                from + 1
            } else {
                0
            }),
        d != Dispatch::<T>::Ready(None),
        d matches Dispatch::Wait(order) ==> all_had_none(pre, post) && names_each_by_priority(
            order@,
            priorities,
        ) && to == from,
{
    let is_top = choose|is_top: bool| #[trigger]
        dispatched_by_priority(pre, post, priorities, d, is_top) && to == if d is Ready {
            next_streak(from, is_top)
        } else {
            from
        };
    lemma_by_priority(pre, post, priorities, d, is_top);
    if let Dispatch::Ready(Some(m)) = d {
        let i = choose|i: int| #[trigger]
            most_urgent_gave(pre, post, priorities, i, m) && is_top == on_top(priorities, i);
        assert(most_urgent_gave(pre, post, priorities, i, m));
    }
}

/// Each channel was asked and had no message; then channel `i` gave `m`, and each channel
/// ahead of it had none again.
pub open spec fn gave_after_all_had_none<T>(
    pre: Seq<DynReceiver<T>>,
    post: Seq<DynReceiver<T>>,
    priorities: Seq<u8>,
    i: int,
    m: T,
) -> bool {
    exists|mid: Seq<DynReceiver<T>>| #[trigger]
        all_had_none(pre, mid) && most_urgent_gave(mid, post, priorities, i, m)
}

/// Channel `i` gave `m` when relief was due, and the streak became `streak`: either it is
/// the most neglected that had a message and the streak starts anew, or none had one when
/// first asked and `i` was served by priority, as the first of a streak.
pub open spec fn gave_as_relief<T>(
    pre: Seq<DynReceiver<T>>,
    post: Seq<DynReceiver<T>>,
    priorities: Seq<u8>,
    i: int,
    m: T,
    streak: u32,
) -> bool {
    ||| most_neglected_gave(pre, post, priorities, i, m) && streak == 0
    ||| gave_after_all_had_none(pre, post, priorities, i, m) && streak == if on_top(
        priorities,
        i,
    ) {
        1u32
    } else {
        0u32
    }
}

/// Each channel was asked twice and had no message.
pub open spec fn all_had_none_twice<T>(
    pre: Seq<DynReceiver<T>>,
    post: Seq<DynReceiver<T>>,
) -> bool {
    exists|mid: Seq<DynReceiver<T>>| #[trigger] all_had_none(pre, mid) && all_had_none(mid, post)
}

/// Once the top-priority band has had `budget` items in a row, a dispatch of `FairPriority`
/// gives the message of the first channel, by descending priority value and registration,
/// that has one, and starts the streak anew. Only if none had a message when asked does it
/// look once more, by ascending priority value, and count what it then finds; and if there
/// is nothing still, it asks to wait on each of the channels.
pub proof fn law_fair_gives_the_most_neglected_after_budget<T>(
    s0: FairState,
    s1: FairState,
    pre: Seq<DynReceiver<T>>,
    post: Seq<DynReceiver<T>>,
    priorities: Seq<u8>,
    d: Dispatch<T>,
)
    requires
        fair_dispatch(s0, s1, pre, post, priorities, d),
        pre.len() > 0,
        s0.streak >= s0.budget,
    ensures
        s1.budget == s0.budget,
        d matches Dispatch::Ready(Some(m)) ==> exists|i: int| #[trigger]
            gave_as_relief(pre, post, priorities, i, m, s1.streak),
        d != Dispatch::<T>::Ready(None),
        d matches Dispatch::Wait(order) ==> all_had_none_twice(pre, post)
            && names_each_by_priority(order@, priorities) && s1.streak == 0,
{
    if dispatched_without_relief(pre, post, priorities, s1.streak, d) {
        let mid = choose|mid: Seq<DynReceiver<T>>| #[trigger]
            nothing_found(pre, mid) && counted_dispatch(mid, post, priorities, 0, s1.streak, d);
        lemma_none(pre, mid);
        lemma_counted(mid, post, priorities, 0, s1.streak, d);
        if let Dispatch::Ready(Some(m)) = d {
            let i = choose|i: int| #[trigger]
                most_urgent_gave(mid, post, priorities, i, m) && s1.streak == (if on_top(
                    priorities,
                    i,
                ) {
                    0 + 1
                } else {
                    0
                });
            assert(all_had_none(pre, mid) && most_urgent_gave(mid, post, priorities, i, m));
            assert(gave_as_relief(pre, post, priorities, i, m, s1.streak));
        }
    } else {
        let m = d->Ready_0->0;
        let i = choose|i: int| #[trigger] found_for_relief(pre, post, priorities, i, m);
        lemma_neglected(pre, post, priorities, i, m);
        assert(gave_as_relief(pre, post, priorities, i, m, s1.streak));
    }
}

/// A dispatch of `FairPriority` ends the task only if it has no channels; then it changes
/// nothing.
pub proof fn law_fair_ends_only_a_task_without_channels<T>(
    s0: FairState,
    s1: FairState,
    pre: Seq<DynReceiver<T>>,
    post: Seq<DynReceiver<T>>,
    priorities: Seq<u8>,
    d: Dispatch<T>,
)
    requires
        fair_dispatch(s0, s1, pre, post, priorities, d),
    ensures
        d == Dispatch::<T>::Ready(None) <==> pre.len() == 0,
        pre.len() == 0 ==> s1.budget == s0.budget && s1.streak == s0.streak && post == pre,
{
    if pre.len() > 0 {
        if s0.streak < s0.budget {
            law_fair_gives_the_most_urgent_within_budget(s0, s1, pre, post, priorities, d);
        } else {
            law_fair_gives_the_most_neglected_after_budget(s0, s1, pre, post, priorities, d);
        }
    }
}

/// No channel is served before a more urgent one that has a message: if channel `i` gave the
/// item of a dispatch of `StrictPriority`, or of one of `FairPriority` within its budget,
/// then each channel with a smaller priority value, or with the same and registered before
/// it, was asked and had no message; the item is what `i` gave, and it gave no other.
pub proof fn law_no_more_urgent_message_is_passed_by<T>(
    s0: FairState,
    s1: FairState,
    pre: Seq<DynReceiver<T>>,
    post: Seq<DynReceiver<T>>,
    priorities: Seq<u8>,
    d: Dispatch<T>,
    i: int,
    j: int,
)
    requires
        strict_dispatch(pre, post, priorities, d) || (fair_dispatch(
            s0,
            s1,
            pre,
            post,
            priorities,
            d,
        ) && s0.streak < s0.budget),
        0 <= i < pre.len(),
        0 <= j < pre.len(),
        post[i].received() != pre[i].received(),
        i != j,
    ensures
        d is Ready && d->Ready_0 is Some,
        post[i].wire() == pre[i].wire(),
        post[i].log() == pre[i].log().push(Observation::Message(d->Ready_0->0)),
        post[i].received() == pre[i].received().push(d->Ready_0->0),
        (priorities[j] < priorities[i] || priorities[j] == priorities[i] && j < i)
            ==> post[j].log().len() == pre[j].log().len() + 1
            && pre[j].log().is_prefix_of(post[j].log()) && !(post[j].log().last() is Message),
        !(priorities[j] < priorities[i] || priorities[j] == priorities[i] && j < i)
            ==> post[j] == pre[j],
{
    if strict_dispatch(pre, post, priorities, d) {
        law_strict_gives_the_most_urgent(pre, post, priorities, d);
    } else {
        law_fair_gives_the_most_urgent_within_budget(s0, s1, pre, post, priorities, d);
    }
    if d is Wait {
        lemma_none_received(pre, post);
    } else {
        let m = d->Ready_0->0;
        let k = choose|k: int| #[trigger] most_urgent_gave(pre, post, priorities, k, m);
        lemma_one_received(pre, post, priorities, k, m);
        assert(k == i);
        if ahead(priorities, j, i) {
            assert(had_none(pre[j], post[j]));
        }
    }
}

/// When relief is due no channel is served before a more neglected one that has a message:
/// if channel `i` gave the item of a dispatch of `FairPriority` whose budget is used up,
/// then each channel with a larger priority value, or with the same and registered before
/// it, had no message when it was first asked for that dispatch.
pub proof fn law_no_more_neglected_message_is_passed_by<T>(
    s0: FairState,
    s1: FairState,
    pre: Seq<DynReceiver<T>>,
    post: Seq<DynReceiver<T>>,
    priorities: Seq<u8>,
    d: Dispatch<T>,
    i: int,
    j: int,
)
    requires
        fair_dispatch(s0, s1, pre, post, priorities, d),
        s0.streak >= s0.budget,
        0 <= i < pre.len(),
        0 <= j < pre.len(),
        post[i].received() != pre[i].received(),
        i != j,
        priorities[j] > priorities[i] || priorities[j] == priorities[i] && j < i,
    ensures
        d is Ready && d->Ready_0 is Some,
        post[i].wire() == pre[i].wire(),
        post[i].received() == pre[i].received().push(d->Ready_0->0),
        post[j].log().len() > pre[j].log().len(),
        pre[j].log().is_prefix_of(post[j].log()),
        !(post[j].log()[pre[j].log().len() as int] is Message),
        post[j].received() == pre[j].received(),
{
    law_fair_gives_the_most_neglected_after_budget(s0, s1, pre, post, priorities, d);
    if d is Wait {
        lemma_none_received_twice(pre, post);
    } else {
        let m = d->Ready_0->0;
        let k = choose|k: int| #[trigger] gave_as_relief(pre, post, priorities, k, m, s1.streak);
        if most_neglected_gave(pre, post, priorities, k, m) {
            lemma_one_received(pre, post, priorities, k, m);
            assert(k == i);
            assert(had_none(pre[j], post[j]));
        } else {
            lemma_received_after_none(pre, post, priorities, k, m);
            assert(k == i);
            let mid = choose|mid: Seq<DynReceiver<T>>| #[trigger]
                all_had_none(pre, mid) && most_urgent_gave(mid, post, priorities, i, m);
            assert(had_none(pre[j], mid[j]));
            assert(had_none(pre[i], mid[i]));
            if ahead(priorities, j, i) {
                assert(had_none(mid[j], post[j]));
            }
        }
    }
}

/// Receivers that had no message when asked twice received none.
proof fn lemma_none_received_twice<T>(pre: Seq<DynReceiver<T>>, post: Seq<DynReceiver<T>>)
    requires
        all_had_none_twice(pre, post),
    ensures
        post.len() == pre.len(),
        forall|j: int|
            0 <= j < pre.len() ==> (#[trigger] post[j]).received() == pre[j].received()
                && post[j].log().len() == pre[j].log().len() + 2,
{
    let mid = choose|mid: Seq<DynReceiver<T>>| #[trigger]
        all_had_none(pre, mid) && all_had_none(mid, post);
    lemma_none_received(pre, mid);
    lemma_none_received(mid, post);
    assert forall|j: int| 0 <= j < pre.len() implies (#[trigger] post[j]).received()
        == pre[j].received() && post[j].log().len() == pre[j].log().len() + 2 by {
        assert(had_none(pre[j], mid[j]) && had_none(mid[j], post[j]));
        assert(mid[j].received() == pre[j].received());
    }
}

/// A task waits only if there is nothing to give: if a dispatch asks to wait, each channel
/// was asked for it and gave nothing.
pub proof fn law_wait_only_if_every_channel_was_asked_in_vain<T>(
    s0: FairState,
    s1: FairState,
    pre: Seq<DynReceiver<T>>,
    post: Seq<DynReceiver<T>>,
    priorities: Seq<u8>,
    order: Vec<usize>,
    i: int,
)
    requires
        fair_dispatch(s0, s1, pre, post, priorities, Dispatch::Wait(order)) || strict_dispatch(
            pre,
            post,
            priorities,
            Dispatch::Wait(order),
        ),
        0 <= i < pre.len(),
    ensures
        post.len() == pre.len(),
        post[i].log().len() > pre[i].log().len(),
        post[i].received() == pre[i].received(),
{
    let d = Dispatch::<T>::Wait(order);
    if strict_dispatch(pre, post, priorities, d) {
        law_strict_gives_the_most_urgent(pre, post, priorities, d);
        lemma_none_received(pre, post);
        assert(had_none(pre[i], post[i]));
    } else if s0.streak < s0.budget {
        law_fair_gives_the_most_urgent_within_budget(s0, s1, pre, post, priorities, d);
        lemma_none_received(pre, post);
        assert(had_none(pre[i], post[i]));
    } else {
        law_fair_gives_the_most_neglected_after_budget(s0, s1, pre, post, priorities, d);
        lemma_none_received_twice(pre, post);
    }
}

/// A dispatch that gives an item has received it, from one channel, and nothing else.
pub proof fn law_item_was_received_from_one_channel<T>(
    s0: FairState,
    s1: FairState,
    pre: Seq<DynReceiver<T>>,
    post: Seq<DynReceiver<T>>,
    priorities: Seq<u8>,
    m: T,
)
    requires
        fair_dispatch(s0, s1, pre, post, priorities, Dispatch::Ready(Some(m))) || strict_dispatch(
            pre,
            post,
            priorities,
            Dispatch::Ready(Some(m)),
        ),
    ensures
        post.len() == pre.len(),
        exists|i: int|
            0 <= i < pre.len() && #[trigger] post[i].received() == pre[i].received().push(m)
                && forall|j: int|
                0 <= j < pre.len() && j != i ==> (#[trigger] post[j]).received()
                    == pre[j].received(),
{
    let d = Dispatch::Ready(Some(m));
    let i = if strict_dispatch(pre, post, priorities, d) {
        law_strict_gives_the_most_urgent(pre, post, priorities, d);
        choose|i: int| #[trigger] most_urgent_gave(pre, post, priorities, i, m)
    } else {
        law_fair_ends_only_a_task_without_channels(s0, s1, pre, post, priorities, d);
        if s0.streak < s0.budget {
            law_fair_gives_the_most_urgent_within_budget(s0, s1, pre, post, priorities, d);
            choose|i: int| #[trigger] most_urgent_gave(pre, post, priorities, i, m)
        } else {
            law_fair_gives_the_most_neglected_after_budget(s0, s1, pre, post, priorities, d);
            choose|i: int| #[trigger] gave_as_relief(pre, post, priorities, i, m, s1.streak)
        }
    };
    if most_urgent_gave(pre, post, priorities, i, m) || most_neglected_gave(
        pre,
        post,
        priorities,
        i,
        m,
    ) {
        lemma_one_received(pre, post, priorities, i, m);
    } else {
        lemma_received_after_none(pre, post, priorities, i, m);
    }
    assert(post[i].received() == pre[i].received().push(m));
}

/// A dispatch keeps the channels: each receiver still belongs to the channel that it belonged
/// to, in its place, and keeps its history.
pub proof fn law_dispatch_keeps_the_channels<T>(
    s0: FairState,
    s1: FairState,
    pre: Seq<DynReceiver<T>>,
    post: Seq<DynReceiver<T>>,
    priorities: Seq<u8>,
    d: Dispatch<T>,
    j: int,
)
    requires
        fair_dispatch(s0, s1, pre, post, priorities, d) || strict_dispatch(
            pre,
            post,
            priorities,
            d,
        ),
        0 <= j < pre.len(),
    ensures
        post.len() == pre.len(),
        post[j].wire() == pre[j].wire(),
        pre[j].log().is_prefix_of(post[j].log()),
{
    if strict_dispatch(pre, post, priorities, d) {
        law_strict_gives_the_most_urgent(pre, post, priorities, d);
        lemma_urgent_keeps(pre, post, priorities, d, j);
    } else {
        law_fair_ends_only_a_task_without_channels(s0, s1, pre, post, priorities, d);
        if s0.streak < s0.budget {
            law_fair_gives_the_most_urgent_within_budget(s0, s1, pre, post, priorities, d);
            lemma_urgent_keeps(pre, post, priorities, d, j);
        } else {
            law_fair_gives_the_most_neglected_after_budget(s0, s1, pre, post, priorities, d);
            if d is Wait {
                let mid = choose|mid: Seq<DynReceiver<T>>| #[trigger]
                    all_had_none(pre, mid) && all_had_none(mid, post);
                assert(had_none(pre[j], mid[j]) && had_none(mid[j], post[j]));
            } else {
                let m = d->Ready_0->0;
                let i = choose|i: int| #[trigger]
                    gave_as_relief(pre, post, priorities, i, m, s1.streak);
                if most_neglected_gave(pre, post, priorities, i, m) {
                    if i != j && below(priorities, j, i) {
                        assert(had_none(pre[j], post[j]));
                    }
                } else {
                    let mid = choose|mid: Seq<DynReceiver<T>>| #[trigger]
                        all_had_none(pre, mid) && most_urgent_gave(mid, post, priorities, i, m);
                    assert(had_none(pre[j], mid[j]));
                    if i != j && ahead(priorities, j, i) {
                        assert(had_none(mid[j], post[j]));
                    }
                }
            }
        }
    }
}

proof fn lemma_urgent_keeps<T>(
    pre: Seq<DynReceiver<T>>,
    post: Seq<DynReceiver<T>>,
    priorities: Seq<u8>,
    d: Dispatch<T>,
    j: int,
)
    requires
        d matches Dispatch::Ready(Some(m)) ==> exists|i: int| #[trigger]
            most_urgent_gave(pre, post, priorities, i, m),
        d != Dispatch::<T>::Ready(None),
        d is Wait ==> all_had_none(pre, post),
        0 <= j < pre.len(),
    ensures
        post.len() == pre.len(),
        post[j].wire() == pre[j].wire(),
        pre[j].log().is_prefix_of(post[j].log()),
{
    if d is Wait {
        assert(had_none(pre[j], post[j]));
    } else {
        let m = d->Ready_0->0;
        let i = choose|i: int| #[trigger] most_urgent_gave(pre, post, priorities, i, m);
        if i != j && ahead(priorities, j, i) {
            assert(had_none(pre[j], post[j]));
        }
    }
}

// Waits.

/// A wait is on all channels: the order that a dispatch asks to wait in names each channel.
pub proof fn law_wait_names_every_channel<T>(
    s0: FairState,
    s1: FairState,
    pre: Seq<DynReceiver<T>>,
    post: Seq<DynReceiver<T>>,
    priorities: Seq<u8>,
    order: Vec<usize>,
)
    requires
        priorities.len() == pre.len(),
        fair_dispatch(s0, s1, pre, post, priorities, Dispatch::Wait(order)) || strict_dispatch(
            pre,
            post,
            priorities,
            Dispatch::Wait(order),
        ),
    ensures
        order@.len() == pre.len(),
        forall|i: usize| i < pre.len() ==> #[trigger] order@.contains(i),
        forall|k: int| 0 <= k < order@.len() ==> #[trigger] order@[k] < pre.len(),
        names_each_by_priority(order@, priorities),
{
    let d = Dispatch::<T>::Wait(order);
    if strict_dispatch(pre, post, priorities, d) {
        law_strict_gives_the_most_urgent(pre, post, priorities, d);
    } else {
        law_fair_ends_only_a_task_without_channels(s0, s1, pre, post, priorities, d);
        if s0.streak < s0.budget {
            law_fair_gives_the_most_urgent_within_budget(s0, s1, pre, post, priorities, d);
        } else {
            law_fair_gives_the_most_neglected_after_budget(s0, s1, pre, post, priorities, d);
        }
    }
}

/// A poll along an order that names each channel once, by priority, gives the message of
/// the first channel that has one, with a flag that says whether the channel has the
/// smallest priority value. It is over only if each channel was found closed. It is to be
/// repeated if each channel had no message and some are not closed.
pub proof fn law_poll_gives_the_most_urgent<T>(
    pre: Seq<DynReceiver<T>>,
    post: Seq<DynReceiver<T>>,
    priorities: Seq<u8>,
    order: Seq<usize>,
    result: Polled<Option<(T, bool)>>,
)
    requires
        polled_in_turn(pre, post, order, priorities, result),
        names_each_by_priority(order, priorities),
        pre.len() == priorities.len() <= usize::MAX,
    ensures
        result matches Polled::Ready(Some((m, is_top))) ==> exists|i: int| #[trigger]
            most_urgent_gave(pre, post, priorities, i, m) && is_top == on_top(priorities, i),
        result == Polled::Ready(None::<(T, bool)>) ==> all_had_none(pre, post) && forall|i: int|
            0 <= i < post.len() ==> (#[trigger] post[i]).log().last() is Closed,
        result is Pending ==> all_had_none(pre, post) && exists|i: int|
            0 <= i < post.len() && !((#[trigger] post[i]).log().last() is Closed),
{
    lemma_priority_order(priorities, order);
    lemma_poll_over(pre, post, order, priorities, result);
    lemma_polled(pre, post, priorities, result);
}

/// An order that names each channel by priority names none twice.
proof fn lemma_priority_order(priorities: Seq<u8>, order: Seq<usize>)
    requires
        names_each_by_priority(order, priorities),
    ensures
        is_priority_order(priorities, order),
{
    assert forall|a: int, b: int|
        0 <= a < order.len() && 0 <= b < order.len() && a != b implies order[a] != order[b] by {
        if a < b {
            assert(ahead(priorities, order[a] as int, order[b] as int));
        } else {
            assert(ahead(priorities, order[b] as int, order[a] as int));
        }
    }
    assert forall|a: int, b: int| 0 <= a < b < order.len() implies more_urgent(
        priorities,
        #[trigger] order[a] as int,
        #[trigger] order[b] as int,
    ) by {
        assert(ahead(priorities, order[a] as int, order[b] as int));
    }
}

/// What a poll by priority says.
proof fn lemma_polled<T>(
    pre: Seq<DynReceiver<T>>,
    post: Seq<DynReceiver<T>>,
    priorities: Seq<u8>,
    result: Polled<Option<(T, bool)>>,
)
    requires
        polled_by_priority(pre, post, priorities, result),
    ensures
        result matches Polled::Ready(Some((m, is_top))) ==> exists|i: int| #[trigger]
            most_urgent_gave(pre, post, priorities, i, m) && is_top == on_top(priorities, i),
        result == Polled::Ready(None::<(T, bool)>) ==> all_had_none(pre, post) && forall|i: int|
            0 <= i < post.len() ==> (#[trigger] post[i]).log().last() is Closed,
        result is Pending ==> all_had_none(pre, post) && exists|i: int|
            0 <= i < post.len() && !((#[trigger] post[i]).log().last() is Closed),
{
    match result {
        Polled::Ready(Some((m, is_top))) => {
            let i = lemma_took(pre, post, priorities, m, is_top);
            assert(most_urgent_gave(pre, post, priorities, i, m));
        },
        _ => {
            lemma_none(pre, post);
        },
    }
}

/// No more urgent message is passed by in a wait: if channel `i` gave the item of a poll
/// along the order by priority, each channel with a smaller priority value, or with the same
/// and registered before it, was asked and had no message, and the flag says whether no
/// channel has a smaller priority value than `i`.
pub proof fn law_poll_passes_no_more_urgent_message_by<T>(
    pre: Seq<DynReceiver<T>>,
    post: Seq<DynReceiver<T>>,
    priorities: Seq<u8>,
    order: Seq<usize>,
    result: Polled<Option<(T, bool)>>,
    i: int,
    j: int,
)
    requires
        polled_in_turn(pre, post, order, priorities, result),
        is_priority_order(priorities, order),
        pre.len() == priorities.len() <= usize::MAX,
        0 <= i < pre.len(),
        0 <= j < pre.len(),
        post[i].received() != pre[i].received(),
        i != j,
    ensures
        result is Ready && result->Ready_0 is Some,
        post[i].log() == pre[i].log().push(Observation::Message((result->Ready_0->0).0)),
        (result->Ready_0->0).1 <==> forall|h: int|
            0 <= h < priorities.len() ==> priorities[i] <= #[trigger] priorities[h],
        (priorities[j] < priorities[i] || priorities[j] == priorities[i] && j < i)
            ==> post[j].log().len() == pre[j].log().len() + 1
            && pre[j].log().is_prefix_of(post[j].log()) && !(post[j].log().last() is Message),
        !(priorities[j] < priorities[i] || priorities[j] == priorities[i] && j < i)
            ==> post[j] == pre[j],
{
    law_priority_order_names_each_channel(priorities, order);
    law_poll_gives_the_most_urgent(pre, post, priorities, order, result);
    if result is Ready && result->Ready_0 is Some {
        let m = (result->Ready_0->0).0;
        let is_top = (result->Ready_0->0).1;
        let k = choose|k: int| #[trigger]
            most_urgent_gave(pre, post, priorities, k, m) && is_top == on_top(priorities, k);
        lemma_one_received(pre, post, priorities, k, m);
        assert(k == i);
        if ahead(priorities, j, i) {
            assert(had_none(pre[j], post[j]));
        }
    } else {
        lemma_none_received(pre, post);
    }
}

/// A waiting task is woken by any of its channels and ends only when all are closed: of a
/// poll along the order that a dispatch asks to wait in, a result without a message says
/// that each receiver of the task was found closed, and a pending one has left each
/// receiver that was not to wake the task.
pub proof fn law_wait_covers_every_channel<T>(
    s0: FairState,
    s1: FairState,
    pre: Seq<DynReceiver<T>>,
    mid: Seq<DynReceiver<T>>,
    post: Seq<DynReceiver<T>>,
    priorities: Seq<u8>,
    order: Vec<usize>,
    result: Polled<Option<(T, bool)>>,
    cx: Context<'_>,
    i: int,
)
    requires
        pre.len() == priorities.len() <= usize::MAX,
        fair_dispatch(s0, s1, pre, mid, priorities, Dispatch::Wait(order)) || strict_dispatch(
            pre,
            mid,
            priorities,
            Dispatch::Wait(order),
        ),
        polled_in_turn(mid, post, order@, priorities, result),
        result is Pending ==> awaited_along(post, order@, cx),
        0 <= i < pre.len(),
    ensures
        result == Polled::Ready(None::<(T, bool)>) ==> post[i].log().last() is Closed
            && post[i].log().len() == mid[i].log().len() + 1,
        result is Pending ==> post[i].log().last() is Closed || post[i].armed(cx),
        result is Pending ==> post[i].log().len() == mid[i].log().len() + 1,
{
    law_wait_names_every_channel(s0, s1, pre, mid, priorities, order);
    lemma_dispatch_keeps_the_number(s0, s1, pre, mid, priorities, Dispatch::Wait(order));
    law_poll_gives_the_most_urgent(mid, post, priorities, order@, result);
    if result == Polled::Ready(None::<(T, bool)>) {
        assert(had_none(mid[i], post[i]));
    }
    if result is Pending {
        assert(had_none(mid[i], post[i]));
        assert(order@.contains(i as usize));
        let p = choose|p: int| 0 <= p < order@.len() && order@[p] == i as usize;
        assert(order@[p] as int == i);
    }
}

/// A dispatch leaves a task as many receivers as it had.
pub(crate) proof fn lemma_dispatch_keeps_the_number<T>(
    s0: FairState,
    s1: FairState,
    pre: Seq<DynReceiver<T>>,
    post: Seq<DynReceiver<T>>,
    priorities: Seq<u8>,
    d: Dispatch<T>,
)
    requires
        fair_dispatch(s0, s1, pre, post, priorities, d) || strict_dispatch(
            pre,
            post,
            priorities,
            d,
        ),
    ensures
        post.len() == pre.len(),
{
    if strict_dispatch(pre, post, priorities, d) {
        law_strict_gives_the_most_urgent(pre, post, priorities, d);
    } else {
        law_fair_ends_only_a_task_without_channels(s0, s1, pre, post, priorities, d);
        if pre.len() > 0 {
            if s0.streak < s0.budget {
                law_fair_gives_the_most_urgent_within_budget(s0, s1, pre, post, priorities, d);
            } else {
                law_fair_gives_the_most_neglected_after_budget(s0, s1, pre, post, priorities, d);
            }
        }
    }
}

/// A poll receives what it gives and nothing else, whatever the order: the message that it
/// gives came out of one channel that the order names, last of all; a poll without a
/// message received none. It is over only if each channel that the order names was found
/// closed when last asked, and is to be repeated only if one was not, where the order names
/// no channel twice. Each receiver still belongs to its channel and keeps its history.
pub proof fn law_poll_receives_what_it_gives<T>(
    pre: Seq<DynReceiver<T>>,
    post: Seq<DynReceiver<T>>,
    priorities: Seq<u8>,
    order: Seq<usize>,
    result: Polled<Option<(T, bool)>>,
)
    requires
        polled_in_turn(pre, post, order, priorities, result),
        names_only(order, pre.len()),
        pre.len() <= usize::MAX,
    ensures
        post.len() == pre.len(),
        forall|j: int|
            0 <= j < pre.len() ==> (#[trigger] post[j]).wire() == pre[j].wire()
                && pre[j].log().is_prefix_of(post[j].log()),
        result matches Polled::Ready(Some((m, is_top))) ==> exists|k: int|
            0 <= k < order.len() && #[trigger] post[order[k] as int].received()
                == pre[order[k] as int].received().push(m) && is_top == (priorities[order[k] as int]
                == priorities[order[0] as int]) && forall|j: int|
                0 <= j < pre.len() && j != order[k] ==> (#[trigger] post[j]).received()
                    == pre[j].received(),
        !(result is Ready && result->Ready_0 is Some) ==> forall|j: int|
            0 <= j < pre.len() ==> (#[trigger] post[j]).received() == pre[j].received(),
        result == Polled::Ready(None::<(T, bool)>) ==> forall|k: int|
            0 <= k < order.len() ==> post[#[trigger] order[k] as int].log().last() is Closed,
        result is Pending && order.no_duplicates() ==> exists|k: int|
            0 <= k < order.len() && !(post[#[trigger] order[k] as int].log().last() is Closed),
{
    match result {
        Polled::Ready(Some((m, is_top))) => {
            let k = choose|k: int| #[trigger]
                stopped_at(pre, post, order, k, m) && is_top == (priorities[order[k] as int]
                    == priorities[order[0] as int]);
            lemma_stop_yields(pre, post, order, k, m);
            assert(post[order[k] as int].received() == pre[order[k] as int].received().push(m));
        },
        Polled::Ready(None) => {
            assert(walked(pre, post, order));
            lemma_walk_grows(pre, post, order);
            lemma_all_left_closed(pre, post, order);
        },
        Polled::Pending => {
            assert(walked(pre, post, order));
            lemma_walk_grows(pre, post, order);
            if order.no_duplicates() {
                lemma_walked_closed_once(pre, post, order, false);
            }
        },
    }
    assert forall|j: int| 0 <= j < pre.len() implies (#[trigger] post[j]).wire() == pre[j].wire()
        && pre[j].log().is_prefix_of(post[j].log()) by {
        assert(earlier(pre, post));
    }
}

/// A walk that finds each receiver closed each time leaves each found closed.
proof fn lemma_all_left_closed<T>(
    pre: Seq<DynReceiver<T>>,
    post: Seq<DynReceiver<T>>,
    order: Seq<usize>,
)
    requires
        names_only(order, pre.len()),
        walked_closed(pre, post, order, true),
    ensures
        forall|k: int|
            0 <= k < order.len() ==> post[#[trigger] order[k] as int].log().last() is Closed,
    decreases order.len(),
{
    if order.len() > 0 {
        let shorter = order.drop_last();
        let (mid, closed) = lemma_last_visit_closed(pre, post, order, true);
        lemma_all_left_closed(pre, mid, shorter);
        assert(walked(pre, mid, shorter));
        lemma_walk_grows(pre, mid, shorter);
        assert forall|k: int| 0 <= k < order.len() implies post[
            #[trigger] order[k] as int].log().last() is Closed by {
            if order[k] != order.last() {
                assert(shorter[k] == order[k]);
            }
        }
    }
}

// Streaks.

/// An item from below the top-priority band ends the streak; one from the band lengthens it
/// by one, as long as the count can grow.
pub proof fn law_streak_counts_consecutive_items(streak: u32, is_top: bool)
    ensures
        !is_top ==> next_streak(streak, is_top) == 0,
        is_top && streak < u32::MAX ==> next_streak(streak, is_top) == streak + 1,
        is_top && streak == u32::MAX ==> next_streak(streak, is_top) == u32::MAX,
{
}

/// An item from below the top-priority band ends the streak: if the channel that a dispatch
/// of `FairPriority` took its item from does not have the smallest priority value, the
/// streak is zero afterwards.
pub proof fn law_item_below_the_top_ends_the_streak<T>(
    s0: FairState,
    s1: FairState,
    pre: Seq<DynReceiver<T>>,
    post: Seq<DynReceiver<T>>,
    priorities: Seq<u8>,
    d: Dispatch<T>,
    i: int,
    j: int,
)
    requires
        fair_dispatch(s0, s1, pre, post, priorities, d),
        0 <= i < pre.len(),
        post[i].received() != pre[i].received(),
        0 <= j < priorities.len(),
        priorities[j] < priorities[i],
    ensures
        s1.streak == 0,
{
    if s0.streak < s0.budget {
        law_fair_gives_the_most_urgent_within_budget(s0, s1, pre, post, priorities, d);
        if let Dispatch::Ready(Some(m)) = d {
            let k = choose|k: int| #[trigger]
                most_urgent_gave(pre, post, priorities, k, m) && s1.streak == (if on_top(
                    priorities,
                    k,
                ) {
                    s0.streak + 1
                } else {
                    0
                });
            lemma_one_received(pre, post, priorities, k, m);
            assert(k == i);
        } else {
            lemma_none_received(pre, post);
        }
    } else {
        law_fair_gives_the_most_neglected_after_budget(s0, s1, pre, post, priorities, d);
        if let Dispatch::Ready(Some(m)) = d {
            let k = choose|k: int| #[trigger]
                gave_as_relief(pre, post, priorities, k, m, s1.streak);
            if s1.streak != 0 {
                lemma_received_after_none(pre, post, priorities, k, m);
                assert(k == i);
            }
        }
    }
}

/// An item from the top-priority band lengthens the streak by one as long as the budget
/// lasts: if no channel has a smaller priority value than the one that a dispatch of
/// `FairPriority` took its item from, the streak is longer by one afterwards.
pub proof fn law_item_from_the_top_lengthens_the_streak<T>(
    s0: FairState,
    s1: FairState,
    pre: Seq<DynReceiver<T>>,
    post: Seq<DynReceiver<T>>,
    priorities: Seq<u8>,
    d: Dispatch<T>,
    i: int,
)
    requires
        fair_dispatch(s0, s1, pre, post, priorities, d),
        s0.streak < s0.budget,
        0 <= i < pre.len(),
        post[i].received() != pre[i].received(),
        forall|j: int| 0 <= j < priorities.len() ==> priorities[i] <= #[trigger] priorities[j],
    ensures
        s1.budget == s0.budget,
        s1.streak == s0.streak + 1,
{
    law_fair_gives_the_most_urgent_within_budget(s0, s1, pre, post, priorities, d);
    if let Dispatch::Ready(Some(m)) = d {
        let k = choose|k: int| #[trigger]
            most_urgent_gave(pre, post, priorities, k, m) && s1.streak == (if on_top(
                priorities,
                k,
            ) {
                s0.streak + 1
            } else {
                0
            });
        lemma_one_received(pre, post, priorities, k, m);
        assert(k == i);
    } else {
        lemma_none_received(pre, post);
    }
}

/// A dispatch of `FairPriority` whose budget is used up starts the streak anew: it is zero
/// afterwards, or one if no channel had a message when first asked and an item from the
/// top-priority band came then.
pub proof fn law_relief_starts_the_streak_anew<T>(
    s0: FairState,
    s1: FairState,
    pre: Seq<DynReceiver<T>>,
    post: Seq<DynReceiver<T>>,
    priorities: Seq<u8>,
    d: Dispatch<T>,
    i: int,
)
    requires
        fair_dispatch(s0, s1, pre, post, priorities, d),
        s0.streak >= s0.budget,
        0 <= i < pre.len(),
    ensures
        s1.streak <= 1,
        d is Wait ==> s1.streak == 0,
        post[i].log().len() > pre[i].log().len() && post[i].log()[pre[i].log().len() as int] is Message
            ==> s1.streak == 0,
{
    law_fair_gives_the_most_neglected_after_budget(s0, s1, pre, post, priorities, d);
    if let Dispatch::Ready(Some(m)) = d {
        let k = choose|k: int| #[trigger] gave_as_relief(pre, post, priorities, k, m, s1.streak);
        if s1.streak != 0 {
            let mid = choose|mid: Seq<DynReceiver<T>>| #[trigger]
                all_had_none(pre, mid) && most_urgent_gave(mid, post, priorities, k, m);
            assert(had_none(pre[i], mid[i]));
            if i != k && ahead(priorities, i, k) {
                assert(had_none(mid[i], post[i]));
            }
        }
    }
}

/// Receivers that had no message received none.
proof fn lemma_none_received<T>(pre: Seq<DynReceiver<T>>, post: Seq<DynReceiver<T>>)
    requires
        all_had_none(pre, post),
    ensures
        forall|j: int| 0 <= j < pre.len() ==> (#[trigger] post[j]).received() == pre[j].received(),
{
    assert forall|j: int| 0 <= j < pre.len() implies (#[trigger] post[j]).received()
        == pre[j].received() by {
        assert(had_none(pre[j], post[j]));
        assert(post[j].log().drop_last() == pre[j].log());
    }
}

/// Only the receiver that gave a message received one.
proof fn lemma_one_received<T>(
    pre: Seq<DynReceiver<T>>,
    post: Seq<DynReceiver<T>>,
    priorities: Seq<u8>,
    i: int,
    m: T,
)
    requires
        most_urgent_gave(pre, post, priorities, i, m) || most_neglected_gave(
            pre,
            post,
            priorities,
            i,
            m,
        ),
    ensures
        post[i].received() == pre[i].received().push(m),
        forall|j: int|
            0 <= j < pre.len() && j != i ==> (#[trigger] post[j]).received()
                == pre[j].received(),
{
    assert(post[i].log().drop_last() == pre[i].log());
    assert forall|j: int| 0 <= j < pre.len() && j != i implies (#[trigger] post[j]).received()
        == pre[j].received() by {
        if post[j] != pre[j] {
            assert(had_none(pre[j], post[j]));
            assert(post[j].log().drop_last() == pre[j].log());
        }
    }
}

/// Only the receiver that gave a message received one, if none had one before.
proof fn lemma_received_after_none<T>(
    pre: Seq<DynReceiver<T>>,
    post: Seq<DynReceiver<T>>,
    priorities: Seq<u8>,
    i: int,
    m: T,
)
    requires
        gave_after_all_had_none(pre, post, priorities, i, m),
    ensures
        0 <= i < pre.len(),
        post[i].received() == pre[i].received().push(m),
        forall|j: int|
            0 <= j < pre.len() && j != i ==> (#[trigger] post[j]).received()
                == pre[j].received(),
{
    let mid = choose|mid: Seq<DynReceiver<T>>| #[trigger]
        all_had_none(pre, mid) && most_urgent_gave(mid, post, priorities, i, m);
    lemma_none_received(pre, mid);
    lemma_one_received(mid, post, priorities, i, m);
    assert(mid[i].received() == pre[i].received());
    assert forall|j: int| 0 <= j < pre.len() && j != i implies (#[trigger] post[j]).received()
        == pre[j].received() by {
        assert(mid[j].received() == pre[j].received());
    }
}

/// The item that the turn gave is from a channel with the smallest priority value.
pub open spec fn from_top<T>(turn: Turn<T>, priorities: Seq<u8>) -> bool {
    exists|i: int|
        0 <= i < turn.pre.len() && #[trigger] turn.post[i].received() != turn.pre[i].received()
            && on_top(priorities, i)
}

/// How many of the items that the turns gave, counted from the last one back, are
/// consecutively from channels with the smallest priority value.
pub open spec fn top_items_at_the_end<T>(run: Seq<Turn<T>>, priorities: Seq<u8>) -> nat
    decreases run.len(),
{
    if run.len() == 0 {
        0
    } else if run.last().got is None {
        top_items_at_the_end(run.drop_last(), priorities)
    } else if from_top(run.last(), priorities) {
        top_items_at_the_end(run.drop_last(), priorities) + 1
    } else {
        0
    }
}

/// What one step does to the streak.
proof fn lemma_step_counts<T>(step: FairStep<T>, priorities: Seq<u8>)
    requires
        step.turn.pre.len() == priorities.len(),
        fair_dispatch_step(step, priorities) || fair_poll_step(step, priorities),
    ensures
        step.s1.budget == step.s0.budget,
        step.turn.got is None ==> step.s1.streak <= step.s0.streak,
        step.turn.got is Some && from_top(step.turn, priorities) ==> step.s1.streak
            <= step.s0.streak + 1,
        step.turn.got is Some && !from_top(step.turn, priorities) ==> step.s1.streak == 0,
{
    let pre = step.turn.pre;
    let post = step.turn.post;
    if fair_dispatch_step(step, priorities) {
        let d = choose|d: Dispatch<T>| #[trigger]
            fair_dispatch(step.s0, step.s1, pre, post, priorities, d) && step.turn.got
                == handed_out(d);
        law_fair_ends_only_a_task_without_channels(step.s0, step.s1, pre, post, priorities, d);
        if pre.len() > 0 && step.s0.streak < step.s0.budget {
            law_fair_gives_the_most_urgent_within_budget(
                step.s0,
                step.s1,
                pre,
                post,
                priorities,
                d,
            );
            if let Dispatch::Ready(Some(m)) = d {
                let i = choose|i: int| #[trigger]
                    most_urgent_gave(pre, post, priorities, i, m) && step.s1.streak == (
                    if on_top(priorities, i) {
                        step.s0.streak + 1
                    } else {
                        0
                    });
                lemma_one_received(pre, post, priorities, i, m);
                lemma_from_top(step.turn, priorities, i, m);
            }
        } else if pre.len() > 0 {
            law_fair_gives_the_most_neglected_after_budget(
                step.s0,
                step.s1,
                pre,
                post,
                priorities,
                d,
            );
            if let Dispatch::Ready(Some(m)) = d {
                let i = choose|i: int| #[trigger]
                    gave_as_relief(pre, post, priorities, i, m, step.s1.streak);
                if step.s1.streak != 0 {
                    lemma_received_after_none(pre, post, priorities, i, m);
                    lemma_from_top(step.turn, priorities, i, m);
                }
            }
        }
    } else {
        let r = choose|r: Polled<Option<(T, bool)>>| #[trigger]
            poll_turn(step.turn, priorities, r) && resumed(step.s0, step.s1, r);
        lemma_polled(pre, post, priorities, r);
        if let Polled::Ready(Some((m, is_top))) = r {
            law_streak_counts_consecutive_items(step.s0.streak, is_top);
            let i = choose|i: int| #[trigger]
                most_urgent_gave(pre, post, priorities, i, m) && is_top == on_top(priorities, i);
            lemma_one_received(pre, post, priorities, i, m);
            lemma_from_top(step.turn, priorities, i, m);
        }
    }
}

/// The channel that received tells where the item is from.
proof fn lemma_from_top<T>(turn: Turn<T>, priorities: Seq<u8>, i: int, m: T)
    requires
        0 <= i < turn.pre.len(),
        turn.post[i].received() == turn.pre[i].received().push(m),
        forall|j: int|
            0 <= j < turn.pre.len() && j != i ==> (#[trigger] turn.post[j]).received()
                == turn.pre[j].received(),
    ensures
        from_top(turn, priorities) <==> on_top(priorities, i),
{
    assert(turn.post[i].received().len() == turn.pre[i].received().len() + 1);
    if from_top(turn, priorities) {
        let j = choose|j: int|
            0 <= j < turn.pre.len() && #[trigger] turn.post[j].received()
                != turn.pre[j].received() && on_top(priorities, j);
        assert(j == i);
    }
}

/// The streak counts consecutive items from the top-priority band and nothing else: over a
/// run of one `FairPriority` that starts without a streak, dispatches and waits, the streak
/// is never longer than the row of such items at the end of what was given.
pub proof fn law_streak_is_no_longer_than_the_row_of_top_items<T>(
    steps: Seq<FairStep<T>>,
    priorities: Seq<u8>,
)
    requires
        fair_steps(steps, priorities),
        steps.len() > 0,
        steps[0].s0.streak == 0,
    ensures
        steps.last().s1.streak <= top_items_at_the_end(turns(steps), priorities),
        steps.last().s1.budget == steps[0].s0.budget,
    decreases steps.len(),
{
    let init = steps.drop_last();
    assert(turns(steps).drop_last() == turns(init));
    assert(turns(steps).last() == steps.last().turn);
    assert(steps[steps.len() - 1] == steps.last());
    lemma_step_counts(steps.last(), priorities);
    if steps.len() > 1 {
        assert(steps[steps.len() - 2] == init.last());
        assert(steps.last().s0 == init.last().s1);
        assert(fair_steps(init, priorities)) by {
            lemma_shorter_run(steps, priorities);
        }
        law_streak_is_no_longer_than_the_row_of_top_items(init, priorities);
    }
}

/// The beginning of a run is a run.
proof fn lemma_shorter_run<T>(steps: Seq<FairStep<T>>, priorities: Seq<u8>)
    requires
        fair_steps(steps, priorities),
        steps.len() > 0,
    ensures
        fair_steps(steps.drop_last(), priorities),
{
    let init = steps.drop_last();
    assert(turns(init) == turns(steps).drop_last());
    assert forall|t: int| 0 <= t < init.len() implies (#[trigger] init[t]).turn.pre.len()
        == priorities.len() && (fair_dispatch_step(init[t], priorities) || fair_poll_step(
        init[t],
        priorities,
    )) by {
        assert(init[t] == steps[t]);
    }
}

/// Relief comes only after `budget` items in a row: if the last dispatch of a run of one
/// `FairPriority` that starts without a streak gives another item than the most urgent one,
/// then the last `budget` items before it were all from the top-priority band.
pub proof fn law_relief_comes_only_after_budget_top_items<T>(
    steps: Seq<FairStep<T>>,
    priorities: Seq<u8>,
    m: T,
)
    requires
        fair_steps(steps, priorities),
        steps.len() > 0,
        steps[0].s0.streak == 0,
        steps.last().turn.got == Some(m),
        !(exists|i: int| #[trigger]
            most_urgent_gave(
                steps.last().turn.pre,
                steps.last().turn.post,
                priorities,
                i,
                m,
            )),
    ensures
        top_items_at_the_end(turns(steps.drop_last()), priorities) >= steps[0].s0.budget,
{
    let init = steps.drop_last();
    let last = steps.last();
    assert(steps[steps.len() - 1] == last);
    if steps.len() > 1 {
        assert(steps[steps.len() - 2] == init.last());
        assert(last.s0 == init.last().s1);
        lemma_shorter_run(steps, priorities);
        law_streak_is_no_longer_than_the_row_of_top_items(init, priorities);
    }
    if last.s0.streak < last.s0.budget {
        let pre = last.turn.pre;
        let post = last.turn.post;
        if fair_dispatch_step(last, priorities) {
            let d = choose|d: Dispatch<T>| #[trigger]
                fair_dispatch(last.s0, last.s1, pre, post, priorities, d) && last.turn.got
                    == handed_out(d);
            law_fair_ends_only_a_task_without_channels(last.s0, last.s1, pre, post, priorities, d);
            law_fair_gives_the_most_urgent_within_budget(
                last.s0,
                last.s1,
                pre,
                post,
                priorities,
                d,
            );
        } else {
            let r = choose|r: Polled<Option<(T, bool)>>| #[trigger]
                poll_turn(last.turn, priorities, r) && resumed(last.s0, last.s1, r);
            lemma_polled(pre, post, priorities, r);
        }
    } else if !fair_dispatch_step(last, priorities) {
        let r = choose|r: Polled<Option<(T, bool)>>| #[trigger]
            poll_turn(last.turn, priorities, r) && resumed(last.s0, last.s1, r);
        lemma_polled(last.turn.pre, last.turn.post, priorities, r);
    }
}

// Tasks and their channels.

/// A task has exactly the channels that its builder declares, each with the priority value
/// and the capacity it was declared with: as many senders, receivers and priority values,
/// the sender and the receiver in one place being the ends of one channel. Only a task for
/// which none is declared has one that is not: a single unbounded one.
pub proof fn law_task_has_exactly_the_declared_channels<Ctx>(
    declared: Seq<ChannelSpec>,
    senders: Seq<DynSender<Ctx>>,
    receivers: Seq<DynReceiver<Ctx>>,
    priorities: Seq<u8>,
)
    requires
        opened(effective_specs(declared), senders, receivers, priorities),
    ensures
        declared.len() > 0 ==> senders.len() == declared.len() && receivers.len()
            == declared.len() && priorities.len() == declared.len(),
        declared.len() == 0 ==> senders.len() == 1 && receivers.len() == 1 && priorities.len()
            == 1,
        forall|i: int|
            0 <= i < declared.len() ==> {
                &&& priorities[i] == (#[trigger] declared[i]).priority
                &&& senders[i].wire() == receivers[i].wire()
                &&& senders[i].wire().bound == match declared[i].capacity {
                    Capacity::Bounded(n) => Some(if n >= 1 { n } else { 1usize }),
                    Capacity::Unbounded => None,
                }
                &&& senders[i] is Bounded <==> declared[i].capacity is Bounded
                &&& receivers[i].log().len() == 0
            },
        declared.len() == 0 ==> priorities[0] == 0 && senders[0] is Unbounded
            && senders[0].wire() == receivers[0].wire() && senders[0].wire().bound is None
            && receivers[0].log().len() == 0,
{
    let specs = effective_specs(declared);
    assert forall|i: int| 0 <= i < declared.len() implies {
        &&& priorities[i] == (#[trigger] declared[i]).priority
        &&& senders[i].wire() == receivers[i].wire()
        &&& senders[i].wire().bound == match declared[i].capacity {
            Capacity::Bounded(n) => Some(if n >= 1 { n } else { 1usize }),
            Capacity::Unbounded => None,
        }
        &&& senders[i] is Bounded <==> declared[i].capacity is Bounded
        &&& receivers[i].log().len() == 0
    } by {
        assert(specs[i] == declared[i]);
    }
    if declared.len() == 0 {
        assert(specs[0].priority == 0);
    }
}

/// A send that succeeds has put the message into the channel; one that fails gives it back,
/// as full only if the channel has a bound.
pub proof fn law_send_places_or_gives_back<T>(
    sender: DynSender<T>,
    value: T,
    sent: Result<(), TrySendError<T>>,
)
    requires
        send_outcome(sender.wire(), value, sent),
    ensures
        sent is Ok ==> exists|n: nat| #[trigger] sender.wire().carried.contains((n, value)),
        sent matches Err(TrySendError::Full(back)) ==> back == value && sender.wire().bound is Some,
        sent matches Err(TrySendError::Closed(back)) ==> back == value && sender.wire().abandoned,
{
}

/// A send that waits for capacity is over at once exactly on an unbounded channel; then the
/// message is in the channel, or given back because the receiver is gone. On a bounded
/// channel the message and the channel's own tokio sender are handed on for the wait.
pub proof fn law_send_async_places_or_hands_on<T>(
    sender: DynSender<T>,
    value: T,
    step: SendStep<'_, T>,
)
    requires
        sender.first_step(value, step),
    ensures
        step is Done <==> sender is Unbounded,
        step matches SendStep::Done(Ok(())) ==> exists|n: nat| #[trigger]
            sender.wire().carried.contains((n, value)),
        step matches SendStep::Done(Err(e)) ==> e.0 == value && sender.wire().abandoned,
        step matches SendStep::Wait(tx, v) ==> v == value && *tx == sender->Bounded_0.inner(),
{
}

/// What `send_async` reports as sent on an unbounded channel of a task is in the channel
/// that the task's receiver in the same place reads, and has been received by the time that
/// receiver has found the channel closed.
pub proof fn law_send_async_reaches_the_receiver<Ctx>(
    specs: Seq<ChannelSpec>,
    senders: Seq<DynSender<Ctx>>,
    receivers: Seq<DynReceiver<Ctx>>,
    priorities: Seq<u8>,
    i: int,
    ctx: Ctx,
    later: DynReceiver<Ctx>,
)
    requires
        opened(specs, senders, receivers, priorities),
        0 <= i < senders.len(),
        senders[i].first_step(ctx, SendStep::Done(Ok(()))),
        later.wire() == receivers[i].wire(),
        later.in_step(),
    ensures
        exists|n: nat| #[trigger] receivers[i].wire().carried.contains((n, ctx)),
        later.finished() ==> exists|n: nat| #[trigger]
            receivers[i].wire().carried.contains((n, ctx)) && n < later.received().len(),
{
    law_send_async_places_or_hands_on(senders[i], ctx, SendStep::Done(Ok(())));
    assert(senders[i].wire() == receivers[i].wire());
    let n = choose|n: nat| #[trigger] senders[i].wire().carried.contains((n, ctx));
    assert(receivers[i].wire().carried.contains((n, ctx)));
}

/// A receive reports what was observed: a message as the message, nothing as empty or
/// pending, the end as disconnected or over.
pub proof fn law_receives_report_what_was_observed<T>(seen: Observation<T>)
    ensures
        seen matches Observation::Message(m) ==> seen.as_try_recv() == Ok::<T, TryRecvError>(m)
            && seen.as_poll() == Polled::Ready(Some(m)),
        seen is Nothing ==> seen.as_try_recv() == Err::<T, TryRecvError>(TryRecvError::Empty)
            && seen.as_poll() is Pending,
        seen is Closed ==> seen.as_try_recv() == Err::<T, TryRecvError>(
            TryRecvError::Disconnected,
        ) && seen.as_poll() == Polled::Ready(None::<T>),
{
}

/// Every capacity that tokio can give a channel is supported: each bound up to an eighth of
/// the largest `usize`, and none at all.
pub proof fn law_capacities_up_to_the_limit_are_supported(cap: Capacity)
    ensures
        cap is Unbounded ==> cap.supported(),
        cap matches Capacity::Bounded(n) ==> (cap.supported() <==> n <= usize::MAX / 8),
{
}

/// A sender feeds the channel of the end that it holds.
pub proof fn law_sender_is_its_end<T>(sender: DynSender<T>)
    ensures
        sender matches DynSender::Bounded(s) ==> sender.wire() == s.wire(),
        sender matches DynSender::Unbounded(s) ==> sender.wire() == s.wire(),
{
}

/// A receiver has the channel and the history of the end that it holds, and wakes the task
/// that the end wakes.
pub proof fn law_receiver_is_its_end<T>(receiver: DynReceiver<T>, cx: Context<'_>)
    ensures
        receiver matches DynReceiver::Bounded(r) ==> receiver.wire() == r.wire() && receiver.log()
            == r.log() && (receiver.armed(cx) <==> r.armed(cx)),
        receiver matches DynReceiver::Unbounded(r) ==> receiver.wire() == r.wire()
            && receiver.log() == r.log() && (receiver.armed(cx) <==> r.armed(cx)),
{
}

/// What was received is what the history tells: each message that was observed, in order,
/// and nothing else.
pub proof fn law_received_is_what_the_history_tells<T>(
    pre: DynReceiver<T>,
    post: DynReceiver<T>,
    seen: Observation<T>,
)
    requires
        post.log() == pre.log().push(seen),
    ensures
        pre.log().len() == 0 ==> pre.received().len() == 0,
        seen matches Observation::Message(m) ==> post.received() == pre.received().push(m),
        !(seen is Message) ==> post.received() == pre.received(),
        post.finished() <==> pre.finished() || seen is Closed,
        pre.finished() <==> exists|k: int|
            0 <= k < pre.log().len() && #[trigger] pre.log()[k] is Closed,
{
    assert(post.log().drop_last() == pre.log());
    if pre.finished() {
        let k = choose|k: int| 0 <= k < pre.log().len() && #[trigger] pre.log()[k] is Closed;
        assert(post.log()[k] is Closed);
    }
    if seen is Closed {
        assert(post.log()[pre.log().len() as int] is Closed);
    }
    if post.finished() && !(seen is Closed) {
        let k = choose|k: int| 0 <= k < post.log().len() && #[trigger] post.log()[k] is Closed;
        assert(pre.log()[k] is Closed);
    }
}

/// An attempt to receive takes the message in the next place of the channel, and finds the
/// end only if no place is left; from a channel that was found closed it takes none.
pub proof fn law_attempt_takes_the_next_place<T>(
    pre: DynReceiver<T>,
    post: DynReceiver<T>,
    seen: Observation<T>,
)
    requires
        observed(pre, post, seen),
    ensures
        post.wire() == pre.wire(),
        post.log() == pre.log().push(seen),
        seen matches Observation::Message(m) ==> pre.wire().carried.contains(
            (pre.received().len(), m),
        ),
        seen is Message ==> forall|k: int|
            0 <= k < pre.log().len() ==> !(#[trigger] pre.log()[k] is Closed),
        seen is Closed ==> forall|n: nat, m: T| #[trigger]
            pre.wire().carried.contains((n, m)) ==> n < pre.received().len(),
{
}

/// Any order of channels that a task has can be waited in, and any channels whose bounds are
/// within tokio's limit can be declared.
pub proof fn law_orders_in_range_and_bounds_within_the_limit_are_accepted(
    order: Seq<usize>,
    n: nat,
    specs: Seq<ChannelSpec>,
)
    ensures
        names_only(order, n) <==> forall|k: int| 0 <= k < order.len() ==> #[trigger] order[k] < n,
        all_supported(specs) <==> forall|i: int|
            0 <= i < specs.len() ==> match (#[trigger] specs[i]).capacity {
                Capacity::Bounded(b) => b <= usize::MAX / 8,
                Capacity::Unbounded => true,
            },
{
    if forall|i: int|
        0 <= i < specs.len() ==> match (#[trigger] specs[i]).capacity {
            Capacity::Bounded(b) => b <= usize::MAX / 8,
            Capacity::Unbounded => true,
        } {
        assert forall|i: int| 0 <= i < specs.len() implies (
        #[trigger] specs[i]).capacity.supported() by {
            law_capacities_up_to_the_limit_are_supported(specs[i].capacity);
        }
    }
    if all_supported(specs) {
        assert forall|i: int| 0 <= i < specs.len() implies match (#[trigger] specs[i]).capacity {
            Capacity::Bounded(b) => b <= usize::MAX / 8,
            Capacity::Unbounded => true,
        } by {
            assert(specs[i].capacity.supported());
        }
    }
}

} // verus!
