//! Scans over a task's receivers: who is asked for a message, and in which order.
use std::task::Context;
use vstd::prelude::*;

use crate::channel::{observed, DynReceiver, Polled};
use crate::endpoint::Observation;
use crate::guarantees::law_poll_receives_what_it_gives;
use crate::order::{
    in_top_band, is_priority_order, is_relief_order, more_neglected, more_urgent, names_only,
    relief_order, visits_all, visits_some,
};

verus! {

/// The receiver was asked once and had no message.
pub open spec fn passed_over<T>(pre: DynReceiver<T>, post: DynReceiver<T>) -> bool {
    &&& observed(pre, post, post.log().last())
    &&& !(post.log().last() is Message)
}

/// Every receiver was asked once and none had a message.
pub open spec fn nothing_found<T>(pre: Seq<DynReceiver<T>>, post: Seq<DynReceiver<T>>) -> bool {
    &&& post.len() == pre.len()
    &&& forall|i: int| 0 <= i < pre.len() ==> passed_over(#[trigger] pre[i], #[trigger] post[i])
}

/// Every receiver was asked once and all of them are closed.
pub open spec fn all_closed<T>(pre: Seq<DynReceiver<T>>, post: Seq<DynReceiver<T>>) -> bool {
    &&& nothing_found(pre, post)
    &&& forall|i: int| 0 <= i < post.len() ==> (#[trigger] post[i]).log().last() is Closed
}

/// Receiver `i` yielded the message `m`. Each receiver `j` with `ahead(j)` was asked
/// before it and had none; no other receiver was touched.
pub open spec fn found<T>(
    pre: Seq<DynReceiver<T>>,
    post: Seq<DynReceiver<T>>,
    i: int,
    m: T,
    ahead: spec_fn(int) -> bool,
) -> bool {
    &&& post.len() == pre.len()
    &&& 0 <= i < pre.len()
    &&& observed(pre[i], post[i], Observation::Message(m))
    &&& forall|j: int|
        0 <= j < pre.len() && j != i ==> if ahead(j) {
            passed_over(#[trigger] pre[j], #[trigger] post[j])
        } else {
            post[j] == pre[j]
        }
}

/// Receiver `i` yielded the message `m` in a scan by priority.
pub open spec fn found_by_priority<T>(
    pre: Seq<DynReceiver<T>>,
    post: Seq<DynReceiver<T>>,
    priorities: Seq<u8>,
    i: int,
    m: T,
) -> bool {
    found(pre, post, i, m, |j: int| more_urgent(priorities, j, i))
}

/// Receiver `i` yielded the message `m` in a scan for starvation relief.
pub open spec fn found_for_relief<T>(
    pre: Seq<DynReceiver<T>>,
    post: Seq<DynReceiver<T>>,
    priorities: Seq<u8>,
    i: int,
    m: T,
) -> bool {
    found(pre, post, i, m, |j: int| more_neglected(priorities, j, i))
}

/// No receiver was touched that `order` does not name.
pub open spec fn others_untouched<T>(
    pre: Seq<DynReceiver<T>>,
    post: Seq<DynReceiver<T>>,
    order: Seq<usize>,
) -> bool {
    &&& post.len() == pre.len()
    &&& forall|j: int|
        0 <= j < pre.len() && !order.contains(j as usize) ==> #[trigger] post[j] == pre[j]
}

/// Every receiver in `order` was asked once and had no message; the others were not
/// touched.
pub open spec fn passed_along<T>(
    pre: Seq<DynReceiver<T>>,
    post: Seq<DynReceiver<T>>,
    order: Seq<usize>,
) -> bool {
    &&& others_untouched(pre, post, order)
    &&& forall|p: int|
        0 <= p < order.len() ==> passed_over(
            pre[#[trigger] order[p] as int],
            post[order[p] as int],
        )
}

/// Every receiver in `order` was found closed when it was last asked.
pub open spec fn closed_along<T>(post: Seq<DynReceiver<T>>, order: Seq<usize>) -> bool {
    forall|p: int|
        0 <= p < order.len() ==> post[#[trigger] order[p] as int].log().last() is Closed
}

/// Every receiver in `order` was found closed when it was last asked, or wakes the task of
/// `cx` when there is something to receive.
pub open spec fn awaited_along<T>(
    post: Seq<DynReceiver<T>>,
    order: Seq<usize>,
    cx: Context<'_>,
) -> bool {
    forall|p: int|
        0 <= p < order.len() ==> post[#[trigger] order[p] as int].log().last() is Closed
            || post[order[p] as int].armed(cx)
}

/// The scan along `order` stopped at its `k`-th receiver, which yielded `m`.
pub open spec fn found_at<T>(
    pre: Seq<DynReceiver<T>>,
    post: Seq<DynReceiver<T>>,
    order: Seq<usize>,
    k: int,
    m: T,
) -> bool {
    &&& 0 <= k < order.len()
    &&& others_untouched(pre, post, order)
    &&& observed(pre[order[k] as int], post[order[k] as int], Observation::Message(m))
    &&& forall|p: int|
        0 <= p < order.len() && p != k ==> if p < k {
            passed_over(pre[#[trigger] order[p] as int], post[order[p] as int])
        } else {
            post[order[p] as int] == pre[order[p] as int]
        }
}

/// The scan along `order` stopped at receiver `idx`, which yielded `m`.
pub open spec fn found_along<T>(
    pre: Seq<DynReceiver<T>>,
    post: Seq<DynReceiver<T>>,
    order: Seq<usize>,
    idx: usize,
    m: T,
) -> bool {
    exists|k: int| #[trigger] found_at(pre, post, order, k, m) && order[k] == idx
}

/// A scan along `order` took the message `m`.
pub open spec fn took_along<T>(
    pre: Seq<DynReceiver<T>>,
    post: Seq<DynReceiver<T>>,
    order: Seq<usize>,
    m: T,
) -> bool {
    exists|idx: usize| #[trigger] found_along(pre, post, order, idx, m)
}

/// A scan along `order` took the message `m`, which is from a channel of the same priority
/// as the first in `order` or not, as `is_top` says.
pub open spec fn took_along_flagged<T>(
    pre: Seq<DynReceiver<T>>,
    post: Seq<DynReceiver<T>>,
    order: Seq<usize>,
    priorities: Seq<u8>,
    m: T,
    is_top: bool,
) -> bool {
    exists|k: int| #[trigger]
        found_at(pre, post, order, k, m) && is_top == (priorities[order[k] as int]
            == priorities[order[0] as int])
}

/// Receiver `i` was asked and had no message; no other receiver was touched.
pub open spec fn passed_one<T>(
    before: Seq<DynReceiver<T>>,
    after: Seq<DynReceiver<T>>,
    i: int,
) -> bool {
    &&& passed_over(before[i], after[i])
    &&& after == before.update(i, after[i])
}

/// `states` are the receivers before, between and after visits along `order`, in each of
/// which the receiver had no message.
pub open spec fn trail<T>(states: Seq<Seq<DynReceiver<T>>>, order: Seq<usize>) -> bool {
    &&& states.len() == order.len() + 1
    &&& forall|p: int|
        0 <= p < order.len() ==> passed_one(states[p], states[p + 1], #[trigger] order[p] as int)
}

/// The receivers that `order` names were asked one after the other, each as often as it is
/// named, and had no message.
pub open spec fn walked<T>(
    pre: Seq<DynReceiver<T>>,
    post: Seq<DynReceiver<T>>,
    order: Seq<usize>,
) -> bool {
    exists|states: Seq<Seq<DynReceiver<T>>>| #[trigger]
        trail(states, order) && states[0] == pre && states.last() == post
}

/// In each of the visits along `order` the receiver was found closed.
pub open spec fn closed_throughout<T>(
    states: Seq<Seq<DynReceiver<T>>>,
    order: Seq<usize>,
) -> bool {
    forall|p: int|
        0 <= p < order.len() ==> states[p + 1][#[trigger] order[p] as int].log().last() is Closed
}

/// The receivers that `order` names were asked one after the other, each as often as it is
/// named, and had no message. `closed` says whether each was found closed each time.
pub open spec fn walked_closed<T>(
    pre: Seq<DynReceiver<T>>,
    post: Seq<DynReceiver<T>>,
    order: Seq<usize>,
    closed: bool,
) -> bool {
    exists|states: Seq<Seq<DynReceiver<T>>>| #[trigger]
        trail(states, order) && states[0] == pre && states.last() == post && closed
            == closed_throughout(states, order)
}

/// The receivers that `order` names were asked one after the other, up to the `k`-th, which
/// yielded `m`; those before it had no message.
pub open spec fn stopped_at<T>(
    pre: Seq<DynReceiver<T>>,
    post: Seq<DynReceiver<T>>,
    order: Seq<usize>,
    k: int,
    m: T,
) -> bool {
    &&& 0 <= k < order.len()
    &&& exists|mid: Seq<DynReceiver<T>>| #[trigger]
        walked(pre, mid, order.take(k)) && observed(
            mid[order[k] as int],
            post[order[k] as int],
            Observation::Message(m),
        ) && post == mid.update(order[k] as int, post[order[k] as int])
}

/// The receivers that `order` names were asked one after the other, up to the receiver
/// `idx`, which yielded `m`; those before it had no message.
pub open spec fn stopped_along<T>(
    pre: Seq<DynReceiver<T>>,
    post: Seq<DynReceiver<T>>,
    order: Seq<usize>,
    idx: usize,
    m: T,
) -> bool {
    exists|k: int| #[trigger] stopped_at(pre, post, order, k, m) && order[k] == idx
}

/// The receivers that `order` names were asked one after the other, up to one that yielded
/// `m`; those before it had no message.
pub open spec fn stopped<T>(
    pre: Seq<DynReceiver<T>>,
    post: Seq<DynReceiver<T>>,
    order: Seq<usize>,
    m: T,
) -> bool {
    exists|idx: usize| #[trigger] stopped_along(pre, post, order, idx, m)
}

/// What a scan along `order` with the index of the receiver comes to.
pub open spec fn tagged_scan<T>(
    pre: Seq<DynReceiver<T>>,
    post: Seq<DynReceiver<T>>,
    order: Seq<usize>,
    result: Option<(T, usize)>,
) -> bool {
    match result {
        Some((m, idx)) => stopped_along(pre, post, order, idx, m),
        None => walked(pre, post, order),
    }
}

/// What a scan along `order` without the index of the receiver comes to.
pub open spec fn plain_scan<T>(
    pre: Seq<DynReceiver<T>>,
    post: Seq<DynReceiver<T>>,
    order: Seq<usize>,
    result: Option<T>,
) -> bool {
    match result {
        Some(m) => stopped(pre, post, order, m),
        None => walked(pre, post, order),
    }
}

/// What a poll along `order` comes to: the message of the first receiver that has one; or
/// the end, if all receivers in `order` are closed; or that it is to be repeated.
pub open spec fn polled_along<T>(
    pre: Seq<DynReceiver<T>>,
    post: Seq<DynReceiver<T>>,
    order: Seq<usize>,
    priorities: Seq<u8>,
    result: Polled<Option<(T, bool)>>,
) -> bool {
    match result {
        Polled::Ready(Some((m, is_top))) => took_along_flagged(
            pre,
            post,
            order,
            priorities,
            m,
            is_top,
        ),
        Polled::Ready(None) => passed_along(pre, post, order) && closed_along(post, order),
        Polled::Pending => passed_along(pre, post, order) && !closed_along(post, order),
    }
}

/// The receivers that `order` names were asked one after the other, up to one that yielded
/// `m`; those before it had no message. `is_top` says whether that one has the same
/// priority as the first in `order`.
pub open spec fn stopped_flagged<T>(
    pre: Seq<DynReceiver<T>>,
    post: Seq<DynReceiver<T>>,
    order: Seq<usize>,
    priorities: Seq<u8>,
    m: T,
    is_top: bool,
) -> bool {
    exists|k: int| #[trigger]
        stopped_at(pre, post, order, k, m) && is_top == (priorities[order[k] as int]
            == priorities[order[0] as int])
}

/// What a poll of the receivers that `order` names, one after the other, comes to: the
/// message of the first that has one; or the end, if each was found closed each time; or
/// that it is to be repeated.
pub open spec fn polled_in_turn<T>(
    pre: Seq<DynReceiver<T>>,
    post: Seq<DynReceiver<T>>,
    order: Seq<usize>,
    priorities: Seq<u8>,
    result: Polled<Option<(T, bool)>>,
) -> bool {
    match result {
        Polled::Ready(Some((m, is_top))) => stopped_flagged(
            pre,
            post,
            order,
            priorities,
            m,
            is_top,
        ),
        Polled::Ready(None) => walked_closed(pre, post, order, true),
        Polled::Pending => walked_closed(pre, post, order, false),
    }
}

/// What a poll of all receivers in priority order comes to: the most urgent message; or
/// the end, if all receivers are closed; or that it is to be repeated.
pub open spec fn polled_by_priority<T>(
    pre: Seq<DynReceiver<T>>,
    post: Seq<DynReceiver<T>>,
    priorities: Seq<u8>,
    result: Polled<Option<(T, bool)>>,
) -> bool {
    match result {
        Polled::Ready(Some((m, is_top))) => took_by_priority(pre, post, priorities, m, is_top),
        Polled::Ready(None) => all_closed(pre, post),
        Polled::Pending => nothing_found(pre, post) && !all_closed(pre, post),
    }
}

/// A scan by priority took the message `m`, which is from the top-priority band or
/// not, as `is_top` says.
pub open spec fn took_by_priority<T>(
    pre: Seq<DynReceiver<T>>,
    post: Seq<DynReceiver<T>>,
    priorities: Seq<u8>,
    m: T,
    is_top: bool,
) -> bool {
    exists|i: int| #[trigger]
        found_by_priority(pre, post, priorities, i, m) && is_top == in_top_band(priorities, i)
}

/// A scan for starvation relief took the message `m`.
pub open spec fn took_for_relief<T>(
    pre: Seq<DynReceiver<T>>,
    post: Seq<DynReceiver<T>>,
    priorities: Seq<u8>,
    m: T,
) -> bool {
    exists|i: int| #[trigger] found_for_relief(pre, post, priorities, i, m)
}

/// Where a channel stands in an order that visits all.
proof fn lemma_position(order: Seq<usize>, n: nat, i: int) -> (p: int)
    requires
        visits_all(order, n),
        0 <= i < n,
        n <= usize::MAX,
    ensures
        0 <= p < order.len(),
        order[p] == i,
{
    assert(order.contains(i as usize));
    choose|p: int| 0 <= p < order.len() && order[p] == i as usize
}

/// A scan that passed all of an order found nothing.
pub(crate) proof fn lemma_nothing_found<T>(
    pre: Seq<DynReceiver<T>>,
    post: Seq<DynReceiver<T>>,
    order: Seq<usize>,
)
    requires
        visits_all(order, pre.len()),
        pre.len() <= usize::MAX,
        passed_along(pre, post, order),
    ensures
        nothing_found(pre, post),
{
    assert forall|i: int| 0 <= i < pre.len() implies passed_over(#[trigger] pre[i], #[trigger] post[i]) by {
        let _ = lemma_position(order, pre.len(), i);
    }
}

/// A scan along the priority order stops at the most urgent receiver with a message.
pub(crate) proof fn lemma_found_by_priority<T>(
    pre: Seq<DynReceiver<T>>,
    post: Seq<DynReceiver<T>>,
    priorities: Seq<u8>,
    order: Seq<usize>,
    k: int,
    m: T,
)
    requires
        is_priority_order(priorities, order),
        priorities.len() == pre.len(),
        pre.len() <= usize::MAX,
        found_at(pre, post, order, k, m),
    ensures
        found_by_priority(pre, post, priorities, order[k] as int, m),
        priorities[order[k] as int] == priorities[order[0] as int] <==> in_top_band(
            priorities,
            order[k] as int,
        ),
{
    let i = order[k] as int;
    assert forall|j: int| 0 <= j < pre.len() && j != i implies if more_urgent(priorities, j, i) {
        passed_over(#[trigger] pre[j], #[trigger] post[j])
    } else {
        post[j] == pre[j]
    } by {
        let _ = lemma_position(order, pre.len(), j);
    }
    assert forall|j: int| 0 <= j < priorities.len() implies priorities[order[0] as int]
        <= #[trigger] priorities[j] by {
        let _ = lemma_position(order, pre.len(), j);
    }
}

/// A scan along the relief order stops at the most neglected receiver with a message.
proof fn lemma_found_for_relief<T>(
    pre: Seq<DynReceiver<T>>,
    post: Seq<DynReceiver<T>>,
    priorities: Seq<u8>,
    order: Seq<usize>,
    k: int,
    m: T,
)
    requires
        is_relief_order(priorities, order),
        priorities.len() == pre.len(),
        pre.len() <= usize::MAX,
        found_at(pre, post, order, k, m),
    ensures
        found_for_relief(pre, post, priorities, order[k] as int, m),
{
    let i = order[k] as int;
    assert forall|j: int| 0 <= j < pre.len() && j != i implies if more_neglected(priorities, j, i) {
        passed_over(#[trigger] pre[j], #[trigger] post[j])
    } else {
        post[j] == pre[j]
    } by {
        let _ = lemma_position(order, pre.len(), j);
    }
}

/// A poll along the priority order is a poll by priority.
proof fn lemma_polled_by_priority<T>(
    pre: Seq<DynReceiver<T>>,
    post: Seq<DynReceiver<T>>,
    order: Seq<usize>,
    priorities: Seq<u8>,
    result: Polled<Option<(T, bool)>>,
)
    requires
        is_priority_order(priorities, order),
        priorities.len() == pre.len(),
        pre.len() <= usize::MAX,
        polled_along(pre, post, order, priorities, result),
    ensures
        polled_by_priority(pre, post, priorities, result),
{
    if let Polled::Ready(Some((m, is_top))) = result {
        let k = choose|k: int| #[trigger]
            found_at(pre, post, order, k, m) && is_top == (priorities[order[k] as int]
                == priorities[order[0] as int]);
        lemma_found_by_priority(pre, post, priorities, order, k, m);
    } else {
        lemma_nothing_found(pre, post, order);
        if closed_along(post, order) {
            assert forall|i: int| 0 <= i < post.len() implies (
            #[trigger] post[i]).log().last() is Closed by {
                let _ = lemma_position(order, pre.len(), i);
            }
        } else {
            let p = choose|p: int|
                0 <= p < order.len() && !(post[#[trigger] order[p] as int].log().last() is Closed);
            assert(!(post[order[p] as int].log().last() is Closed));
        }
    }
}

/// Asking the receiver `order[k]` leaves alone whatever else `order` names or does not.
proof fn lemma_one_asked<T>(
    before: Seq<DynReceiver<T>>,
    after: Seq<DynReceiver<T>>,
    order: Seq<usize>,
    k: int,
)
    requires
        visits_some(order, before.len()),
        before.len() <= usize::MAX,
        0 <= k < order.len(),
        after == before.update(order[k] as int, after[order[k] as int]),
    ensures
        forall|p: int|
            0 <= p < order.len() && p != k ==> after[#[trigger] order[p] as int]
                == before[order[p] as int],
        others_untouched(before, after, order),
{
    assert forall|j: int| 0 <= j < before.len() && !order.contains(
        j as usize,
    ) implies #[trigger] after[j] == before[j] by {
        assert(order[k] != j as usize);
    }
}

/// A walk along an order without channels does nothing.
pub(crate) proof fn lemma_no_walk<T>(
    pre: Seq<DynReceiver<T>>,
    post: Seq<DynReceiver<T>>,
    order: Seq<usize>,
)
    requires
        order.len() == 0,
    ensures
        walked(pre, post, order) <==> post == pre,
        walked_closed(pre, pre, order, true),
{
    assert(trail(seq![pre], order));
}

/// A walk that goes one visit further is a walk.
proof fn lemma_walk_on<T>(
    pre: Seq<DynReceiver<T>>,
    mid: Seq<DynReceiver<T>>,
    post: Seq<DynReceiver<T>>,
    order: Seq<usize>,
    closed: bool,
)
    requires
        order.len() > 0,
        walked_closed(pre, mid, order.drop_last(), closed),
        passed_one(mid, post, order.last() as int),
    ensures
        walked_closed(
            pre,
            post,
            order,
            closed && post[order.last() as int].log().last() is Closed,
        ),
{
    let shorter = order.drop_last();
    let states = choose|states: Seq<Seq<DynReceiver<T>>>| #[trigger]
        trail(states, shorter) && states[0] == pre && states.last() == mid && closed
            == closed_throughout(states, shorter);
    let longer = states.push(post);
    assert forall|p: int| 0 <= p < order.len() implies passed_one(
        longer[p],
        longer[p + 1],
        #[trigger] order[p] as int,
    ) by {
        if p < shorter.len() {
            assert(shorter[p] == order[p]);
        }
    }
    assert(trail(longer, order));
    lemma_closed_by_visit(longer, order);
    assert(longer.drop_last() == states);
}

/// The visits along an order all found the receiver closed if all but the last did and the
/// last did.
proof fn lemma_closed_by_visit<T>(states: Seq<Seq<DynReceiver<T>>>, order: Seq<usize>)
    requires
        order.len() > 0,
        states.len() == order.len() + 1,
    ensures
        closed_throughout(states, order) <==> closed_throughout(
            states.drop_last(),
            order.drop_last(),
        ) && states.last()[order.last() as int].log().last() is Closed,
{
    let shorter = order.drop_last();
    let fewer = states.drop_last();
    assert(order[order.len() - 1] == order.last());
    if closed_throughout(states, order) {
        assert forall|p: int| 0 <= p < shorter.len() implies fewer[p + 1][
            #[trigger] shorter[p] as int].log().last() is Closed by {
            assert(shorter[p] == order[p]);
        }
    }
    if closed_throughout(fewer, shorter) && states.last()[order.last() as int].log().last() is Closed {
        assert forall|p: int| 0 <= p < order.len() implies states[p + 1][
            #[trigger] order[p] as int].log().last() is Closed by {
            if p < shorter.len() {
                assert(shorter[p] == order[p]);
            }
        }
    }
}

/// The receivers before the last visit of a walk, and whether each visit before it found
/// the receiver closed.
pub(crate) proof fn lemma_last_visit_closed<T>(
    pre: Seq<DynReceiver<T>>,
    post: Seq<DynReceiver<T>>,
    order: Seq<usize>,
    closed: bool,
) -> (before: (Seq<DynReceiver<T>>, bool))
    requires
        order.len() > 0,
        walked_closed(pre, post, order, closed),
    ensures
        walked_closed(pre, before.0, order.drop_last(), before.1),
        passed_one(before.0, post, order.last() as int),
        closed == (before.1 && post[order.last() as int].log().last() is Closed),
{
    let shorter = order.drop_last();
    let states = choose|states: Seq<Seq<DynReceiver<T>>>| #[trigger]
        trail(states, order) && states[0] == pre && states.last() == post && closed
            == closed_throughout(states, order);
    let fewer = states.drop_last();
    assert forall|p: int| 0 <= p < shorter.len() implies passed_one(
        fewer[p],
        fewer[p + 1],
        #[trigger] shorter[p] as int,
    ) by {
        assert(shorter[p] == order[p]);
    }
    assert(trail(fewer, shorter));
    assert(order[order.len() - 1] == order.last());
    lemma_closed_by_visit(states, order);
    (fewer.last(), closed_throughout(fewer, shorter))
}

/// The receivers before the last visit of a walk.
pub(crate) proof fn lemma_last_visit<T>(
    pre: Seq<DynReceiver<T>>,
    post: Seq<DynReceiver<T>>,
    order: Seq<usize>,
) -> (mid: Seq<DynReceiver<T>>)
    requires
        order.len() > 0,
        walked(pre, post, order),
    ensures
        walked(pre, mid, order.drop_last()),
        passed_one(mid, post, order.last() as int),
{
    let states = choose|states: Seq<Seq<DynReceiver<T>>>| #[trigger]
        trail(states, order) && states[0] == pre && states.last() == post;
    let closed = closed_throughout(states, order);
    assert(walked_closed(pre, post, order, closed));
    let before = lemma_last_visit_closed(pre, post, order, closed);
    before.0
}

/// A walk along an order that names no receiver twice asked each of them once.
pub(crate) proof fn lemma_walked_once<T>(
    pre: Seq<DynReceiver<T>>,
    post: Seq<DynReceiver<T>>,
    order: Seq<usize>,
)
    requires
        visits_some(order, pre.len()),
        pre.len() <= usize::MAX,
        walked(pre, post, order),
    ensures
        passed_along(pre, post, order),
    decreases order.len(),
{
    if order.len() == 0 {
        lemma_no_walk(pre, post, order);
    } else {
        let i = order.last() as int;
        let shorter = order.drop_last();
        let mid = lemma_last_visit(pre, post, order);
        lemma_walked_once(pre, mid, shorter);
        lemma_one_asked(mid, post, order, order.len() - 1);
        assert(mid[i] == pre[i]) by {
            assert(!shorter.contains(i as usize));
        }
        assert forall|j: int| 0 <= j < pre.len() && !order.contains(
            j as usize,
        ) implies #[trigger] post[j] == pre[j] by {
            assert(!shorter.contains(j as usize));
        }
        assert forall|p: int| 0 <= p < order.len() implies passed_over(
            pre[#[trigger] order[p] as int],
            post[order[p] as int],
        ) by {
            if p < shorter.len() {
                assert(shorter[p] == order[p]);
            }
        }
    }
}

/// A walk along an order that names no receiver twice found each closed each time if each
/// was found closed when it was last asked.
pub(crate) proof fn lemma_walked_closed_once<T>(
    pre: Seq<DynReceiver<T>>,
    post: Seq<DynReceiver<T>>,
    order: Seq<usize>,
    closed: bool,
)
    requires
        visits_some(order, pre.len()),
        pre.len() <= usize::MAX,
        walked_closed(pre, post, order, closed),
    ensures
        passed_along(pre, post, order),
        closed == closed_along(post, order),
    decreases order.len(),
{
    assert(walked(pre, post, order));
    lemma_walked_once(pre, post, order);
    if order.len() > 0 {
        let k = order.len() - 1;
        let (mid, before) = lemma_last_visit_closed(pre, post, order, closed);
        lemma_walked_closed_once(pre, mid, order.drop_last(), before);
        lemma_one_asked(mid, post, order, k);
        lemma_closed_grows(mid, post, order, k);
        assert(order.take(k) == order.drop_last());
        assert(order.take(k + 1) == order);
    }
}

/// A scan along an order that names no receiver twice asked each of them at most once.
pub(crate) proof fn lemma_stopped_once<T>(
    pre: Seq<DynReceiver<T>>,
    post: Seq<DynReceiver<T>>,
    order: Seq<usize>,
    k: int,
    m: T,
)
    requires
        visits_some(order, pre.len()),
        pre.len() <= usize::MAX,
        stopped_at(pre, post, order, k, m),
    ensures
        found_at(pre, post, order, k, m),
{
    let i = order[k] as int;
    let ahead = order.take(k);
    let mid = choose|mid: Seq<DynReceiver<T>>| #[trigger]
        walked(pre, mid, ahead) && observed(mid[i], post[i], Observation::Message(m)) && post
            == mid.update(i, post[i]);
    lemma_walked_once(pre, mid, ahead);
    lemma_one_asked(mid, post, order, k);
    assert forall|p: int| k <= p < order.len() implies mid[#[trigger] order[p] as int]
        == pre[order[p] as int] by {
        assert(!ahead.contains(order[p]));
    }
    assert forall|p: int| 0 <= p < k implies passed_over(
        pre[#[trigger] order[p] as int],
        post[order[p] as int],
    ) by {
        assert(ahead[p] == order[p]);
    }
    assert forall|j: int| 0 <= j < pre.len() && !order.contains(
        j as usize,
    ) implies #[trigger] post[j] == pre[j] by {
        assert(!ahead.contains(j as usize));
    }
}

/// Asks the receivers in the given order for a message, without blocking, and stops
/// at the first that has one. Also tells which receiver that is.
pub(crate) fn try_recv_in_order_tagged<Ctx>(
    rxs: &mut [DynReceiver<Ctx>],
    order: &[usize],
) -> (result: Option<(Ctx, usize)>)
    requires
        names_only(order@, old(rxs)@.len()),
    ensures
        tagged_scan(old(rxs)@, final(rxs)@, order@, result),
        visits_some(order@, old(rxs)@.len()) ==> match result {
            Some((m, idx)) => found_along(old(rxs)@, final(rxs)@, order@, idx, m),
            None => passed_along(old(rxs)@, final(rxs)@, order@),
        },
{
    let ghost pre = rxs@;
    let n: usize = rxs.len();
    let mut k: usize = 0;
    let ghost mut closed = true;
    proof {
        lemma_no_walk(pre, pre, order@.take(0));
    }
    while k < order.len()
        invariant
            pre == old(rxs)@,
            n == pre.len(),
            rxs@.len() == pre.len(),
            names_only(order@, pre.len()),
            k <= order@.len(),
            walked_closed(pre, rxs@, order@.take(k as int), closed),
        decreases order@.len() - k,
    {
        let idx: usize = order[k];
        let ghost mid = rxs@;
        let attempt = rxs[idx].try_recv();
        if let Ok(m) = attempt {
            proof {
                assert(walked(pre, mid, order@.take(k as int)));
                assert(stopped_at(pre, rxs@, order@, k as int, m));
                if visits_some(order@, pre.len()) {
                    lemma_stopped_once(pre, rxs@, order@, k as int, m);
                }
            }
            return Some((m, idx));
        }
        proof {
            assert(order@.take(k + 1).drop_last() == order@.take(k as int));
            lemma_walk_on(pre, mid, rxs@, order@.take(k + 1), closed);
            closed = closed && rxs@[idx as int].log().last() is Closed;
        }
        k = k + 1;
    }
    proof {
        assert(order@.take(k as int) == order@);
        if visits_some(order@, pre.len()) {
            lemma_walked_once(pre, rxs@, order@);
        }
    }
    None
}

/// Asks the receivers in the given order for a message, without blocking, and stops
/// at the first that has one.
pub(crate) fn try_recv_in_order<Ctx>(
    rxs: &mut [DynReceiver<Ctx>],
    order: &[usize],
) -> (result: Option<Ctx>)
    requires
        names_only(order@, old(rxs)@.len()),
    ensures
        plain_scan(old(rxs)@, final(rxs)@, order@, result),
        visits_some(order@, old(rxs)@.len()) ==> match result {
            Some(m) => took_along(old(rxs)@, final(rxs)@, order@, m),
            None => passed_along(old(rxs)@, final(rxs)@, order@),
        },
{
    match try_recv_in_order_tagged(rxs, order) {
        Some((m, _)) => Some(m),
        None => None,
    }
}

/// Asks the receivers for a message, without blocking, from the lowest priority band
/// up and within a band in registration order, and stops at the first that has one.
pub(crate) fn try_recv_lowest_nonempty<Ctx>(
    rxs: &mut [DynReceiver<Ctx>],
    priorities: &[u8],
) -> (result: Option<Ctx>)
    requires
        priorities@.len() == old(rxs)@.len(),
    ensures
        match result {
            Some(m) => took_for_relief(old(rxs)@, final(rxs)@, priorities@, m),
            None => nothing_found(old(rxs)@, final(rxs)@),
        },
{
    let order = relief_order(priorities);
    let result = try_recv_in_order(rxs, order.as_slice());
    proof {
        assert(order@.len() == order.len());
        if result is Some {
            let m = result->0;
            let idx = choose|idx: usize| #[trigger] found_along(old(rxs)@, rxs@, order@, idx, m);
            let k = choose|k: int| #[trigger]
                found_at(old(rxs)@, rxs@, order@, k, m) && order@[k] == idx;
            lemma_found_for_relief(old(rxs)@, rxs@, priorities@, order@, k, m);
        } else {
            lemma_nothing_found(old(rxs)@, rxs@, order@);
        }
    }
    result
}

/// A poll along an order that names no receiver twice asked each of them at most once.
proof fn lemma_polled_once<T>(
    pre: Seq<DynReceiver<T>>,
    post: Seq<DynReceiver<T>>,
    order: Seq<usize>,
    priorities: Seq<u8>,
    result: Polled<Option<(T, bool)>>,
)
    requires
        visits_some(order, pre.len()),
        pre.len() <= usize::MAX,
        polled_in_turn(pre, post, order, priorities, result),
    ensures
        polled_along(pre, post, order, priorities, result),
{
    match result {
        Polled::Ready(Some((m, is_top))) => {
            let k = choose|k: int| #[trigger]
                stopped_at(pre, post, order, k, m) && is_top == (priorities[order[k] as int]
                    == priorities[order[0] as int]);
            lemma_stopped_once(pre, post, order, k, m);
        },
        Polled::Ready(None) => {
            lemma_walked_closed_once(pre, post, order, true);
        },
        Polled::Pending => {
            lemma_walked_closed_once(pre, post, order, false);
        },
    }
}

/// Polls the receivers in the given order and stops at the first that has a message,
/// which comes with a flag that says whether it is from a channel of the same priority as
/// the first in the order; in priority order, that is the top-priority band. Without a
/// message the poll is over only if every receiver in the order is closed; until then each
/// of the others wakes the task of `cx` when there is something to receive.
pub fn poll_any<Ctx>(
    rxs: &mut [DynReceiver<Ctx>],
    order: &[usize],
    priorities: &[u8],
    cx: &mut Context<'_>,
) -> (result: Polled<Option<(Ctx, bool)>>)
    requires
        priorities@.len() == old(rxs)@.len(),
        names_only(order@, old(rxs)@.len()),
    ensures
        polled_in_turn(old(rxs)@, final(rxs)@, order@, priorities@, result),
        visits_some(order@, old(rxs)@.len()) ==> polled_along(
            old(rxs)@,
            final(rxs)@,
            order@,
            priorities@,
            result,
        ),
        is_priority_order(priorities@, order@) ==> polled_by_priority(
            old(rxs)@,
            final(rxs)@,
            priorities@,
            result,
        ),
        final(rxs)@.len() == old(rxs)@.len(),
        forall|j: int|
            0 <= j < old(rxs)@.len() ==> (#[trigger] final(rxs)@[j]).wire() == old(rxs)@[j].wire()
                && old(rxs)@[j].log().is_prefix_of(final(rxs)@[j].log()),
        result matches Polled::Ready(Some((m, is_top))) ==> exists|k: int|
            0 <= k < order@.len() && #[trigger] final(rxs)@[order@[k] as int].received()
                == old(rxs)@[order@[k] as int].received().push(m) && is_top
                == (priorities@[order@[k] as int] == priorities@[order@[0] as int])
                && forall|j: int|
                0 <= j < old(rxs)@.len() && j != order@[k] ==> (
                #[trigger] final(rxs)@[j]).received() == old(rxs)@[j].received(),
        !(result is Ready && result->Ready_0 is Some) ==> forall|j: int|
            0 <= j < old(rxs)@.len() ==> (#[trigger] final(rxs)@[j]).received()
                == old(rxs)@[j].received(),
        result == Polled::Ready(None::<(Ctx, bool)>) ==> forall|k: int|
            0 <= k < order@.len() ==> final(rxs)@[
            #[trigger] order@[k] as int].log().last() is Closed,
        result is Pending && order@.no_duplicates() ==> exists|k: int|
            0 <= k < order@.len() && !(final(rxs)@[
            #[trigger] order@[k] as int].log().last() is Closed),
        result is Pending ==> awaited_along(final(rxs)@, order@, *old(cx)),
        result is Pending ==> forall|p: int|
            0 <= p < order@.len() ==> final(rxs)@[#[trigger] order@[p] as int].log().last() is Closed
                || final(rxs)@[order@[p] as int].armed(*old(cx)),
        *final(cx) == *old(cx),
{
    let ghost pre = rxs@;
    let n: usize = rxs.len();
    let mut closed: bool = true;
    let mut k: usize = 0;
    proof {
        lemma_no_walk(pre, pre, order@.take(0));
    }
    while k < order.len()
        invariant
            pre == old(rxs)@,
            n == pre.len(),
            rxs@.len() == pre.len(),
            priorities@.len() == pre.len(),
            names_only(order@, pre.len()),
            k <= order@.len(),
            walked_closed(pre, rxs@, order@.take(k as int), closed),
            awaited_along(rxs@, order@.take(k as int), *cx),
            *cx == *old(cx),
        decreases order@.len() - k,
    {
        let idx: usize = order[k];
        let ghost mid = rxs@;
        let attempt = rxs[idx].poll_recv(cx);
        match attempt {
            Polled::Ready(Some(m)) => {
                let is_top = priorities[idx] == priorities[order[0]];
                let result = Polled::Ready(Some((m, is_top)));
                proof {
                    assert(walked(pre, mid, order@.take(k as int)));
                    assert(stopped_at(pre, rxs@, order@, k as int, m));
                    lemma_poll_over(pre, rxs@, order@, priorities@, result);
                    law_poll_receives_what_it_gives(pre, rxs@, priorities@, order@, result);
                }
                return result;
            },
            Polled::Ready(None) => {
                proof {
                    assert(order@.take(k + 1).drop_last() == order@.take(k as int));
                    lemma_walk_on(pre, mid, rxs@, order@.take(k + 1), closed);
                    lemma_awaited_grows(mid, rxs@, order@, k as int, *cx);
                }
            },
            Polled::Pending => {
                proof {
                    assert(order@.take(k + 1).drop_last() == order@.take(k as int));
                    lemma_walk_on(pre, mid, rxs@, order@.take(k + 1), closed);
                    lemma_awaited_grows(mid, rxs@, order@, k as int, *cx);
                }
                closed = false;
            },
        }
        k = k + 1;
    }
    assert(order@.take(k as int) == order@);
    let result = if closed {
        Polled::Ready(None)
    } else {
        Polled::Pending
    };
    proof {
        lemma_poll_over(pre, rxs@, order@, priorities@, result);
        law_poll_receives_what_it_gives(pre, rxs@, priorities@, order@, result);
    }
    result
}

/// What a poll comes to, along orders of each kind.
pub(crate) proof fn lemma_poll_over<T>(
    pre: Seq<DynReceiver<T>>,
    post: Seq<DynReceiver<T>>,
    order: Seq<usize>,
    priorities: Seq<u8>,
    result: Polled<Option<(T, bool)>>,
)
    requires
        pre.len() <= usize::MAX,
        priorities.len() == pre.len(),
        polled_in_turn(pre, post, order, priorities, result),
    ensures
        visits_some(order, pre.len()) ==> polled_along(pre, post, order, priorities, result),
        is_priority_order(priorities, order) ==> polled_by_priority(
            pre,
            post,
            priorities,
            result,
        ),
{
    if visits_some(order, pre.len()) {
        lemma_polled_once(pre, post, order, priorities, result);
    }
    if is_priority_order(priorities, order) {
        lemma_polled_by_priority(pre, post, order, priorities, result);
    }
}

/// The first `k + 1` receivers of an order are closed if the first `k` were and the one
/// just asked is.
proof fn lemma_closed_grows<T>(
    before: Seq<DynReceiver<T>>,
    after: Seq<DynReceiver<T>>,
    order: Seq<usize>,
    k: int,
)
    requires
        0 <= k < order.len(),
        forall|p: int|
            0 <= p < order.len() && p != k ==> after[#[trigger] order[p] as int]
                == before[order[p] as int],
    ensures
        closed_along(after, order.take(k + 1)) <==> closed_along(before, order.take(k))
            && after[order[k] as int].log().last() is Closed,
{
    let shorter = order.take(k);
    let longer = order.take(k + 1);
    if closed_along(after, longer) {
        assert(longer[k] == order[k]);
        assert forall|p: int| 0 <= p < shorter.len() implies before[#[trigger] shorter[p] as int]
            .log().last() is Closed by {
            assert(longer[p] == order[p]);
        }
    }
    if closed_along(before, shorter) && after[order[k] as int].log().last() is Closed {
        assert forall|p: int| 0 <= p < longer.len() implies after[#[trigger] longer[p] as int]
            .log().last() is Closed by {
            if p < k {
                assert(shorter[p] == order[p]);
            }
        }
    }
}

/// The first `k + 1` receivers of an order are awaited if the first `k` were and the one
/// just asked is closed or wakes the task.
proof fn lemma_awaited_grows<T>(
    before: Seq<DynReceiver<T>>,
    after: Seq<DynReceiver<T>>,
    order: Seq<usize>,
    k: int,
    cx: Context<'_>,
)
    requires
        names_only(order, before.len()),
        0 <= k < order.len(),
        after == before.update(order[k] as int, after[order[k] as int]),
        awaited_along(before, order.take(k), cx),
        after[order[k] as int].log().last() is Closed || after[order[k] as int].armed(cx),
    ensures
        awaited_along(after, order.take(k + 1), cx),
{
    let shorter = order.take(k);
    let longer = order.take(k + 1);
    assert forall|p: int| 0 <= p < longer.len() implies after[#[trigger] longer[p] as int]
        .log().last() is Closed || after[longer[p] as int].armed(cx) by {
        if longer[p] != order[k] {
            assert(shorter[p] == order[p]);
        }
    }
}

} // verus!
