//! What holds across calls: of the order of visits, of single dispatches and of runs
//! of dispatches, and of the way from a token to its channel.
use std::task::Context;
use vstd::prelude::*;

use crate::builder::{Channel, ChannelSpec};
use crate::channel::{
    fresh_channel, observed, send_outcome, Capacity, DynReceiver, DynSender, Polled, SendStep,
};
use crate::endpoint::{messages, one_each, placed, Observation};
use crate::error::{TryRecvError, TrySendError};
use crate::handler::{effective_specs, opened, TaskHandler};
use crate::order::{in_top_band, is_priority_order, more_neglected, more_urgent};
use crate::scan::{
    all_closed, awaited_along, found, found_by_priority, found_for_relief, nothing_found, passed_over,
    took_by_priority, took_for_relief,
};
use crate::scheduler::{
    counted_dispatch, dispatched_by_priority, dispatched_without_relief, fair_dispatch,
    next_streak, strict_dispatch, Dispatch, FairState,
};

verus! {

/// The receiver yielded the message `m`, and nothing else, between `pre` and `post`.
pub open spec fn yielded<T>(pre: DynReceiver<T>, post: DynReceiver<T>, m: T) -> bool {
    post.received() == pre.received().push(m)
}

/// Whenever the receiver was asked between `pre` and `post`, it had a message.
pub open spec fn never_empty<T>(pre: DynReceiver<T>, post: DynReceiver<T>) -> bool {
    forall|k: int|
        pre.log().len() <= k < post.log().len() ==> #[trigger] post.log()[k] is Message
}

/// Only receiver `i` yielded something, namely `m`, which has the next place in its
/// channel. Each receiver still belongs to the channel that it belonged to.
pub open spec fn only_yielded<T>(
    pre: Seq<DynReceiver<T>>,
    post: Seq<DynReceiver<T>>,
    i: int,
    m: T,
) -> bool {
    &&& post.len() == pre.len()
    &&& 0 <= i < pre.len()
    &&& yielded(pre[i], post[i], m)
    &&& pre[i].wire().carried.contains((pre[i].received().len(), m))
    &&& forall|j: int| 0 <= j < pre.len() ==> (#[trigger] post[j]).wire() == pre[j].wire()
    &&& forall|j: int|
        0 <= j < pre.len() && j != i ==> (#[trigger] post[j]).received() == pre[j].received()
}

/// No receiver yielded anything. Each still belongs to the channel that it belonged to.
pub open spec fn none_yielded<T>(pre: Seq<DynReceiver<T>>, post: Seq<DynReceiver<T>>) -> bool {
    &&& post.len() == pre.len()
    &&& forall|j: int|
        0 <= j < pre.len() ==> (#[trigger] post[j]).wire() == pre[j].wire() && post[j].received()
            == pre[j].received()
}

/// The dispatch `d` hands out exactly what was received for it.
pub open spec fn hands_out_what_it_takes<T>(
    pre: Seq<DynReceiver<T>>,
    post: Seq<DynReceiver<T>>,
    d: Dispatch<T>,
) -> bool {
    match d {
        Dispatch::Ready(Some(m)) => exists|i: int| #[trigger] only_yielded(pre, post, i, m),
        _ => none_yielded(pre, post),
    }
}

/// What an attempt to receive adds to the messages received.
pub(crate) proof fn lemma_observed<T>(pre: DynReceiver<T>, post: DynReceiver<T>, seen: Observation<T>)
    requires
        observed(pre, post, seen),
    ensures
        seen matches Observation::Message(m) ==> yielded(pre, post, m),
        !(seen is Message) ==> post.received() == pre.received(),
        pre.finished() ==> post.finished(),
        seen is Closed ==> post.finished(),
{
    assert(post.log().drop_last() == pre.log());
    if pre.finished() {
        let k = choose|k: int| 0 <= k < pre.log().len() && #[trigger] pre.log()[k] is Closed;
    }
}

/// A fruitless scan receives nothing.
pub(crate) proof fn lemma_nothing_found<T>(pre: Seq<DynReceiver<T>>, post: Seq<DynReceiver<T>>)
    requires
        nothing_found(pre, post),
    ensures
        none_yielded(pre, post),
{
    assert forall|j: int| 0 <= j < pre.len() implies (#[trigger] post[j]).received()
        == pre[j].received() by {
        lemma_observed(pre[j], post[j], post[j].log().last());
    }
}

/// A scan that stops at a message receives that message alone.
pub(crate) proof fn lemma_found<T>(
    pre: Seq<DynReceiver<T>>,
    post: Seq<DynReceiver<T>>,
    i: int,
    m: T,
    ahead: spec_fn(int) -> bool,
)
    requires
        found(pre, post, i, m, ahead),
    ensures
        only_yielded(pre, post, i, m),
{
    lemma_observed(pre[i], post[i], Observation::Message(m));
    assert forall|j: int| 0 <= j < pre.len() && j != i implies (#[trigger] post[j]).received()
        == pre[j].received() by {
        if ahead(j) {
            lemma_observed(pre[j], post[j], post[j].log().last());
        }
    }
}

/// The priorities alone determine the order of visits.
pub proof fn law_priority_order_is_unique(priorities: Seq<u8>, a: Seq<usize>, b: Seq<usize>)
    requires
        is_priority_order(priorities, a),
        is_priority_order(priorities, b),
    ensures
        a == b,
{
    assert forall|k: int| 0 <= k < a.len() implies a[k] == b[k] by {
        lemma_same_place(priorities, a, b, k);
    }
}

proof fn lemma_same_place(priorities: Seq<u8>, a: Seq<usize>, b: Seq<usize>, k: int)
    requires
        is_priority_order(priorities, a),
        is_priority_order(priorities, b),
        0 <= k < a.len(),
    ensures
        a[k] == b[k],
    decreases k,
{
    assert forall|p: int| 0 <= p < k implies a[p] == b[p] by {
        lemma_same_place(priorities, a, b, p);
    }
    if a[k] != b[k] {
        assert(b.contains(a[k]));
        let q = choose|q: int| 0 <= q < b.len() && b[q] == a[k];
        assert(a.contains(b[k]));
        let r = choose|r: int| 0 <= r < a.len() && a[r] == b[k];
        assert(q > k);
        assert(r > k);
    }
}

/// Among channels of equal priority the one registered first is visited first: if
/// channel `i` is served, each equal that was registered before it was asked and had
/// no message. This holds of a scan by priority and of one for relief.
pub proof fn law_equals_are_visited_in_registration_order<T>(
    pre: Seq<DynReceiver<T>>,
    post: Seq<DynReceiver<T>>,
    priorities: Seq<u8>,
    i: int,
    j: int,
    m: T,
)
    requires
        found_by_priority(pre, post, priorities, i, m) || found_for_relief(
            pre,
            post,
            priorities,
            i,
            m,
        ),
        0 <= j < i,
        priorities[j] == priorities[i],
    ensures
        passed_over(pre[j], post[j]),
{
}

/// A dispatch of `StrictPriority` hands out exactly what was received for it: one
/// message, which came out of one channel and has the next place there, or none.
/// Nothing is lost, doubled or made up.
pub proof fn law_strict_hands_out_what_it_takes<T>(
    pre: Seq<DynReceiver<T>>,
    post: Seq<DynReceiver<T>>,
    priorities: Seq<u8>,
    d: Dispatch<T>,
)
    requires
        strict_dispatch(pre, post, priorities, d),
    ensures
        hands_out_what_it_takes(pre, post, d),
{
    let is_top = choose|is_top: bool| #[trigger]
        dispatched_by_priority(pre, post, priorities, d, is_top);
    lemma_by_priority_hands_out(pre, post, priorities, d, is_top);
}

proof fn lemma_by_priority_hands_out<T>(
    pre: Seq<DynReceiver<T>>,
    post: Seq<DynReceiver<T>>,
    priorities: Seq<u8>,
    d: Dispatch<T>,
    is_top: bool,
)
    requires
        dispatched_by_priority(pre, post, priorities, d, is_top),
    ensures
        hands_out_what_it_takes(pre, post, d),
{
    match d {
        Dispatch::Ready(Some(m)) => {
            let i = choose|i: int| #[trigger]
                found_by_priority(pre, post, priorities, i, m) && is_top == in_top_band(
                    priorities,
                    i,
                );
            lemma_found(pre, post, i, m, |j: int| more_urgent(priorities, j, i));
        },
        Dispatch::Ready(None) => {},
        Dispatch::Wait(_) => {
            lemma_nothing_found(pre, post);
        },
    }
}

/// A dispatch of `FairPriority` hands out exactly what was received for it: one
/// message, which came out of one channel and has the next place there, or none.
/// Nothing is lost, doubled or made up.
pub proof fn law_fair_hands_out_what_it_takes<T>(
    s0: FairState,
    s1: FairState,
    pre: Seq<DynReceiver<T>>,
    post: Seq<DynReceiver<T>>,
    priorities: Seq<u8>,
    d: Dispatch<T>,
)
    requires
        fair_dispatch(s0, s1, pre, post, priorities, d),
    ensures
        hands_out_what_it_takes(pre, post, d),
{
    if pre.len() == 0 {
    } else if !s0.relief_due() {
        lemma_counted_hands_out(pre, post, priorities, s0.streak, s1.streak, d);
    } else if dispatched_without_relief(pre, post, priorities, s1.streak, d) {
        let mid = choose|mid: Seq<DynReceiver<T>>| #[trigger]
            nothing_found(pre, mid) && counted_dispatch(mid, post, priorities, 0, s1.streak, d);
        lemma_nothing_found(pre, mid);
        lemma_counted_hands_out(mid, post, priorities, 0, s1.streak, d);
        if let Dispatch::Ready(Some(m)) = d {
            let i = choose|i: int| #[trigger] only_yielded(mid, post, i, m);
            assert(only_yielded(pre, post, i, m));
        }
    } else {
        let m = d->Ready_0->0;
        let i = choose|i: int| #[trigger] found_for_relief(pre, post, priorities, i, m);
        lemma_found(pre, post, i, m, |j: int| more_neglected(priorities, j, i));
    }
}

proof fn lemma_counted_hands_out<T>(
    pre: Seq<DynReceiver<T>>,
    post: Seq<DynReceiver<T>>,
    priorities: Seq<u8>,
    from: u32,
    to: u32,
    d: Dispatch<T>,
)
    requires
        counted_dispatch(pre, post, priorities, from, to, d),
    ensures
        hands_out_what_it_takes(pre, post, d),
{
    let is_top = choose|is_top: bool| #[trigger]
        dispatched_by_priority(pre, post, priorities, d, is_top) && to == if d is Ready {
            next_streak(from, is_top)
        } else {
            from
        };
    lemma_by_priority_hands_out(pre, post, priorities, d, is_top);
}

/// A wait that ends with a message hands out exactly what was received in its last
/// poll, and a poll that ends without one has received nothing.
pub proof fn law_wait_hands_out_what_it_takes<T>(
    pre: Seq<DynReceiver<T>>,
    post: Seq<DynReceiver<T>>,
    priorities: Seq<u8>,
    m: T,
    is_top: bool,
)
    ensures
        took_by_priority(pre, post, priorities, m, is_top) ==> exists|i: int| #[trigger]
            only_yielded(pre, post, i, m),
        nothing_found(pre, post) ==> none_yielded(pre, post),
{
    if took_by_priority(pre, post, priorities, m, is_top) {
        let d = Dispatch::Ready(Some(m));
        lemma_by_priority_hands_out(pre, post, priorities, d, is_top);
    }
    if nothing_found(pre, post) {
        lemma_nothing_found(pre, post);
    }
}

/// A receiver that was passed over was found empty.
proof fn lemma_passed_over<T>(pre: DynReceiver<T>, post: DynReceiver<T>)
    requires
        passed_over(pre, post),
    ensures
        !never_empty(pre, post),
{
}

/// A scan by priority serves nothing less urgent than a channel that is never found
/// empty.
proof fn lemma_by_priority_does_not_bypass<T>(
    pre: Seq<DynReceiver<T>>,
    post: Seq<DynReceiver<T>>,
    priorities: Seq<u8>,
    d: Dispatch<T>,
    is_top: bool,
    h: int,
)
    requires
        dispatched_by_priority(pre, post, priorities, d, is_top),
        0 <= h < pre.len(),
        never_empty(pre[h], post[h]),
    ensures
        d matches Dispatch::Ready(Some(m)) && exists|i: int| #[trigger]
            only_yielded(pre, post, i, m) && !more_urgent(priorities, h, i) && is_top
                == in_top_band(priorities, i),
{
    match d {
        Dispatch::Ready(Some(m)) => {
            let i = choose|i: int| #[trigger]
                found_by_priority(pre, post, priorities, i, m) && is_top == in_top_band(
                    priorities,
                    i,
                );
            lemma_found(pre, post, i, m, |j: int| more_urgent(priorities, j, i));
            if h != i && more_urgent(priorities, h, i) {
                lemma_passed_over(pre[h], post[h]);
            }
        },
        Dispatch::Ready(None) => {},
        Dispatch::Wait(_) => {
            lemma_passed_over(pre[h], post[h]);
        },
    }
}

/// Strict priority: as long as channel `h` is not found empty, no channel after it in
/// the priority order is served. (So channels below a channel that never drains
/// starve.)
pub proof fn law_strict_priority<T>(
    pre: Seq<DynReceiver<T>>,
    post: Seq<DynReceiver<T>>,
    priorities: Seq<u8>,
    d: Dispatch<T>,
    h: int,
)
    requires
        strict_dispatch(pre, post, priorities, d),
        0 <= h < pre.len(),
        never_empty(pre[h], post[h]),
    ensures
        d matches Dispatch::Ready(Some(m)) && exists|i: int| #[trigger]
            only_yielded(pre, post, i, m) && !more_urgent(priorities, h, i),
{
    let is_top = choose|is_top: bool| #[trigger]
        dispatched_by_priority(pre, post, priorities, d, is_top);
    lemma_by_priority_does_not_bypass(pre, post, priorities, d, is_top, h);
}

/// While the budget lasts, `FairPriority` chooses as `StrictPriority` does.
pub proof fn law_fair_is_strict_within_budget<T>(
    s0: FairState,
    s1: FairState,
    pre: Seq<DynReceiver<T>>,
    post: Seq<DynReceiver<T>>,
    priorities: Seq<u8>,
    d: Dispatch<T>,
)
    requires
        fair_dispatch(s0, s1, pre, post, priorities, d),
        pre.len() > 0,
        !s0.relief_due(),
    ensures
        strict_dispatch(pre, post, priorities, d),
{
}

/// When relief is due, the lowest non-empty band is served: as long as channel `low` is
/// not found empty, the message comes from a channel of its priority or lower. The
/// streak starts anew.
pub proof fn law_relief_serves_the_lowest_band<T>(
    s0: FairState,
    s1: FairState,
    pre: Seq<DynReceiver<T>>,
    post: Seq<DynReceiver<T>>,
    priorities: Seq<u8>,
    d: Dispatch<T>,
    low: int,
)
    requires
        fair_dispatch(s0, s1, pre, post, priorities, d),
        priorities.len() == pre.len(),
        s0.relief_due(),
        0 <= low < pre.len(),
        never_empty(pre[low], post[low]),
    ensures
        s1.streak == 0,
        d matches Dispatch::Ready(Some(m)) && exists|i: int| #[trigger]
            only_yielded(pre, post, i, m) && priorities[i] >= priorities[low],
{
    if dispatched_without_relief(pre, post, priorities, s1.streak, d) {
        let mid = choose|mid: Seq<DynReceiver<T>>| #[trigger]
            nothing_found(pre, mid) && counted_dispatch(mid, post, priorities, 0, s1.streak, d);
        lemma_log_grows(mid, post, priorities, 0, s1.streak, d, low);
    }
    let m = d->Ready_0->0;
    let i = choose|i: int| #[trigger] found_for_relief(pre, post, priorities, i, m);
    lemma_found(pre, post, i, m, |j: int| more_neglected(priorities, j, i));
    if i != low && more_neglected(priorities, low, i) {
        lemma_passed_over(pre[low], post[low]);
    }
}

/// A dispatch only adds to the history of a receiver.
proof fn lemma_log_grows<T>(
    pre: Seq<DynReceiver<T>>,
    post: Seq<DynReceiver<T>>,
    priorities: Seq<u8>,
    from: u32,
    to: u32,
    d: Dispatch<T>,
    i: int,
)
    requires
        counted_dispatch(pre, post, priorities, from, to, d),
        0 <= i < pre.len(),
    ensures
        pre[i].log().is_prefix_of(post[i].log()),
{
    let is_top = choose|is_top: bool| #[trigger]
        dispatched_by_priority(pre, post, priorities, d, is_top) && to == if d is Ready {
            next_streak(from, is_top)
        } else {
            from
        };
    if let Dispatch::Ready(Some(m)) = d {
        let k = choose|k: int| #[trigger]
            found_by_priority(pre, post, priorities, k, m) && is_top == in_top_band(priorities, k);
    }
}

/// One dispatch of a `FairPriority`, for runs of them.
#[verifier::reject_recursive_types(T)]
pub struct FairTurn<T> {
    /// The scheduler before the dispatch.
    pub s0: FairState,
    /// The scheduler after the dispatch.
    pub s1: FairState,
    /// The receivers before the dispatch.
    pub pre: Seq<DynReceiver<T>>,
    /// The receivers after the dispatch.
    pub post: Seq<DynReceiver<T>>,
    /// What the dispatch came to.
    pub d: Dispatch<T>,
}

/// Consecutive dispatches of one `FairPriority` on a task with the given priorities.
pub open spec fn fair_run<T>(run: Seq<FairTurn<T>>, priorities: Seq<u8>) -> bool {
    &&& forall|t: int|
        0 <= t < run.len() ==> {
            let turn = #[trigger] run[t];
            turn.pre.len() == priorities.len() && fair_dispatch(
                turn.s0,
                turn.s1,
                turn.pre,
                turn.post,
                priorities,
                turn.d,
            )
        }
    &&& forall|t: int, u: int|
        0 <= t && u == t + 1 && u < run.len() ==> (#[trigger] run[u]).s0 == (
        #[trigger] run[t]).s1
}

/// The turn serves a channel below the top-priority band.
pub open spec fn serves_below_top<T>(turn: FairTurn<T>, priorities: Seq<u8>) -> bool {
    turn.d matches Dispatch::Ready(Some(m)) && exists|i: int| #[trigger]
        only_yielded(turn.pre, turn.post, i, m) && !in_top_band(priorities, i)
}

/// Anti-starvation: while at each turn some channel below the top-priority band, in turn
/// `t` the channel `low[t]`, has something waiting, the top-priority band gets no more than
/// what is left of its budget before a channel below it is served.
pub proof fn law_anti_starvation<T>(run: Seq<FairTurn<T>>, priorities: Seq<u8>, low: Seq<int>)
    requires
        fair_run(run, priorities),
        run.len() > 0,
        run.len() + run[0].s0.streak > run[0].s0.budget,
        low.len() == run.len(),
        forall|t: int|
            0 <= t < run.len() ==> {
                &&& 0 <= #[trigger] low[t] < priorities.len()
                &&& !in_top_band(priorities, low[t])
                &&& never_empty(run[t].pre[low[t]], run[t].post[low[t]])
            },
    ensures
        exists|t: int|
            0 <= t < run.len() && (t == 0 || t + run[0].s0.streak <= run[0].s0.budget)
                && serves_below_top(#[trigger] run[t], priorities),
    decreases run.len(),
{
    let turn = run[0];
    let first = low[0];
    if turn.s0.relief_due() {
        law_relief_serves_the_lowest_band(
            turn.s0,
            turn.s1,
            turn.pre,
            turn.post,
            priorities,
            turn.d,
            first,
        );
        let m = turn.d->Ready_0->0;
        let i = choose|i: int| #[trigger]
            only_yielded(turn.pre, turn.post, i, m) && priorities[i] >= priorities[first];
        lemma_below_top(priorities, first, i);
    } else {
        let is_top = choose|is_top: bool| #[trigger]
            dispatched_by_priority(turn.pre, turn.post, priorities, turn.d, is_top)
                && turn.s1.streak == if turn.d is Ready {
                next_streak(turn.s0.streak, is_top)
            } else {
                turn.s0.streak
            };
        lemma_by_priority_does_not_bypass(turn.pre, turn.post, priorities, turn.d, is_top, first);
        if is_top {
            // The top-priority band is served and its streak grows.
            let rest = run.drop_first();
            let later = low.drop_first();
            assert(rest[0].s0 == run[0].s1);
            assert forall|t: int| 0 <= t < rest.len() implies {
                &&& 0 <= #[trigger] later[t] < priorities.len()
                &&& !in_top_band(priorities, later[t])
                &&& never_empty(rest[t].pre[later[t]], rest[t].post[later[t]])
            } by {
                assert(later[t] == low[t + 1] && rest[t] == run[t + 1]);
            }
            law_anti_starvation(rest, priorities, later);
            let t = choose|t: int|
                0 <= t < rest.len() && (t == 0 || t + rest[0].s0.streak <= rest[0].s0.budget)
                    && serves_below_top(#[trigger] rest[t], priorities);
            assert(rest[t] == run[t + 1]);
        }
    }
}

/// A channel of the priority of one below the top-priority band, or lower, is below it.
proof fn lemma_below_top(priorities: Seq<u8>, low: int, i: int)
    requires
        !in_top_band(priorities, low),
        priorities[i] >= priorities[low],
    ensures
        !in_top_band(priorities, i),
{
    let j = choose|j: int|
        0 <= j < priorities.len() && !(priorities[low] <= #[trigger] priorities[j]);
}

/// The streak never passes the budget (or one, for a budget of zero): neither a
/// dispatch nor the item that ends a wait takes it beyond.
pub proof fn law_streak_stays_within_budget<T>(
    s0: FairState,
    s1: FairState,
    pre: Seq<DynReceiver<T>>,
    post: Seq<DynReceiver<T>>,
    priorities: Seq<u8>,
    d: Dispatch<T>,
    is_top: bool,
)
    requires
        fair_dispatch(s0, s1, pre, post, priorities, d),
        s0.streak <= s0.budget || s0.streak <= 1,
    ensures
        s1.streak <= s1.budget || s1.streak <= 1,
        d is Wait ==> next_streak(s1.streak, is_top) <= s1.budget || next_streak(
            s1.streak,
            is_top,
        ) <= 1,
{
    if pre.len() > 0 && s0.relief_due() && dispatched_without_relief(
        pre,
        post,
        priorities,
        s1.streak,
        d,
    ) {
        let mid = choose|mid: Seq<DynReceiver<T>>| #[trigger]
            nothing_found(pre, mid) && counted_dispatch(mid, post, priorities, 0, s1.streak, d);
    }
}

/// All receivers are in step with their channels.
pub open spec fn all_in_step<T>(rxs: Seq<DynReceiver<T>>) -> bool {
    forall|i: int| 0 <= i < rxs.len() ==> (#[trigger] rxs[i]).in_step()
}

/// What comes out of a channel has its places in order, without gaps: an attempt to
/// receive keeps a receiver in step with its channel.
pub proof fn law_receiving_keeps_step<T>(
    pre: DynReceiver<T>,
    post: DynReceiver<T>,
    seen: Observation<T>,
)
    requires
        observed(pre, post, seen),
        pre.in_step(),
    ensures
        post.in_step(),
{
    lemma_observed(pre, post, seen);
    if post.finished() && !pre.finished() {
        let k = choose|k: int| 0 <= k < post.log().len() && #[trigger] post.log()[k] is Closed;
        if k < pre.log().len() {
            assert(pre.log()[k] is Closed);
        }
        assert(seen is Closed);
    }
    assert forall|n: nat| n < post.received().len() implies post.wire().carried.contains(
        (n, #[trigger] post.received()[n as int]),
    ) by {
        if n < pre.received().len() {
            assert(pre.wire().carried.contains((n, pre.received()[n as int])));
        }
    }
}

/// The receivers of a task start in step with their channels.
pub proof fn law_fresh_receivers_are_in_step<Ctx>(
    specs: Seq<ChannelSpec>,
    senders: Seq<DynSender<Ctx>>,
    receivers: Seq<DynReceiver<Ctx>>,
    priorities: Seq<u8>,
)
    requires
        opened(specs, senders, receivers, priorities),
    ensures
        all_in_step(receivers),
{
    assert forall|i: int| 0 <= i < receivers.len() implies (#[trigger] receivers[i]).in_step() by {
        assert(messages(receivers[i].log()) == Seq::<Ctx>::empty());
    }
}

/// A poll keeps the receivers in step with their channels, whatever it comes to.
pub proof fn law_waiting_keeps_step<T>(
    pre: Seq<DynReceiver<T>>,
    post: Seq<DynReceiver<T>>,
    priorities: Seq<u8>,
    m: T,
    is_top: bool,
)
    requires
        nothing_found(pre, post) || took_by_priority(pre, post, priorities, m, is_top),
        all_in_step(pre),
    ensures
        all_in_step(post),
{
    if nothing_found(pre, post) {
        lemma_nothing_found_keeps_step(pre, post);
    } else {
        let i = choose|i: int| #[trigger]
            found_by_priority(pre, post, priorities, i, m) && is_top == in_top_band(priorities, i);
        lemma_found_keeps_step(pre, post, i, m, |j: int| more_urgent(priorities, j, i));
    }
}

proof fn lemma_nothing_found_keeps_step<T>(pre: Seq<DynReceiver<T>>, post: Seq<DynReceiver<T>>)
    requires
        nothing_found(pre, post),
        all_in_step(pre),
    ensures
        all_in_step(post),
{
    assert forall|i: int| 0 <= i < post.len() implies (#[trigger] post[i]).in_step() by {
        law_receiving_keeps_step(pre[i], post[i], post[i].log().last());
    }
}

proof fn lemma_found_keeps_step<T>(
    pre: Seq<DynReceiver<T>>,
    post: Seq<DynReceiver<T>>,
    i: int,
    m: T,
    ahead: spec_fn(int) -> bool,
)
    requires
        found(pre, post, i, m, ahead),
        all_in_step(pre),
    ensures
        all_in_step(post),
{
    assert forall|j: int| 0 <= j < post.len() implies (#[trigger] post[j]).in_step() by {
        assert(pre[j].in_step());
        if j == i {
            law_receiving_keeps_step(pre[j], post[j], Observation::Message(m));
        } else if ahead(j) {
            law_receiving_keeps_step(pre[j], post[j], post[j].log().last());
        }
    }
}

/// A dispatch of `StrictPriority` keeps the receivers in step with their channels.
pub proof fn law_strict_keeps_step<T>(
    pre: Seq<DynReceiver<T>>,
    post: Seq<DynReceiver<T>>,
    priorities: Seq<u8>,
    d: Dispatch<T>,
)
    requires
        strict_dispatch(pre, post, priorities, d),
        all_in_step(pre),
    ensures
        all_in_step(post),
{
    let is_top = choose|is_top: bool| #[trigger]
        dispatched_by_priority(pre, post, priorities, d, is_top);
    law_waiting_keeps_step(pre, post, priorities, d->Ready_0->0, is_top);
}

/// A dispatch of `FairPriority` keeps the receivers in step with their channels.
pub proof fn law_fair_keeps_step<T>(
    s0: FairState,
    s1: FairState,
    pre: Seq<DynReceiver<T>>,
    post: Seq<DynReceiver<T>>,
    priorities: Seq<u8>,
    d: Dispatch<T>,
)
    requires
        fair_dispatch(s0, s1, pre, post, priorities, d),
        all_in_step(pre),
    ensures
        all_in_step(post),
{
    if pre.len() == 0 {
    } else if !s0.relief_due() {
        law_strict_keeps_step(pre, post, priorities, d);
    } else if dispatched_without_relief(pre, post, priorities, s1.streak, d) {
        let mid = choose|mid: Seq<DynReceiver<T>>| #[trigger]
            nothing_found(pre, mid) && counted_dispatch(mid, post, priorities, 0, s1.streak, d);
        lemma_nothing_found_keeps_step(pre, mid);
        law_strict_keeps_step(mid, post, priorities, d);
    } else {
        let m = d->Ready_0->0;
        let i = choose|i: int| #[trigger] found_for_relief(pre, post, priorities, i, m);
        lemma_found_keeps_step(pre, post, i, m, |j: int| more_neglected(priorities, j, i));
    }
}

/// A task that has channels, as every started task does, is not ended by a dispatch: it
/// gets a context or waits.
pub proof fn law_dispatch_ends_no_task_with_channels<T>(
    s0: FairState,
    s1: FairState,
    pre: Seq<DynReceiver<T>>,
    post: Seq<DynReceiver<T>>,
    priorities: Seq<u8>,
    d: Dispatch<T>,
    declared: Seq<ChannelSpec>,
)
    requires
        pre.len() == effective_specs(declared).len(),
        fair_dispatch(s0, s1, pre, post, priorities, d) || strict_dispatch(
            pre,
            post,
            priorities,
            d,
        ),
    ensures
        d != Dispatch::<T>::Ready(None),
{
}

/// Where each place in a channel has one message, what comes out is what went in: the
/// message received at a place is the one that has it.
pub proof fn law_received_is_what_was_sent<T>(rx: DynReceiver<T>, n: nat, m: T)
    requires
        rx.in_step(),
        one_each(rx.wire()),
        rx.wire().carried.contains((n, m)),
        n < rx.received().len(),
    ensures
        rx.received()[n as int] == m,
{
}

/// A task that ends misses nothing: when the wait is over because every receiver is
/// closed, every place in a channel has been received, and where each place has one
/// message, so has every message whose send succeeded.
pub proof fn law_end_misses_nothing<T>(
    pre: Seq<DynReceiver<T>>,
    post: Seq<DynReceiver<T>>,
    i: int,
    n: nat,
    m: T,
)
    requires
        all_closed(pre, post),
        all_in_step(pre),
        0 <= i < post.len(),
        post[i].wire().carried.contains((n, m)),
    ensures
        n < post[i].received().len(),
        one_each(post[i].wire()) ==> post[i].received()[n as int] == m && post[i].received().contains(
            m,
        ),
{
    lemma_nothing_found_keeps_step(pre, post);
    lemma_observed(pre[i], post[i], post[i].log().last());
    assert(post[i].in_step());
    if one_each(post[i].wire()) {
        law_received_is_what_was_sent(post[i], n, m);
    }
}

/// Closed is for good: on receivers that have all been found closed, a dispatch of
/// `StrictPriority` finds no message any more.
pub proof fn law_strict_closed_is_for_good<T>(
    pre: Seq<DynReceiver<T>>,
    post: Seq<DynReceiver<T>>,
    priorities: Seq<u8>,
    d: Dispatch<T>,
)
    requires
        strict_dispatch(pre, post, priorities, d),
        forall|i: int| 0 <= i < pre.len() ==> (#[trigger] pre[i]).finished(),
    ensures
        !(d matches Dispatch::Ready(Some(_))),
        none_yielded(pre, post),
{
    law_strict_hands_out_what_it_takes(pre, post, priorities, d);
    if d matches Dispatch::Ready(Some(_)) {
        lemma_finished_yield_nothing(pre, post, priorities, d->Ready_0->0);
    }
}

/// Closed is for good: on receivers that have all been found closed, a dispatch of
/// `FairPriority` finds no message any more.
pub proof fn law_fair_closed_is_for_good<T>(
    s0: FairState,
    s1: FairState,
    pre: Seq<DynReceiver<T>>,
    post: Seq<DynReceiver<T>>,
    priorities: Seq<u8>,
    d: Dispatch<T>,
)
    requires
        fair_dispatch(s0, s1, pre, post, priorities, d),
        forall|i: int| 0 <= i < pre.len() ==> (#[trigger] pre[i]).finished(),
    ensures
        !(d matches Dispatch::Ready(Some(_))),
        none_yielded(pre, post),
{
    law_fair_hands_out_what_it_takes(s0, s1, pre, post, priorities, d);
    if pre.len() == 0 {
    } else if !s0.relief_due() {
        law_strict_closed_is_for_good(pre, post, priorities, d);
    } else if dispatched_without_relief(pre, post, priorities, s1.streak, d) {
        let mid = choose|mid: Seq<DynReceiver<T>>| #[trigger]
            nothing_found(pre, mid) && counted_dispatch(mid, post, priorities, 0, s1.streak, d);
        assert forall|i: int| 0 <= i < mid.len() implies (#[trigger] mid[i]).finished() by {
            lemma_observed(pre[i], mid[i], mid[i].log().last());
        }
        law_strict_closed_is_for_good(mid, post, priorities, d);
    } else {
        lemma_finished_yield_nothing(pre, post, priorities, d->Ready_0->0);
    }
}

/// No scan takes a message from receivers that have been found closed.
proof fn lemma_finished_yield_nothing<T>(
    pre: Seq<DynReceiver<T>>,
    post: Seq<DynReceiver<T>>,
    priorities: Seq<u8>,
    m: T,
)
    requires
        forall|i: int| 0 <= i < pre.len() ==> (#[trigger] pre[i]).finished(),
    ensures
        !took_by_priority(pre, post, priorities, m, true),
        !took_by_priority(pre, post, priorities, m, false),
        !took_for_relief(pre, post, priorities, m),
{
    assert(forall|i: int, ahead: spec_fn(int) -> bool|
        !(#[trigger] found(pre, post, i, m, ahead)));
}

/// A token stands for its channel however many channels are registered after it: the
/// sender that it selects and the receiver in its place are the two ends of one
/// channel, which has the priority and the capacity that it was registered with.
pub proof fn law_token_selects_its_channel<Ctx>(
    ch: Channel<Ctx>,
    before: Seq<ChannelSpec>,
    spec: ChannelSpec,
    declared: Seq<ChannelSpec>,
    senders: Seq<DynSender<Ctx>>,
    receivers: Seq<DynReceiver<Ctx>>,
    priorities: Seq<u8>,
)
    requires
        ch.index() == before.len(),
        before.push(spec).is_prefix_of(declared),
        opened(effective_specs(declared), senders, receivers, priorities),
    ensures
        ch.index() < senders.len(),
        senders[ch.index() as int].wire() == receivers[ch.index() as int].wire(),
        senders[ch.index() as int].wire().bound == spec.capacity.bound(),
        senders[ch.index() as int] is Bounded <==> spec.capacity is Bounded,
        priorities[ch.index() as int] == spec.priority,
{
    assert(before.push(spec)[before.len() as int] == spec);
}

/// Two channels registered on one task have different tokens.
pub proof fn law_tokens_differ<Ctx>(
    first: Channel<Ctx>,
    second: Channel<Ctx>,
    before: Seq<ChannelSpec>,
    spec: ChannelSpec,
    later: Seq<ChannelSpec>,
)
    requires
        first.index() == before.len(),
        before.push(spec).is_prefix_of(later),
        second.index() == later.len(),
    ensures
        first.index() != second.index(),
{
}

/// What a capacity means to a sender. Into a channel without a bound no send is refused
/// because it is full. `Bounded(n)` makes a channel that buffers `n` messages, but at least
/// one; a send that finds it full gives the value back.
pub proof fn law_capacity_bounds_the_channel<T>(
    cap: Capacity,
    sender: DynSender<T>,
    receiver: DynReceiver<T>,
    value: T,
    sent: Result<(), TrySendError<T>>,
)
    requires
        fresh_channel(cap, sender, receiver),
        send_outcome(sender.wire(), value, sent),
    ensures
        cap is Unbounded ==> sender.wire().bound is None && !(sent matches Err(
            TrySendError::Full(_),
        )),
        cap matches Capacity::Bounded(n) ==> sender.wire().bound == Some(
            if n >= 1 {
                n
            } else {
                1usize
            },
        ),
        sent matches Err(TrySendError::Full(back)) ==> cap is Bounded && back == value,
{
}

/// A poll and a non-blocking receive tell the same: on receivers of one channel with one
/// history, where both find the same, the poll brings a message exactly if the receive
/// does, and the same one; it is over exactly if the receive finds all senders gone, and
/// pending exactly if the receive finds nothing. Both leave the receivers with one history.
pub proof fn law_poll_tells_what_try_recv_tells<T>(
    a: DynReceiver<T>,
    a_post: DynReceiver<T>,
    polled: Polled<Option<T>>,
    b: DynReceiver<T>,
    b_post: DynReceiver<T>,
    tried: Result<T, TryRecvError>,
)
    requires
        a.wire() == b.wire(),
        a.log() == b.log(),
        observed(a, a_post, a_post.log().last()),
        polled == a_post.log().last().as_poll(),
        observed(b, b_post, b_post.log().last()),
        tried == b_post.log().last().as_try_recv(),
        a_post.log().last() == b_post.log().last(),
    ensures
        forall|m: T| polled == Polled::Ready(Some(m)) <==> tried == Ok::<T, TryRecvError>(m),
        polled == Polled::<Option<T>>::Ready(None) <==> tried == Err::<T, TryRecvError>(
            TryRecvError::Disconnected,
        ),
        polled is Pending <==> tried == Err::<T, TryRecvError>(TryRecvError::Empty),
        a_post.wire() == b_post.wire(),
        a_post.log() == b_post.log(),
{
}

/// A poll that is pending has left the task to be woken by every channel that is not
/// closed, if it was made in priority order.
pub proof fn law_pending_poll_awaits_every_channel<T>(
    post: Seq<DynReceiver<T>>,
    priorities: Seq<u8>,
    order: Seq<usize>,
    cx: Context<'_>,
    i: int,
)
    requires
        is_priority_order(priorities, order),
        awaited_along(post, order, cx),
        0 <= i < priorities.len() <= usize::MAX,
    ensures
        post[i].log().last() is Closed || post[i].armed(cx),
{
    assert(order.contains(i as usize));
    let p = choose|p: int| 0 <= p < order.len() && order[p] == i as usize;
    assert(order[p] as int == i);
}

/// `TaskHandler::send` is `TaskHandler::try_send`: on handlers of the same channels each
/// may answer exactly what the other may. Neither is refused because a channel without a
/// bound is full, and both give the context back when they fail.
pub proof fn law_send_is_try_send<Ctx>(
    h: TaskHandler<Ctx>,
    h2: TaskHandler<Ctx>,
    ch: Channel<Ctx>,
    ctx: Ctx,
    sent: Result<(), TrySendError<Ctx>>,
)
    requires
        h@ == h2@,
        ch.index() < h@.len(),
    ensures
        h.send_answers(ch, ctx, sent) <==> h2.try_send_answers(ch, ctx, sent),
        h.send_answers(ch, ctx, sent) ==> match sent {
            Ok(()) => placed(h@[ch.index() as int].wire(), ctx),
            Err(TrySendError::Full(back)) => back == ctx
                && h@[ch.index() as int].wire().bound is Some,
            Err(TrySendError::Closed(back)) => back == ctx,
        },
{
}

/// A clone of a handler stands for the same channels: it has as many, a send through it
/// goes into the channel that a send through the other goes into, where the receiver finds
/// it, and is subject to the same bound.
pub proof fn law_clone_feeds_the_same_channels<Ctx>(
    h: TaskHandler<Ctx>,
    copy: TaskHandler<Ctx>,
    specs: Seq<ChannelSpec>,
    receivers: Seq<DynReceiver<Ctx>>,
    priorities: Seq<u8>,
    ch: Channel<Ctx>,
    ctx: Ctx,
    sent: Result<(), TrySendError<Ctx>>,
    step: SendStep<'_, Ctx>,
)
    requires
        copy@ == h@,
        opened(specs, h@, receivers, priorities),
        ch.index() < h@.len(),
    ensures
        copy@.len() == h@.len(),
        copy@[ch.index() as int].wire() == receivers[ch.index() as int].wire(),
        copy@[ch.index() as int].wire().bound == h@[ch.index() as int].wire().bound,
        copy.try_send_answers(ch, ctx, sent) <==> h.try_send_answers(ch, ctx, sent),
        copy.send_answers(ch, ctx, sent) <==> h.send_answers(ch, ctx, sent),
        copy@[ch.index() as int].first_step(ctx, step) <==> h@[ch.index() as int].first_step(
            ctx,
            step,
        ),
        copy.try_send_answers(ch, ctx, sent) && sent is Ok ==> placed(
            receivers[ch.index() as int].wire(),
            ctx,
        ),
{
}

} // verus!
