//! What holds over runs of scans: that strict priority drains the channels one after the
//! other, and that what the receivers observe fixes what comes out.
use vstd::prelude::*;

use crate::channel::{observed, DynReceiver, Polled};
use crate::endpoint::Observation;
use crate::laws::{
    all_in_step, law_end_misses_nothing, lemma_found, lemma_nothing_found, lemma_observed,
    none_yielded, only_yielded,
};
use crate::order::{in_top_band, is_priority_order, more_urgent, names_only};
use crate::scan::{
    all_closed, found_by_priority, lemma_last_visit, lemma_no_walk, nothing_found, passed_one,
    passed_over, plain_scan, polled_by_priority, stopped_along, stopped_at, tagged_scan, walked,
};
use crate::scheduler::{
    dispatched_by_priority, fair_dispatch, next_streak, strict_dispatch, Dispatch, FairState,
};

verus! {

/// One dispatch or one poll.
#[verifier::reject_recursive_types(T)]
pub struct Turn<T> {
    /// The receivers before it.
    pub pre: Seq<DynReceiver<T>>,
    /// The receivers after it.
    pub post: Seq<DynReceiver<T>>,
    /// The context that it gave.
    pub got: Option<T>,
}

/// The context that a dispatch hands out.
pub open spec fn handed_out<T>(d: Dispatch<T>) -> Option<T> {
    match d {
        Dispatch::Ready(next) => next,
        Dispatch::Wait(_) => None,
    }
}

/// The context that a poll brings.
pub open spec fn arrived<T>(result: Polled<Option<(T, bool)>>) -> Option<T> {
    match result {
        Polled::Ready(Some((m, _))) => Some(m),
        _ => None,
    }
}

/// The contexts that the turns of `run` gave, oldest first.
pub open spec fn results<T>(run: Seq<Turn<T>>) -> Seq<T>
    decreases run.len(),
{
    if run.len() == 0 {
        Seq::empty()
    } else {
        match run.last().got {
            Some(m) => results(run.drop_last()).push(m),
            None => results(run.drop_last()),
        }
    }
}

/// Each turn of `run` starts with the receivers that the one before it left.
pub open spec fn linked<T>(run: Seq<Turn<T>>) -> bool {
    forall|t: int, u: int|
        0 <= t && u == t + 1 && u < run.len() ==> (#[trigger] run[u]).pre == (
        #[trigger] run[t]).post
}

/// A dispatch of `StrictPriority`.
pub open spec fn strict_dispatch_turn<T>(turn: Turn<T>, priorities: Seq<u8>) -> bool {
    exists|d: Dispatch<T>| #[trigger]
        strict_dispatch(turn.pre, turn.post, priorities, d) && turn.got == handed_out(d)
}

/// A poll in the course of a wait.
pub open spec fn poll_turn<T>(
    turn: Turn<T>,
    priorities: Seq<u8>,
    result: Polled<Option<(T, bool)>>,
) -> bool {
    polled_by_priority(turn.pre, turn.post, priorities, result) && turn.got == arrived(result)
}

/// Consecutive dispatches of `StrictPriority`, and polls of its waits, on a task with the
/// given priorities.
pub open spec fn strict_run<T>(run: Seq<Turn<T>>, priorities: Seq<u8>) -> bool {
    &&& linked(run)
    &&& forall|t: int|
        0 <= t < run.len() ==> {
            &&& (#[trigger] run[t]).pre.len() == priorities.len()
            &&& strict_dispatch_turn(run[t], priorities) || exists|r: Polled<Option<(T, bool)>>|
                #[trigger] poll_turn(run[t], priorities, r)
        }
}

/// A scan of all receivers by priority gave what the turn gave.
pub open spec fn scans<T>(turn: Turn<T>, priorities: Seq<u8>) -> bool {
    &&& turn.pre.len() == priorities.len()
    &&& match turn.got {
        Some(m) => exists|i: int| #[trigger]
            found_by_priority(turn.pre, turn.post, priorities, i, m),
        None => nothing_found(turn.pre, turn.post),
    }
}

/// Consecutive scans of all receivers by priority.
pub open spec fn scan_run<T>(run: Seq<Turn<T>>, priorities: Seq<u8>) -> bool {
    &&& linked(run)
    &&& forall|t: int| 0 <= t < run.len() ==> scans(#[trigger] run[t], priorities)
}

/// A poll is a scan by priority.
proof fn lemma_poll_scans<T>(
    turn: Turn<T>,
    priorities: Seq<u8>,
    result: Polled<Option<(T, bool)>>,
)
    requires
        turn.pre.len() == priorities.len(),
        poll_turn(turn, priorities, result),
    ensures
        scans(turn, priorities),
{
    match result {
        Polled::Ready(Some((m, is_top))) => {
            let i = choose|i: int| #[trigger]
                found_by_priority(turn.pre, turn.post, priorities, i, m) && is_top == in_top_band(
                    priorities,
                    i,
                );
            assert(found_by_priority(turn.pre, turn.post, priorities, i, turn.got->0));
        },
        _ => {},
    }
}

/// A dispatch of `StrictPriority` is a scan by priority.
proof fn lemma_strict_scans<T>(turn: Turn<T>, priorities: Seq<u8>)
    requires
        turn.pre.len() == priorities.len(),
        strict_dispatch_turn(turn, priorities),
    ensures
        scans(turn, priorities),
{
    let d = choose|d: Dispatch<T>| #[trigger]
        strict_dispatch(turn.pre, turn.post, priorities, d) && turn.got == handed_out(d);
    let is_top = choose|is_top: bool| #[trigger]
        dispatched_by_priority(turn.pre, turn.post, priorities, d, is_top);
    if let Dispatch::Ready(Some(m)) = d {
        let i = choose|i: int| #[trigger]
            found_by_priority(turn.pre, turn.post, priorities, i, m) && is_top == in_top_band(
                priorities,
                i,
            );
        assert(found_by_priority(turn.pre, turn.post, priorities, i, turn.got->0));
    }
}

/// A run of `StrictPriority` is a run of scans by priority.
proof fn lemma_strict_run_scans<T>(run: Seq<Turn<T>>, priorities: Seq<u8>)
    requires
        strict_run(run, priorities),
    ensures
        scan_run(run, priorities),
{
    assert forall|t: int| 0 <= t < run.len() implies scans(#[trigger] run[t], priorities) by {
        if strict_dispatch_turn(run[t], priorities) {
            lemma_strict_scans(run[t], priorities);
        } else {
            let r = choose|r: Polled<Option<(T, bool)>>| #[trigger]
                poll_turn(run[t], priorities, r);
            lemma_poll_scans(run[t], priorities, r);
        }
    }
}

/// A scan adds at most one observation to the history of a receiver.
proof fn lemma_scan_grows<T>(turn: Turn<T>, priorities: Seq<u8>)
    requires
        scans(turn, priorities),
    ensures
        turn.post.len() == turn.pre.len(),
        forall|i: int|
            0 <= i < turn.pre.len() ==> (#[trigger] turn.pre[i]).log().is_prefix_of(
                turn.post[i].log(),
            ),
{
    assert forall|i: int| 0 <= i < turn.pre.len() implies (
    #[trigger] turn.pre[i]).log().is_prefix_of(turn.post[i].log()) by {
        let seen = turn.post[i].log().last();
        assert(turn.post[i] == turn.pre[i] || turn.post[i].log() == turn.pre[i].log().push(seen));
    }
}

// Strict priority drains the channels one after the other.

/// The receiver yields no message after it was found without one, between `first` and
/// `last`.
pub open spec fn quiet<T>(first: DynReceiver<T>, last: DynReceiver<T>) -> bool {
    forall|a: int, b: int|
        first.log().len() <= a < b < last.log().len() && !(#[trigger] last.log()[a] is Message)
            ==> !(#[trigger] last.log()[b] is Message)
}

/// The messages that the receiver yielded between `first` and `last`.
pub open spec fn fresh<T>(first: DynReceiver<T>, last: DynReceiver<T>) -> Seq<T> {
    last.received().skip(first.received().len() as int)
}

/// All messages of the first channel in `order` between `first` and `last`, then all of
/// the second, and so on.
pub open spec fn one_after_the_other<T>(
    order: Seq<usize>,
    first: Seq<DynReceiver<T>>,
    last: Seq<DynReceiver<T>>,
) -> Seq<T>
    decreases order.len(),
{
    if order.len() == 0 {
        Seq::empty()
    } else {
        let i = order.last() as int;
        one_after_the_other(order.drop_last(), first, last) + fresh(first[i], last[i])
    }
}

/// The receiver was found without a message between `first` and `last`.
pub open spec fn dry<T>(first: DynReceiver<T>, last: DynReceiver<T>) -> bool {
    exists|k: int|
        first.log().len() <= k < last.log().len() && !(#[trigger] last.log()[k] is Message)
}

/// The receivers that a run starting with `first` leaves.
spec fn left<T>(run: Seq<Turn<T>>, first: Seq<DynReceiver<T>>) -> Seq<DynReceiver<T>> {
    if run.len() == 0 {
        first
    } else {
        run.last().post
    }
}

/// Channels that yielded nothing more contribute nothing more.
proof fn lemma_same_contributions<T>(
    order: Seq<usize>,
    first: Seq<DynReceiver<T>>,
    mid: Seq<DynReceiver<T>>,
    last: Seq<DynReceiver<T>>,
)
    requires
        forall|p: int|
            0 <= p < order.len() ==> mid[#[trigger] order[p] as int].received()
                == last[order[p] as int].received(),
    ensures
        one_after_the_other(order, first, last) == one_after_the_other(order, first, mid),
    decreases order.len(),
{
    if order.len() > 0 {
        lemma_same_contributions(order.drop_last(), first, mid, last);
    }
}

/// A message of the last channel that contributes comes last.
proof fn lemma_contribution_comes_last<T>(
    order: Seq<usize>,
    first: Seq<DynReceiver<T>>,
    mid: Seq<DynReceiver<T>>,
    last: Seq<DynReceiver<T>>,
    k: int,
    m: T,
)
    requires
        0 <= k < order.len(),
        order.no_duplicates(),
        last[order[k] as int].received() == mid[order[k] as int].received().push(m),
        first[order[k] as int].received().len() <= mid[order[k] as int].received().len(),
        forall|p: int|
            0 <= p < order.len() && p != k ==> mid[#[trigger] order[p] as int].received()
                == last[order[p] as int].received(),
        forall|p: int|
            k < p < order.len() ==> mid[#[trigger] order[p] as int].received().len()
                == first[order[p] as int].received().len(),
    ensures
        one_after_the_other(order, first, last) == one_after_the_other(order, first, mid).push(m),
    decreases order.len(),
{
    if k == order.len() - 1 {
        lemma_same_contributions(order.drop_last(), first, mid, last);
    } else {
        lemma_contribution_comes_last(order.drop_last(), first, mid, last, k, m);
    }
    assert(one_after_the_other(order, first, last) == one_after_the_other(order, first, mid).push(
        m,
    ));
}

/// What the run from `first` to `last` keeps: histories and receipts only grow, and a
/// channel is served only after each more urgent one was found without a message.
spec fn drained_so_far<T>(
    first: Seq<DynReceiver<T>>,
    last: Seq<DynReceiver<T>>,
    priorities: Seq<u8>,
) -> bool {
    &&& first.len() == priorities.len()
    &&& last.len() == priorities.len()
    &&& forall|i: int|
        0 <= i < priorities.len() ==> (#[trigger] first[i]).log().is_prefix_of(last[i].log())
            && first[i].received().len() <= last[i].received().len()
    &&& forall|i: int, j: int|
        0 <= i < priorities.len() && 0 <= j < priorities.len() && #[trigger] more_urgent(
            priorities,
            i,
            j,
        ) && last[j].received().len() > first[j].received().len() ==> dry(first[i], last[i])
}

/// A receiver found without a message stays so marked.
proof fn lemma_dry_stays<T>(first: DynReceiver<T>, mid: DynReceiver<T>, last: DynReceiver<T>)
    requires
        dry(first, mid),
        mid.log().is_prefix_of(last.log()),
    ensures
        dry(first, last),
{
    let k = choose|k: int|
        first.log().len() <= k < mid.log().len() && !(#[trigger] mid.log()[k] is Message);
    assert(last.log()[k] == mid.log()[k]);
}

/// One more turn of a draining run.
proof fn lemma_drain_step<T>(
    turn: Turn<T>,
    first: Seq<DynReceiver<T>>,
    priorities: Seq<u8>,
    order: Seq<usize>,
)
    requires
        scans(turn, priorities),
        priorities.len() <= usize::MAX,
        is_priority_order(priorities, order),
        drained_so_far(first, turn.pre, priorities),
        forall|i: int| 0 <= i < first.len() ==> quiet(#[trigger] first[i], turn.post[i]),
    ensures
        drained_so_far(first, turn.post, priorities),
        one_after_the_other(order, first, turn.post) == match turn.got {
            Some(m) => one_after_the_other(order, first, turn.pre).push(m),
            None => one_after_the_other(order, first, turn.pre),
        },
{
    let pre = turn.pre;
    let post = turn.post;
    lemma_scan_grows(turn, priorities);
    match turn.got {
        None => {
            lemma_nothing_found(pre, post);
            lemma_same_contributions(order, first, pre, post);
        },
        Some(m) => {
            let i = choose|i: int| #[trigger] found_by_priority(pre, post, priorities, i, m);
            lemma_found(pre, post, i, m, |j: int| more_urgent(priorities, j, i));
            assert(order.contains(i as usize));
            let k = choose|k: int| 0 <= k < order.len() && order[k] == i as usize;
            assert forall|p: int| k < p < order.len() implies pre[
            #[trigger] order[p] as int].received().len() == first[order[p] as int].received().len() by {
                let j = order[p] as int;
                if pre[j].received().len() > first[j].received().len() {
                    let a = choose|a: int|
                        first[i].log().len() <= a < pre[i].log().len() && !(
                        #[trigger] pre[i].log()[a] is Message);
                    assert(!(post[i].log()[a] is Message) && post[i].log().last() is Message);
                }
            }
            lemma_contribution_comes_last(order, first, pre, post, k, m);
        },
    }
    assert forall|i: int, j: int|
        0 <= i < priorities.len() && 0 <= j < priorities.len() && #[trigger] more_urgent(
            priorities,
            i,
            j,
        ) && post[j].received().len() > first[j].received().len() implies dry(
        first[i],
        post[i],
    ) by {
        if pre[j].received().len() > first[j].received().len() {
            lemma_dry_stays(first[i], pre[i], post[i]);
        } else {
            let m = turn.got->0;
            let f = choose|f: int| #[trigger] found_by_priority(pre, post, priorities, f, m);
            lemma_found(pre, post, f, m, |h: int| more_urgent(priorities, h, f));
        }
    }
}

/// A run of scans drains the channels one after the other.
proof fn lemma_drain<T>(
    run: Seq<Turn<T>>,
    first: Seq<DynReceiver<T>>,
    priorities: Seq<u8>,
    order: Seq<usize>,
)
    requires
        scan_run(run, priorities),
        priorities.len() <= usize::MAX,
        first.len() == priorities.len(),
        run.len() > 0 ==> run[0].pre == first,
        is_priority_order(priorities, order),
        forall|i: int| 0 <= i < first.len() ==> quiet(#[trigger] first[i], left(run, first)[i]),
    ensures
        drained_so_far(first, left(run, first), priorities),
        results(run) == one_after_the_other(order, first, left(run, first)),
    decreases run.len(),
{
    if run.len() == 0 {
        lemma_nothing_yet(order, first);
    } else {
        let init = run.drop_last();
        let turn = run.last();
        lemma_scan_grows(turn, priorities);
        assert forall|i: int| 0 <= i < first.len() implies quiet(
            #[trigger] first[i],
            turn.pre[i],
        ) by {
            assert(turn.pre[i].log().is_prefix_of(turn.post[i].log()));
        }
        lemma_drain(init, first, priorities, order);
        lemma_drain_step(turn, first, priorities, order);
    }
}

/// Before the first turn there is nothing to show.
proof fn lemma_nothing_yet<T>(order: Seq<usize>, first: Seq<DynReceiver<T>>)
    ensures
        one_after_the_other(order, first, first) == Seq::<T>::empty(),
    decreases order.len(),
{
    if order.len() > 0 {
        lemma_nothing_yet(order.drop_last(), first);
    }
}

/// Strict priority drains the channels one after the other: over a run in which no
/// receiver yields a message after it was found without one (as when nothing is sent
/// meanwhile), the results are all messages of the first channel in the priority order,
/// then all of the second, and so on.
pub proof fn law_strict_drains_in_order<T>(
    run: Seq<Turn<T>>,
    priorities: Seq<u8>,
    order: Seq<usize>,
)
    requires
        strict_run(run, priorities),
        run.len() > 0,
        priorities.len() <= usize::MAX,
        is_priority_order(priorities, order),
        forall|i: int|
            0 <= i < priorities.len() ==> quiet(#[trigger] run[0].pre[i], run.last().post[i]),
    ensures
        results(run) == one_after_the_other(order, run[0].pre, run.last().post),
{
    lemma_strict_run_scans(run, priorities);
    lemma_drain(run, run[0].pre, priorities, order);
}

/// Strict priority drains the channels to the end: when such a run is over because a poll
/// finds every receiver closed, its results are all messages of the first channel in the
/// priority order, then all of the second, and so on, and no place in a channel is left.
pub proof fn law_strict_drains_to_the_end<T>(
    run: Seq<Turn<T>>,
    priorities: Seq<u8>,
    order: Seq<usize>,
    end: Seq<DynReceiver<T>>,
)
    requires
        strict_run(run, priorities),
        run.len() > 0,
        priorities.len() <= usize::MAX,
        is_priority_order(priorities, order),
        forall|i: int|
            0 <= i < priorities.len() ==> quiet(#[trigger] run[0].pre[i], run.last().post[i]),
        all_in_step(run.last().post),
        all_closed(run.last().post, end),
    ensures
        results(run) == one_after_the_other(order, run[0].pre, end),
        forall|i: int, n: nat, m: T|
            0 <= i < end.len() && (#[trigger] end[i].wire().carried.contains((n, m))) ==> n
                < end[i].received().len(),
{
    let last = run.last().post;
    law_strict_drains_in_order(run, priorities, order);
    lemma_strict_run_scans(run, priorities);
    lemma_scan_grows(run.last(), priorities);
    lemma_nothing_found(last, end);
    lemma_same_contributions(order, run[0].pre, last, end);
    assert forall|i: int, n: nat, m: T|
        0 <= i < end.len() && (#[trigger] end[i].wire().carried.contains((n, m))) implies n
        < end[i].received().len() by {
        law_end_misses_nothing(last, end, i, n, m);
    }
}

// What the receivers observe fixes what comes out.

/// The receivers of `a` and of `b` belong to the same channels and have the same history.
pub open spec fn alike<T>(a: Seq<DynReceiver<T>>, b: Seq<DynReceiver<T>>) -> bool {
    &&& a.len() == b.len()
    &&& forall|i: int|
        0 <= i < a.len() ==> (#[trigger] a[i]).wire() == (#[trigger] b[i]).wire() && a[i].log()
            == b[i].log()
}

/// The receivers of `a` and of `b` made the same observations, as far as both have come.
pub open spec fn same_observations<T>(a: Seq<DynReceiver<T>>, b: Seq<DynReceiver<T>>) -> bool {
    &&& a.len() == b.len()
    &&& forall|i: int, k: int|
        0 <= i < a.len() && 0 <= k < a[i].log().len() && k < b[i].log().len() ==> (
        #[trigger] a[i].log()[k]) == (#[trigger] b[i].log()[k])
}

/// Two scans by priority of receivers alike, which make the same observations, give the
/// same and leave the receivers alike.
proof fn lemma_scans_agree<T>(a: Turn<T>, b: Turn<T>, priorities: Seq<u8>)
    requires
        scans(a, priorities),
        scans(b, priorities),
        alike(a.pre, b.pre),
        same_observations(a.post, b.post),
    ensures
        a.got == b.got,
        alike(a.post, b.post),
{
    lemma_scan_grows(a, priorities);
    lemma_scan_grows(b, priorities);
    if a.got is Some {
        lemma_finder_is_followed(a, b, priorities);
    }
    if b.got is Some {
        lemma_finder_is_followed(b, a, priorities);
    }
    if a.got is None && b.got is None {
        assert forall|i: int| 0 <= i < a.post.len() implies (#[trigger] a.post[i]).wire() == (
        #[trigger] b.post[i]).wire() && a.post[i].log() == b.post[i].log() by {
            lemma_last_agrees(a, b, i);
        }
    }
}

/// Where both turns asked a receiver once, they found the same.
proof fn lemma_last_agrees<T>(a: Turn<T>, b: Turn<T>, i: int)
    requires
        alike(a.pre, b.pre),
        same_observations(a.post, b.post),
        a.post.len() == a.pre.len(),
        0 <= i < a.pre.len(),
        a.post[i].log() == a.pre[i].log().push(a.post[i].log().last()),
        b.post[i].log() == b.pre[i].log().push(b.post[i].log().last()),
    ensures
        a.post[i].log() == b.post[i].log(),
{
    let k = a.pre[i].log().len() as int;
    assert(a.post[i].log()[k] == b.post[i].log()[k]);
}

/// If the turn `a` found a message, the turn `b` found it too.
proof fn lemma_finder_is_followed<T>(a: Turn<T>, b: Turn<T>, priorities: Seq<u8>)
    requires
        scans(a, priorities),
        scans(b, priorities),
        a.post.len() == a.pre.len(),
        b.post.len() == b.pre.len(),
        alike(a.pre, b.pre),
        same_observations(a.post, b.post),
        a.got is Some,
    ensures
        a.got == b.got,
        alike(a.post, b.post),
{
    let m = a.got->0;
    let i = choose|i: int| #[trigger] found_by_priority(a.pre, a.post, priorities, i, m);
    let k = a.pre[i].log().len() as int;
    assert(a.pre[i].log() == b.pre[i].log());
    assert(a.post[i].log()[k] == Observation::Message(m));
    if b.got is None {
        assert(!(b.post[i].log()[k] is Message));
    } else {
        let n = b.got->0;
        let j = choose|j: int| #[trigger] found_by_priority(b.pre, b.post, priorities, j, n);
        let l = b.pre[j].log().len() as int;
        assert(b.post[j].log()[l] == Observation::Message(n));
        if i != j {
            if more_urgent(priorities, i, j) {
                assert(passed_over(b.pre[i], b.post[i]));
            } else {
                assert(passed_over(a.pre[j], a.post[j]));
            }
        }
        assert forall|h: int| 0 <= h < a.post.len() implies (#[trigger] a.post[h]).wire() == (
        #[trigger] b.post[h]).wire() && a.post[h].log() == b.post[h].log() by {
            assert(alike(a.pre, b.pre) && a.pre[h].log() == b.pre[h].log());
            if h == i || more_urgent(priorities, h, i) {
                lemma_last_agrees(a, b, h);
            }
        }
    }
}

/// In a run of scans the histories only grow.
proof fn lemma_run_grows<T>(run: Seq<Turn<T>>, priorities: Seq<u8>, t: int, i: int)
    requires
        scan_run(run, priorities),
        0 <= t < run.len(),
        0 <= i < priorities.len(),
    ensures
        run[t].post.len() == priorities.len(),
        run[t].post[i].log().is_prefix_of(run.last().post[i].log()),
    decreases run.len() - t,
{
    lemma_scan_grows(run[t], priorities);
    if t + 1 < run.len() {
        lemma_run_grows(run, priorities, t + 1, i);
        lemma_scan_grows(run[t + 1], priorities);
    }
}

/// Two runs of scans agree turn by turn.
proof fn lemma_runs_agree<T>(a: Seq<Turn<T>>, b: Seq<Turn<T>>, priorities: Seq<u8>, t: int)
    requires
        scan_run(a, priorities),
        scan_run(b, priorities),
        0 <= t < a.len(),
        t < b.len(),
        alike(a[0].pre, b[0].pre),
        same_observations(a.last().post, b.last().post),
    ensures
        a[t].got == b[t].got,
        alike(a[t].post, b[t].post),
    decreases t,
{
    if t > 0 {
        lemma_runs_agree(a, b, priorities, t - 1);
    }
    lemma_scan_grows(a[t], priorities);
    lemma_scan_grows(b[t], priorities);
    assert forall|i: int, k: int|
        0 <= i < a[t].post.len() && 0 <= k < a[t].post[i].log().len() && k
            < b[t].post[i].log().len() implies (#[trigger] a[t].post[i].log()[k]) == (
    #[trigger] b[t].post[i].log()[k]) by {
        lemma_run_grows(a, priorities, t, i);
        lemma_run_grows(b, priorities, t, i);
    }
    lemma_scans_agree(a[t], b[t], priorities);
}

/// Turns that give the same give the same results.
proof fn lemma_same_results<T>(a: Seq<Turn<T>>, b: Seq<Turn<T>>)
    requires
        a.len() <= b.len(),
        forall|t: int| 0 <= t < a.len() ==> (#[trigger] a[t]).got == (#[trigger] b[t]).got,
    ensures
        results(a).is_prefix_of(results(b)),
        a.len() == b.len() ==> results(a) == results(b),
    decreases b.len(),
{
    if b.len() > 0 {
        if a.len() == b.len() {
            lemma_same_results(a.drop_last(), b.drop_last());
        } else {
            lemma_same_results(a, b.drop_last());
        }
    }
}

/// Two runs of `StrictPriority` that start with receivers alike and make the same
/// observations give the same, turn by turn, and leave the receivers alike.
pub proof fn law_same_observations_same_results<T>(
    a: Seq<Turn<T>>,
    b: Seq<Turn<T>>,
    priorities: Seq<u8>,
)
    requires
        strict_run(a, priorities),
        strict_run(b, priorities),
        0 < a.len() <= b.len(),
        alike(a[0].pre, b[0].pre),
        same_observations(a.last().post, b.last().post),
    ensures
        forall|t: int|
            0 <= t < a.len() ==> (#[trigger] a[t]).got == (#[trigger] b[t]).got && alike(
                a[t].post,
                b[t].post,
            ),
        results(a).is_prefix_of(results(b)),
{
    lemma_strict_run_scans(a, priorities);
    lemma_strict_run_scans(b, priorities);
    assert forall|t: int| 0 <= t < a.len() implies (#[trigger] a[t]).got == (
    #[trigger] b[t]).got && alike(a[t].post, b[t].post) by {
        lemma_runs_agree(a, b, priorities, t);
    }
    lemma_same_results(a, b);
}

// `FairPriority` departs from strict priority only after its budget.

/// One dispatch of a `FairPriority`, or one poll of its waits with what `resume` makes of
/// it.
#[verifier::reject_recursive_types(T)]
pub struct FairStep<T> {
    /// The scheduler before it.
    pub s0: FairState,
    /// The scheduler after it.
    pub s1: FairState,
    /// The receivers, and what came out.
    pub turn: Turn<T>,
}

/// What `resume` makes of the result of a poll; a poll that is to be repeated is not
/// handed to it.
pub open spec fn resumed<T>(
    s0: FairState,
    s1: FairState,
    result: Polled<Option<(T, bool)>>,
) -> bool {
    &&& s1.budget == s0.budget
    &&& match result {
        Polled::Ready(Some((_, is_top))) => s1.streak == next_streak(s0.streak, is_top),
        _ => s1.streak == s0.streak,
    }
}

/// A dispatch of `FairPriority`.
pub open spec fn fair_dispatch_step<T>(step: FairStep<T>, priorities: Seq<u8>) -> bool {
    exists|d: Dispatch<T>| #[trigger]
        fair_dispatch(step.s0, step.s1, step.turn.pre, step.turn.post, priorities, d)
            && step.turn.got == handed_out(d)
}

/// A poll in the course of a wait of `FairPriority`.
pub open spec fn fair_poll_step<T>(step: FairStep<T>, priorities: Seq<u8>) -> bool {
    exists|r: Polled<Option<(T, bool)>>| #[trigger]
        poll_turn(step.turn, priorities, r) && resumed(step.s0, step.s1, r)
}

/// The turns of the steps.
pub open spec fn turns<T>(steps: Seq<FairStep<T>>) -> Seq<Turn<T>> {
    Seq::new(steps.len(), |t: int| steps[t].turn)
}

/// Consecutive dispatches of one `FairPriority`, and polls of its waits, on a task with
/// the given priorities.
pub open spec fn fair_steps<T>(steps: Seq<FairStep<T>>, priorities: Seq<u8>) -> bool {
    &&& linked(turns(steps))
    &&& forall|t: int, u: int|
        0 <= t && u == t + 1 && u < steps.len() ==> (#[trigger] steps[u]).s0 == (
        #[trigger] steps[t]).s1
    &&& forall|t: int|
        0 <= t < steps.len() ==> {
            &&& (#[trigger] steps[t]).turn.pre.len() == priorities.len()
            &&& fair_dispatch_step(steps[t], priorities) || fair_poll_step(steps[t], priorities)
        }
}

/// A step before relief is due is a scan by priority, and lengthens the streak only by
/// what it gives.
proof fn lemma_step_scans<T>(step: FairStep<T>, priorities: Seq<u8>)
    requires
        priorities.len() > 0,
        step.turn.pre.len() == priorities.len(),
        fair_dispatch_step(step, priorities) || fair_poll_step(step, priorities),
        !step.s0.relief_due(),
    ensures
        scans(step.turn, priorities),
        step.s1.budget == step.s0.budget,
        step.s1.streak <= step.s0.streak + if step.turn.got is Some {
            1int
        } else {
            0int
        },
{
    let pre = step.turn.pre;
    let post = step.turn.post;
    if fair_dispatch_step(step, priorities) {
        let d = choose|d: Dispatch<T>| #[trigger]
            fair_dispatch(step.s0, step.s1, pre, post, priorities, d) && step.turn.got
                == handed_out(d);
        assert(strict_dispatch(pre, post, priorities, d));
        lemma_strict_scans(step.turn, priorities);
    } else {
        let r = choose|r: Polled<Option<(T, bool)>>| #[trigger]
            poll_turn(step.turn, priorities, r) && resumed(step.s0, step.s1, r);
        lemma_poll_scans(step.turn, priorities, r);
    }
}

/// Up to the last result that the budget covers, the steps are scans by priority.
proof fn lemma_steps_scan<T>(steps: Seq<FairStep<T>>, priorities: Seq<u8>)
    requires
        fair_steps(steps, priorities),
        priorities.len() > 0,
        steps.len() > 0,
        steps[0].s0.streak + results(turns(steps.drop_last())).len() < steps[0].s0.budget,
    ensures
        scan_run(turns(steps), priorities),
        steps.last().s1.budget == steps[0].s0.budget,
        steps.last().s1.streak <= steps[0].s0.streak + results(turns(steps)).len(),
    decreases steps.len(),
{
    let init = steps.drop_last();
    let last = steps.last();
    assert(turns(steps).drop_last() == turns(init));
    if steps.len() == 1 {
        lemma_step_scans(last, priorities);
    } else {
        assert(turns(init).drop_last() == turns(init.drop_last()));
        lemma_steps_scan(init, priorities);
        lemma_step_scans(last, priorities);
        assert forall|t: int| 0 <= t < turns(steps).len() implies scans(
            #[trigger] turns(steps)[t],
            priorities,
        ) by {
            if t < init.len() {
                assert(scans(turns(init)[t], priorities));
            }
        }
    }
}

/// `FairPriority` departs from strict priority only after its budget: a run of it and a
/// run of `StrictPriority` that start with receivers alike and make the same observations
/// give the same, turn by turn, up to the last result that is left of the budget. So the
/// results of the shorter run are the first results of the longer one.
pub proof fn law_fair_is_strict_at_first<T>(
    fair: Seq<FairStep<T>>,
    strict: Seq<Turn<T>>,
    priorities: Seq<u8>,
)
    requires
        fair_steps(fair, priorities),
        strict_run(strict, priorities),
        fair.len() > 0,
        strict.len() > 0,
        priorities.len() > 0,
        fair[0].s0.streak + results(turns(fair.drop_last())).len() < fair[0].s0.budget,
        alike(fair[0].turn.pre, strict[0].pre),
        same_observations(fair.last().turn.post, strict.last().post),
    ensures
        forall|t: int|
            0 <= t < fair.len() && t < strict.len() ==> (#[trigger] fair[t]).turn.got == (
            #[trigger] strict[t]).got && alike(fair[t].turn.post, strict[t].post),
        fair.len() <= strict.len() ==> results(turns(fair)).is_prefix_of(results(strict)),
        strict.len() <= fair.len() ==> results(strict).is_prefix_of(results(turns(fair))),
        results(turns(fair)).len() == results(strict).len() ==> results(turns(fair)) == results(
            strict,
        ),
{
    let a = turns(fair);
    lemma_steps_scan(fair, priorities);
    lemma_strict_run_scans(strict, priorities);
    assert forall|t: int| 0 <= t < fair.len() && t < strict.len() implies (
    #[trigger] fair[t]).turn.got == (#[trigger] strict[t]).got && alike(
        fair[t].turn.post,
        strict[t].post,
    ) by {
        lemma_runs_agree(a, strict, priorities, t);
    }
    if a.len() <= strict.len() {
        lemma_same_results(a, strict);
    }
    if strict.len() <= a.len() {
        lemma_same_results(strict, a);
    }
}

// The two scans along an order.

/// The histories of the receivers `a` are the beginnings of those of `b`.
pub open spec fn earlier<T>(a: Seq<DynReceiver<T>>, b: Seq<DynReceiver<T>>) -> bool {
    &&& a.len() == b.len()
    &&& forall|i: int|
        0 <= i < a.len() ==> (#[trigger] a[i]).log().is_prefix_of((#[trigger] b[i]).log())
}

/// A walk only adds to the histories, and receives nothing.
pub(crate) proof fn lemma_walk_grows<T>(
    pre: Seq<DynReceiver<T>>,
    post: Seq<DynReceiver<T>>,
    order: Seq<usize>,
)
    requires
        names_only(order, pre.len()),
        walked(pre, post, order),
    ensures
        earlier(pre, post),
        none_yielded(pre, post),
    decreases order.len(),
{
    if order.len() == 0 {
        lemma_no_walk(pre, post, order);
    } else {
        let i = order.last() as int;
        let mid = lemma_last_visit(pre, post, order);
        lemma_walk_grows(pre, mid, order.drop_last());
        lemma_observed(mid[i], post[i], post[i].log().last());
        assert forall|j: int| 0 <= j < pre.len() implies (#[trigger] pre[j]).log().is_prefix_of(
            (#[trigger] post[j]).log(),
        ) by {
            assert(pre[j].log().is_prefix_of(mid[j].log()));
        }
        assert forall|j: int| 0 <= j < pre.len() implies (#[trigger] post[j]).wire()
            == pre[j].wire() && post[j].received() == pre[j].received() by {
            assert(mid[j].wire() == pre[j].wire());
        }
    }
}

/// What the receivers observed alike, they had observed alike before.
proof fn lemma_same_earlier<T>(
    a: Seq<DynReceiver<T>>,
    a_post: Seq<DynReceiver<T>>,
    b: Seq<DynReceiver<T>>,
    b_post: Seq<DynReceiver<T>>,
)
    requires
        earlier(a, a_post),
        earlier(b, b_post),
        same_observations(a_post, b_post),
    ensures
        same_observations(a, b),
{
    assert forall|i: int, k: int|
        0 <= i < a.len() && 0 <= k < a[i].log().len() && k < b[i].log().len() implies (
    #[trigger] a[i].log()[k]) == (#[trigger] b[i].log()[k]) by {
        assert(a[i].log().is_prefix_of(a_post[i].log()));
        assert(b[i].log().is_prefix_of(b_post[i].log()));
        assert(a_post[i].log()[k] == b_post[i].log()[k]);
    }
}

/// Receivers alike, of which one is asked, with the same observation, stay alike.
proof fn lemma_one_more_agrees<T>(
    a: Seq<DynReceiver<T>>,
    a_post: Seq<DynReceiver<T>>,
    b: Seq<DynReceiver<T>>,
    b_post: Seq<DynReceiver<T>>,
    i: int,
)
    requires
        alike(a, b),
        same_observations(a_post, b_post),
        0 <= i < a.len(),
        a_post == a.update(i, a_post[i]),
        b_post == b.update(i, b_post[i]),
        observed(a[i], a_post[i], a_post[i].log().last()),
        observed(b[i], b_post[i], b_post[i].log().last()),
    ensures
        alike(a_post, b_post),
        a_post[i].log().last() == b_post[i].log().last(),
{
    let k = a[i].log().len() as int;
    assert(a[i].wire() == b[i].wire());
    assert(a_post[i].log()[k] == b_post[i].log()[k]);
    assert forall|j: int| 0 <= j < a_post.len() implies (#[trigger] a_post[j]).wire() == (
    #[trigger] b_post[j]).wire() && a_post[j].log() == b_post[j].log() by {
        if j != i {
            assert(a[j].wire() == b[j].wire());
        }
    }
}

/// Two walks of receivers alike, with the same observations, leave them alike.
proof fn lemma_walks_agree<T>(
    a: Seq<DynReceiver<T>>,
    a_post: Seq<DynReceiver<T>>,
    b: Seq<DynReceiver<T>>,
    b_post: Seq<DynReceiver<T>>,
    order: Seq<usize>,
)
    requires
        names_only(order, a.len()),
        walked(a, a_post, order),
        walked(b, b_post, order),
        alike(a, b),
        same_observations(a_post, b_post),
    ensures
        alike(a_post, b_post),
    decreases order.len(),
{
    if order.len() == 0 {
        lemma_no_walk(a, a_post, order);
        lemma_no_walk(b, b_post, order);
    } else {
        let i = order.last() as int;
        let shorter = order.drop_last();
        let a_mid = lemma_last_visit(a, a_post, order);
        let b_mid = lemma_last_visit(b, b_post, order);
        lemma_walk_grows(a, a_mid, shorter);
        lemma_walk_grows(b, b_mid, shorter);
        lemma_same_earlier(a_mid, a_post, b_mid, b_post);
        lemma_walks_agree(a, a_mid, b, b_mid, shorter);
        lemma_one_more_agrees(a_mid, a_post, b_mid, b_post, i);
    }
}

/// A walk goes through each place of its order: the receivers before and after it.
proof fn lemma_walk_passes<T>(
    pre: Seq<DynReceiver<T>>,
    post: Seq<DynReceiver<T>>,
    order: Seq<usize>,
    k: int,
) -> (around: (Seq<DynReceiver<T>>, Seq<DynReceiver<T>>))
    requires
        names_only(order, pre.len()),
        walked(pre, post, order),
        0 <= k < order.len(),
    ensures
        walked(pre, around.0, order.take(k)),
        passed_one(around.0, around.1, order[k] as int),
        earlier(around.1, post),
    decreases order.len(),
{
    let shorter = order.drop_last();
    let mid = lemma_last_visit(pre, post, order);
    lemma_walk_grows(pre, mid, shorter);
    if k == order.len() - 1 {
        assert(order.take(k) == shorter);
        (mid, post)
    } else {
        assert(order.take(k) == shorter.take(k));
        let around = lemma_walk_passes(pre, mid, shorter, k);
        assert forall|j: int| 0 <= j < post.len() implies (
        #[trigger] around.1[j]).log().is_prefix_of((#[trigger] post[j]).log()) by {
            assert(around.1[j].log().is_prefix_of(mid[j].log()));
        }
        around
    }
}

/// Where one scan found a message, the other cannot have walked past.
proof fn lemma_no_walk_past_a_message<T>(
    a: Seq<DynReceiver<T>>,
    a_post: Seq<DynReceiver<T>>,
    k: int,
    m: T,
    b: Seq<DynReceiver<T>>,
    b_mid: Seq<DynReceiver<T>>,
    b_post: Seq<DynReceiver<T>>,
    order: Seq<usize>,
    l: int,
)
    requires
        names_only(order, a.len()),
        stopped_at(a, a_post, order, k, m),
        alike(a, b),
        same_observations(a_post, b_post),
        earlier(b_mid, b_post),
        k < l <= order.len(),
    ensures
        !walked(b, b_mid, order.take(l)),
{
    if walked(b, b_mid, order.take(l)) {
        let i = order[k] as int;
        assert(order.take(l).take(k) == order.take(k));
        let a_mid = choose|mid: Seq<DynReceiver<T>>| #[trigger]
            walked(a, mid, order.take(k)) && observed(
                mid[i],
                a_post[i],
                Observation::Message(m),
            ) && a_post == mid.update(i, a_post[i]);
        let (b_before, b_after) = lemma_walk_passes(b, b_mid, order.take(l), k);
        assert forall|j: int| 0 <= j < b_after.len() implies (
        #[trigger] b_after[j]).log().is_prefix_of((#[trigger] b_post[j]).log()) by {
            assert(b_after[j].log().is_prefix_of(b_mid[j].log()));
            assert(b_mid[j].log().is_prefix_of(b_post[j].log()));
        }
        lemma_walk_grows(a, a_mid, order.take(k));
        lemma_walk_grows(b, b_before, order.take(k));
        lemma_same_earlier(a_post, a_post, b_after, b_post);
        lemma_same_earlier(a_mid, a_post, b_before, b_after);
        lemma_walks_agree(a, a_mid, b, b_before, order.take(k));
        lemma_one_more_agrees(a_mid, a_post, b_before, b_after, i);
    }
}

/// The receivers in the first `k` places of `order` were found without a message.
pub open spec fn dry_before<T>(
    pre: Seq<DynReceiver<T>>,
    post: Seq<DynReceiver<T>>,
    order: Seq<usize>,
    k: int,
) -> bool {
    forall|p: int|
        0 <= p < k ==> dry(pre[#[trigger] order[p] as int], post[order[p] as int])
}

/// The tagged scan and the plain scan of receivers alike, which make the same
/// observations, give the same message and leave the receivers alike. The tag is the
/// receiver that the message was taken from; no other yielded anything, and those before it
/// in the order had no message.
pub proof fn law_tagged_and_plain_scans_agree<T>(
    a: Seq<DynReceiver<T>>,
    a_post: Seq<DynReceiver<T>>,
    tagged: Option<(T, usize)>,
    b: Seq<DynReceiver<T>>,
    b_post: Seq<DynReceiver<T>>,
    plain: Option<T>,
    order: Seq<usize>,
)
    requires
        names_only(order, a.len()),
        tagged_scan(a, a_post, order, tagged),
        plain_scan(b, b_post, order, plain),
        alike(a, b),
        same_observations(a_post, b_post),
    ensures
        plain == match tagged {
            Some((m, _)) => Some(m),
            None => None,
        },
        alike(a_post, b_post),
        tagged matches Some((m, idx)) ==> only_yielded(a, a_post, idx as int, m),
        tagged matches Some((m, idx)) ==> exists|k: int|
            0 <= k < order.len() && order[k] == idx && #[trigger] dry_before(a, a_post, order, k),
        tagged is None ==> none_yielded(a, a_post),
{
    assert(order.take(order.len() as int) == order);
    if let Some((m, idx)) = tagged {
        let k = choose|k: int| #[trigger] stopped_at(a, a_post, order, k, m) && order[k] == idx;
        lemma_stop_yields(a, a_post, order, k, m);
        if let Some(n) = plain {
            let idx2 = choose|idx2: usize| #[trigger] stopped_along(b, b_post, order, idx2, n);
            let l = choose|l: int| #[trigger]
                stopped_at(b, b_post, order, l, n) && order[l] == idx2;
            lemma_stops_agree(a, a_post, k, m, b, b_post, l, n, order);
        } else {
            lemma_no_walk_past_a_message(
                a,
                a_post,
                k,
                m,
                b,
                b_post,
                b_post,
                order,
                order.len() as int,
            );
        }
    } else if let Some(n) = plain {
        let idx2 = choose|idx2: usize| #[trigger] stopped_along(b, b_post, order, idx2, n);
        let l = choose|l: int| #[trigger] stopped_at(b, b_post, order, l, n) && order[l] == idx2;
        lemma_no_walk_past_a_message(
            b,
            b_post,
            l,
            n,
            a,
            a_post,
            a_post,
            order,
            order.len() as int,
        );
    } else {
        lemma_walk_grows(a, a_post, order);
        lemma_walks_agree(a, a_post, b, b_post, order);
    }
}

/// A scan that stops at a message takes that message and no other.
pub(crate) proof fn lemma_stop_yields<T>(
    pre: Seq<DynReceiver<T>>,
    post: Seq<DynReceiver<T>>,
    order: Seq<usize>,
    k: int,
    m: T,
)
    requires
        names_only(order, pre.len()),
        stopped_at(pre, post, order, k, m),
    ensures
        only_yielded(pre, post, order[k] as int, m),
        dry_before(pre, post, order, k),
        earlier(pre, post),
        post[order[k] as int].log().last() == Observation::Message(m),
{
    let i = order[k] as int;
    let mid = choose|mid: Seq<DynReceiver<T>>| #[trigger]
        walked(pre, mid, order.take(k)) && observed(mid[i], post[i], Observation::Message(m))
            && post == mid.update(i, post[i]);
    lemma_walk_grows(pre, mid, order.take(k));
    lemma_observed(mid[i], post[i], Observation::Message(m));
    assert forall|j: int| 0 <= j < pre.len() implies (#[trigger] post[j]).wire()
        == pre[j].wire() && (j != i ==> post[j].received() == pre[j].received()) by {
        assert(mid[j].wire() == pre[j].wire());
    }
    assert(mid[i].received() == pre[i].received());
    assert forall|j: int| 0 <= j < pre.len() implies (#[trigger] pre[j]).log().is_prefix_of(
        (#[trigger] post[j]).log(),
    ) by {
        assert(pre[j].log().is_prefix_of(mid[j].log()));
    }
    assert forall|p: int| 0 <= p < k implies dry(
        pre[#[trigger] order[p] as int],
        post[order[p] as int],
    ) by {
        let j = order[p] as int;
        let (before, after) = lemma_walk_passes(pre, mid, order.take(k), p);
        lemma_walk_grows(pre, before, order.take(k).take(p));
        assert(pre[j].log().is_prefix_of(before[j].log()));
        assert(after[j].log().is_prefix_of(mid[j].log()));
        assert(mid[j].log().is_prefix_of(post[j].log()));
        let seen = before[j].log().len() as int;
        assert(!(post[j].log()[seen] is Message));
    }
}

/// Two scans of receivers alike that both stop at a message, with the same observations,
/// stop at the same place with the same message and leave the receivers alike.
proof fn lemma_stops_agree<T>(
    a: Seq<DynReceiver<T>>,
    a_post: Seq<DynReceiver<T>>,
    k: int,
    m: T,
    b: Seq<DynReceiver<T>>,
    b_post: Seq<DynReceiver<T>>,
    l: int,
    n: T,
    order: Seq<usize>,
)
    requires
        names_only(order, a.len()),
        stopped_at(a, a_post, order, k, m),
        stopped_at(b, b_post, order, l, n),
        alike(a, b),
        same_observations(a_post, b_post),
    ensures
        k == l,
        m == n,
        alike(a_post, b_post),
{
    let a_mid = choose|mid: Seq<DynReceiver<T>>| #[trigger]
        walked(a, mid, order.take(k)) && observed(
            mid[order[k] as int],
            a_post[order[k] as int],
            Observation::Message(m),
        ) && a_post == mid.update(order[k] as int, a_post[order[k] as int]);
    let b_mid = choose|mid: Seq<DynReceiver<T>>| #[trigger]
        walked(b, mid, order.take(l)) && observed(
            mid[order[l] as int],
            b_post[order[l] as int],
            Observation::Message(n),
        ) && b_post == mid.update(order[l] as int, b_post[order[l] as int]);
    lemma_walk_grows(a, a_mid, order.take(k));
    lemma_walk_grows(b, b_mid, order.take(l));
    if k < l {
        lemma_no_walk_past_a_message(a, a_post, k, m, b, b_mid, b_post, order, l);
    } else if l < k {
        lemma_no_walk_past_a_message(b, b_post, l, n, a, a_mid, a_post, order, k);
    }
    lemma_same_earlier(a_mid, a_post, b_mid, b_post);
    lemma_walks_agree(a, a_mid, b, b_mid, order.take(k));
    lemma_one_more_agrees(a_mid, a_post, b_mid, b_post, order[k] as int);
}

} // verus!
