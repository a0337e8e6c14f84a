//! The orders in which channels are visited.
use vstd::prelude::*;

verus! {

/// Channel `a` comes before channel `b` in the priority order: it has the smaller
/// priority value or, among equals, was registered first.
pub open spec fn more_urgent(priorities: Seq<u8>, a: int, b: int) -> bool {
    priorities[a] < priorities[b] || (priorities[a] == priorities[b] && a < b)
}

/// Channel `a` comes before channel `b` when relief is due: it has the larger
/// priority value or, among equals, was registered first.
pub open spec fn more_neglected(priorities: Seq<u8>, a: int, b: int) -> bool {
    priorities[a] > priorities[b] || (priorities[a] == priorities[b] && a < b)
}

/// Channel `i` is in the top-priority band: no channel has a smaller priority value.
pub open spec fn in_top_band(priorities: Seq<u8>, i: int) -> bool {
    forall|j: int| 0 <= j < priorities.len() ==> priorities[i] <= #[trigger] priorities[j]
}

/// `order` names only the first `n` channels.
pub open spec fn names_only(order: Seq<usize>, n: nat) -> bool {
    forall|k: int| 0 <= k < order.len() ==> #[trigger] order[k] < n
}

/// `order` names some of `n` channels, none twice.
pub open spec fn visits_some(order: Seq<usize>, n: nat) -> bool {
    &&& order.no_duplicates()
    &&& names_only(order, n)
}

/// `order` visits each of `n` channels exactly once.
pub open spec fn visits_all(order: Seq<usize>, n: nat) -> bool {
    &&& order.len() == n
    &&& visits_some(order, n)
    &&& forall|i: usize| i < n ==> #[trigger] order.contains(i)
}

/// `order` lists all channels by ascending priority value, equals in registration
/// order.
pub open spec fn is_priority_order(priorities: Seq<u8>, order: Seq<usize>) -> bool {
    &&& visits_all(order, priorities.len())
    &&& forall|a: int, b: int|
        0 <= a < b < order.len() ==> more_urgent(
            priorities,
            #[trigger] order[a] as int,
            #[trigger] order[b] as int,
        )
}

/// `order` lists all channels by descending priority value, equals in registration
/// order.
pub open spec fn is_relief_order(priorities: Seq<u8>, order: Seq<usize>) -> bool {
    &&& visits_all(order, priorities.len())
    &&& forall|a: int, b: int|
        0 <= a < b < order.len() ==> more_neglected(
            priorities,
            #[trigger] order[a] as int,
            #[trigger] order[b] as int,
        )
}

/// Inserting a fresh channel keeps an order free of duplicates and complete.
proof fn lemma_insert_visits_all(order: Seq<usize>, i: usize, at: int)
    requires
        visits_all(order, i as nat),
        0 <= at <= order.len(),
    ensures
        visits_all(order.insert(at, i), (i + 1) as nat),
{
    let longer = order.insert(at, i);
    assert forall|c: usize| c < i + 1 implies #[trigger] longer.contains(c) by {
        if c == i {
            assert(longer[at] == c);
        } else {
            assert(order.contains(c));
            let k = choose|k: int| 0 <= k < order.len() && order[k] == c;
            assert(longer[if k < at { k } else { k + 1 }] == c);
        }
    }
}

/// Return indices 0..N sorted by ascending priority value (stable).
pub fn sort_order(priorities: &[u8]) -> (order: Vec<usize>)
    ensures
        is_priority_order(priorities@, order@),
        order@.len() == priorities@.len(),
        forall|k: int| 0 <= k < order@.len() ==> #[trigger] order@[k] < priorities@.len(),
        forall|i: usize| i < priorities@.len() ==> #[trigger] order@.contains(i),
        forall|a: int, b: int|
            0 <= a < b < order@.len() ==> {
                ||| priorities@[#[trigger] order@[a] as int] < priorities@[
                #[trigger] order@[b] as int]
                ||| priorities@[order@[a] as int] == priorities@[order@[b] as int] && order@[a]
                    < order@[b]
            },
{
    let mut order: Vec<usize> = Vec::new();
    let mut i: usize = 0;
    while i < priorities.len()
        invariant
            i <= priorities@.len(),
            is_priority_order(priorities@.take(i as int), order@),
        decreases priorities@.len() - i,
    {
        let ghost seen = priorities@.take(i as int);
        let ghost more = priorities@.take(i + 1);
        // Everything from `at` on has a larger priority value than channel `i`.
        let mut at: usize = order.len();
        while at > 0 && priorities[order[at - 1]] > priorities[i]
            invariant
                i < priorities@.len(),
                at <= order@.len(),
                seen == priorities@.take(i as int),
                is_priority_order(seen, order@),
                forall|k: int|
                    at <= k < order@.len() ==> priorities@[#[trigger] order@[k] as int]
                        > priorities@[i as int],
            decreases at,
        {
            at = at - 1;
        }
        let ghost before = order@;
        order.insert(at, i);
        proof {
            lemma_insert_visits_all(before, i, at as int);
            // `before[at - 1]`, and so all before it, have no larger priority value than `i`.
            assert(forall|a: int, b: int|
                0 <= a < b < order@.len() ==> more_urgent(
                    more,
                    #[trigger] order@[a] as int,
                    #[trigger] order@[b] as int,
                ));
        }
        i = i + 1;
    }
    order
}

/// Return indices 0..N sorted by descending priority value (stable).
pub fn relief_order(priorities: &[u8]) -> (order: Vec<usize>)
    ensures
        is_relief_order(priorities@, order@),
        order@.len() == priorities@.len(),
        forall|k: int| 0 <= k < order@.len() ==> #[trigger] order@[k] < priorities@.len(),
        forall|i: usize| i < priorities@.len() ==> #[trigger] order@.contains(i),
        forall|a: int, b: int|
            0 <= a < b < order@.len() ==> {
                ||| priorities@[#[trigger] order@[a] as int] > priorities@[
                #[trigger] order@[b] as int]
                ||| priorities@[order@[a] as int] == priorities@[order@[b] as int] && order@[a]
                    < order@[b]
            },
{
    let mut flipped: Vec<u8> = Vec::new();
    let mut i: usize = 0;
    while i < priorities.len()
        invariant
            i <= priorities@.len(),
            flipped@.len() == i,
            forall|k: int| 0 <= k < i ==> #[trigger] flipped@[k] == u8::MAX - priorities@[k],
        decreases priorities@.len() - i,
    {
        flipped.push(u8::MAX - priorities[i]);
        i = i + 1;
    }
    sort_order(flipped.as_slice())
}

} // verus!
