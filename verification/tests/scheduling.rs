use std::task::{Context, Waker};

use hyperfile_reactor::{
    open_task, poll_any, relief_order, sort_order, Capacity, Channel, Dispatch, DynReceiver,
    FairPriority, Polled, StrictPriority, TaskBuilder, TaskChannels,
};

/// Opens unbounded channels of the given priorities and fills them.
fn filled(channels: &[(u8, &[u32])]) -> TaskChannels<u32> {
    let mut builder = TaskBuilder::<u32>::new();
    let tokens: Vec<Channel<u32>> =
        channels.iter().map(|(prio, _)| builder.add_unbounded(*prio)).collect();
    let task = open_task(builder);
    for (ch, (_, msgs)) in tokens.iter().zip(channels) {
        for m in msgs.iter() {
            task.handler.send(*ch, *m).unwrap();
        }
    }
    task
}

/// Takes everything that is there, in the order in which the scheduler gives it out.
fn drain<F>(task: &mut TaskChannels<u32>, mut next: F) -> Vec<u32>
where
    F: FnMut(&mut [DynReceiver<u32>], &[u8]) -> Dispatch<u32>,
{
    let mut taken = Vec::new();
    loop {
        match next(&mut task.receivers, &task.priorities) {
            Dispatch::Ready(Some(m)) => taken.push(m),
            Dispatch::Ready(None) => panic!("terminated with producers alive"),
            Dispatch::Wait(_) => return taken,
        }
    }
}

/// Lets a sentinel on the first channel through the scheduler, then enqueues all
/// messages before the scheduler sees any, and returns them as they come out.
fn run_with_gate<F>(channels: Vec<(u8, Capacity, Vec<u32>)>, mut next: F) -> Vec<u32>
where
    F: FnMut(&mut [DynReceiver<u32>], &[u8]) -> Dispatch<u32>,
{
    let mut builder = TaskBuilder::<u32>::new();
    let tokens: Vec<Channel<u32>> =
        channels.iter().map(|(prio, cap, _)| builder.add_channel(*prio, *cap)).collect();
    let mut task = open_task(builder);

    task.handler.send(tokens[0], u32::MAX).unwrap();
    match next(&mut task.receivers, &task.priorities) {
        Dispatch::Ready(Some(m)) => assert_eq!(m, u32::MAX),
        _ => panic!("the sentinel must come first"),
    }

    for (i, (_prio, _cap, msgs)) in channels.iter().enumerate() {
        for m in msgs {
            task.handler.send(tokens[i], *m).unwrap();
        }
    }
    drain(&mut task, next)
}

fn fair(mut s: FairPriority) -> impl FnMut(&mut [DynReceiver<u32>], &[u8]) -> Dispatch<u32> {
    move |rxs, priorities| s.next_ctx(rxs, priorities)
}

fn strict() -> impl FnMut(&mut [DynReceiver<u32>], &[u8]) -> Dispatch<u32> {
    let mut s = StrictPriority;
    move |rxs, priorities| s.next_ctx(rxs, priorities)
}

#[test]
fn fair_priority_order_default() {
    let result = run_with_gate(
        vec![
            (0, Capacity::Unbounded, vec![10, 11, 12]),
            (1, Capacity::Unbounded, vec![20, 21, 22]),
            (2, Capacity::Unbounded, vec![30, 31, 32]),
        ],
        fair(FairPriority::default()),
    );
    assert_eq!(result, vec![10, 11, 12, 20, 21, 22, 30, 31, 32]);
}

#[test]
fn strict_priority_scheduler() {
    let result = run_with_gate(
        vec![
            (0, Capacity::Unbounded, (0..50).collect()),
            (2, Capacity::Unbounded, vec![999]),
        ],
        strict(),
    );

    // StrictPriority: all 50 high-prio items come out before the low one.
    let pos = result.iter().position(|&v| v == 999).unwrap();
    assert_eq!(pos, 50, "low-prio must come last under StrictPriority");
}

#[test]
fn fair_priority_anti_starvation() {
    let high: Vec<u32> = (0..40).map(|i| 1000 + i).collect();
    let low = vec![9999_u32];

    let result = run_with_gate(
        vec![
            (0, Capacity::Unbounded, high.clone()),
            (2, Capacity::Unbounded, low),
        ],
        fair(FairPriority::new(16)),
    );

    let pos = result.iter().position(|&v| v == 9999).unwrap();
    assert!(
        pos <= 16,
        "FairPriority must relieve starvation within budget: pos={pos}"
    );

    let highs: Vec<u32> = result.iter().copied().filter(|&v| v != 9999).collect();
    let mut sorted = highs.clone();
    sorted.sort();
    assert_eq!(sorted, high);
}

#[test]
fn strict_priority_drains_one_channel_after_the_other() {
    let TaskChannels { handler, mut receivers, priorities } =
        filled(&[(7, &[70, 71]), (0, &[1, 2, 3]), (7, &[72]), (3, &[])]);
    drop(handler);
    let mut s = StrictPriority;
    let mut results = Vec::new();
    let order = loop {
        match s.next_ctx(&mut receivers, &priorities) {
            Dispatch::Ready(Some(m)) => results.push(m),
            Dispatch::Ready(None) => panic!("a task with channels waits"),
            Dispatch::Wait(order) => break order,
        }
    };
    assert_eq!(results, vec![1, 2, 3, 70, 71, 72]);
    assert_eq!(order, vec![1, 3, 0, 2]);
    let mut cx = Context::from_waker(Waker::noop());
    assert!(matches!(poll_any(&mut receivers, &order, &priorities, &mut cx), Polled::Ready(None)));
}

#[test]
fn fair_priority_is_strict_at_first() {
    let channels: &[(u8, &[u32])] = &[(2, &[20, 21]), (0, &[1, 2, 3]), (1, &[10])];
    let by_strict = drain(&mut filled(channels), strict());
    for budget in 0..4 {
        let by_fair = drain(&mut filled(channels), fair(FairPriority::new(budget)));
        let n = budget as usize;
        assert_eq!(by_fair[..n], by_strict[..n]);
    }
    // The result after the budget is the first that differs.
    let by_fair = drain(&mut filled(channels), fair(FairPriority::new(2)));
    assert_eq!(by_strict[2], 3);
    assert_eq!(by_fair[2], 20);
}

#[test]
fn a_poll_visits_what_the_order_names() {
    let mut task = filled(&[(0, &[1]), (1, &[10]), (2, &[])]);
    let mut cx = Context::from_waker(Waker::noop());
    assert!(matches!(
        poll_any(&mut task.receivers, &[2, 1], &task.priorities, &mut cx),
        Polled::Ready(Some((10, false)))
    ));
    assert!(matches!(
        poll_any(&mut task.receivers, &[2, 1], &task.priorities, &mut cx),
        Polled::Pending
    ));
    assert!(matches!(
        poll_any(&mut task.receivers, &[], &task.priorities, &mut cx),
        Polled::Ready(None)
    ));
    assert_eq!(task.receivers[0].try_recv(), Ok(1));
}

#[test]
fn a_poll_may_visit_a_channel_twice() {
    let TaskChannels { handler, mut receivers, priorities } =
        filled(&[(0, &[]), (1, &[10, 11])]);
    let mut cx = Context::from_waker(Waker::noop());
    let order = [0, 0, 1, 0];
    let mut poll = |receivers: &mut [DynReceiver<u32>]| {
        poll_any(receivers, &order, &priorities, &mut cx)
    };
    assert!(matches!(poll(&mut receivers), Polled::Ready(Some((10, false)))));
    assert!(matches!(poll(&mut receivers), Polled::Ready(Some((11, false)))));
    assert!(matches!(poll(&mut receivers), Polled::Pending));
    drop(handler);
    assert!(matches!(poll(&mut receivers), Polled::Ready(None)));
}

#[test]
fn relief_comes_whichever_low_channel_waits() {
    // One channel below the top has something at first, the other later.
    let mut builder = TaskBuilder::<u32>::new();
    let top = builder.add_unbounded(0);
    let low = builder.add_unbounded(1);
    let other = builder.add_unbounded(2);
    let mut task = open_task(builder);
    for m in 1..=6 {
        task.handler.send(top, m).unwrap();
    }
    let mut s = FairPriority::new(2);
    let mut next = |task: &mut TaskChannels<u32>| {
        match s.next_ctx(&mut task.receivers, &task.priorities) {
            Dispatch::Ready(Some(m)) => m,
            _ => panic!("nothing to dispatch"),
        }
    };
    task.handler.send(low, 10).unwrap();
    assert_eq!(next(&mut task), 1);
    // What waited is gone by another way; something else waits instead.
    assert_eq!(task.receivers[1].try_recv(), Ok(10));
    task.handler.send(other, 20).unwrap();
    assert_eq!(next(&mut task), 2);
    assert_eq!(next(&mut task), 20);
    assert_eq!(next(&mut task), 3);
}

#[test]
fn default_budget_is_sixteen() {
    assert_eq!(FairPriority::default().budget, 16);
    let high: Vec<u32> = (0..40).collect();
    let mut task = filled(&[(0, high.as_slice()), (2, &[999])]);
    let result = drain(&mut task, fair(FairPriority::default()));
    assert_eq!(result.iter().position(|&v| v == 999), Some(16));
}

#[test]
fn relief_after_each_budget() {
    let mut task = filled(&[(0, &[1, 2, 3, 4, 5]), (7, &[70, 71])]);
    let result = drain(&mut task, fair(FairPriority::new(2)));
    assert_eq!(result, vec![1, 2, 70, 3, 4, 71, 5]);
}

#[test]
fn relief_takes_the_lowest_nonempty_band() {
    let mut task = filled(&[(0, &[1, 2, 3, 4]), (5, &[50]), (9, &[90])]);
    let result = drain(&mut task, fair(FairPriority::new(1)));
    assert_eq!(result, vec![1, 90, 2, 50, 3, 4]);
}

#[test]
fn zero_budget_always_serves_the_lowest_band() {
    let mut task = filled(&[(0, &[1, 2]), (5, &[50]), (9, &[90])]);
    let result = drain(&mut task, fair(FairPriority::new(0)));
    assert_eq!(result, vec![90, 50, 1, 2]);
}

#[test]
fn items_below_the_top_end_a_streak() {
    let mut s = FairPriority::new(2);
    let mut builder = TaskBuilder::<u32>::new();
    let top = builder.add_unbounded(0);
    let middle = builder.add_unbounded(3);
    let bottom = builder.add_unbounded(6);
    let mut task = open_task(builder);
    let mut next = |task: &mut TaskChannels<u32>| match s
        .next_ctx(&mut task.receivers, &task.priorities)
    {
        Dispatch::Ready(m) => m,
        Dispatch::Wait(_) => None,
    };

    task.handler.send(top, 1).unwrap();
    assert_eq!(next(&mut task), Some(1));
    task.handler.send(middle, 30).unwrap();
    assert_eq!(next(&mut task), Some(30));
    // The streak starts anew, so two more top items come before the bottom one.
    task.handler.send(bottom, 60).unwrap();
    task.handler.send(top, 2).unwrap();
    task.handler.send(top, 3).unwrap();
    task.handler.send(top, 4).unwrap();
    assert_eq!(next(&mut task), Some(2));
    assert_eq!(next(&mut task), Some(3));
    assert_eq!(next(&mut task), Some(60));
    assert_eq!(next(&mut task), Some(4));
}

#[test]
fn the_whole_top_band_shares_one_budget() {
    let mut task = filled(&[(4, &[400]), (0, &[1]), (0, &[10, 11, 12, 13])]);
    let result = drain(&mut task, fair(FairPriority::new(3)));
    assert_eq!(result, vec![1, 10, 11, 400, 12, 13]);
}

#[test]
fn equals_in_registration_order() {
    let mut task = filled(&[(3, &[30]), (1, &[10]), (3, &[31]), (1, &[11])]);
    assert_eq!(drain(&mut task, strict()), vec![10, 11, 30, 31]);

    let mut task = filled(&[(0, &[1, 2, 3]), (3, &[30]), (3, &[31])]);
    assert_eq!(drain(&mut task, fair(FairPriority::new(1))), vec![1, 30, 2, 31, 3]);
}

#[test]
fn a_task_without_channels_terminates() {
    let mut none: Vec<DynReceiver<u32>> = Vec::new();
    assert!(matches!(FairPriority::new(4).next_ctx(&mut none, &[]), Dispatch::Ready(None)));
    match StrictPriority.next_ctx(&mut none, &[]) {
        Dispatch::Wait(order) => {
            let mut cx = Context::from_waker(Waker::noop());
            assert!(matches!(poll_any(&mut none, &order, &[], &mut cx), Polled::Ready(None)));
        }
        Dispatch::Ready(_) => panic!("nothing to serve"),
    }
}

#[test]
fn sort_order_is_stable() {
    assert_eq!(sort_order(&[]), Vec::<usize>::new());
    assert_eq!(sort_order(&[5, 0, 5, 255, 0]), vec![1, 4, 0, 2, 3]);
}

#[test]
fn relief_order_is_stable() {
    assert_eq!(relief_order(&[5, 0, 5, 255, 0]), vec![3, 0, 2, 1, 4]);
}

#[test]
fn a_poll_takes_the_most_urgent_message() {
    let mut task = filled(&[(2, &[20]), (0, &[1]), (0, &[2])]);
    let order = sort_order(&task.priorities);
    let mut cx = Context::from_waker(Waker::noop());
    let mut poll = |task: &mut TaskChannels<u32>| {
        poll_any(&mut task.receivers, &order, &task.priorities, &mut cx)
    };
    assert!(matches!(poll(&mut task), Polled::Ready(Some((1, true)))));
    assert!(matches!(poll(&mut task), Polled::Ready(Some((2, true)))));
    assert!(matches!(poll(&mut task), Polled::Ready(Some((20, false)))));
    assert!(matches!(poll(&mut task), Polled::Pending));
}

#[test]
fn a_wait_ends_when_every_channel_is_closed() {
    let TaskChannels { handler, mut receivers, priorities } = filled(&[(0, &[1]), (1, &[])]);
    let order = sort_order(&priorities);
    let mut cx = Context::from_waker(Waker::noop());
    let other = handler.clone();
    drop(handler);
    assert!(matches!(
        poll_any(&mut receivers, &order, &priorities, &mut cx),
        Polled::Ready(Some((1, true)))
    ));
    assert!(matches!(poll_any(&mut receivers, &order, &priorities, &mut cx), Polled::Pending));
    drop(other);
    assert!(matches!(poll_any(&mut receivers, &order, &priorities, &mut cx), Polled::Ready(None)));

    // Closed is for good.
    assert!(matches!(
        FairPriority::new(0).next_ctx(&mut receivers, &priorities),
        Dispatch::Wait(_)
    ));
    assert!(matches!(poll_any(&mut receivers, &order, &priorities, &mut cx), Polled::Ready(None)));
}

#[test]
fn resume_counts_what_the_wait_brought() {
    let mut s = FairPriority::new(2);
    assert_eq!(s.resume(Some((7u32, true))), Some(7));
    assert_eq!(s.resume(Some((8u32, true))), Some(8));
    assert_eq!(s.resume(None::<(u32, bool)>), None);
    // Two top items have been served, so relief is due.
    let mut task = filled(&[(0, &[1]), (1, &[10])]);
    assert_eq!(drain(&mut task, fair(s)), vec![10, 1]);

    let mut s = FairPriority::new(1);
    assert_eq!(s.resume(Some((7u32, true))), Some(7));
    assert_eq!(s.resume(Some((8u32, false))), Some(8));
    let mut task = filled(&[(0, &[1]), (1, &[10])]);
    assert_eq!(drain(&mut task, fair(s)), vec![1, 10]);

    assert_eq!(StrictPriority.resume(Some((9u32, false))), Some(9));
    assert_eq!(StrictPriority.resume(None::<(u32, bool)>), None);
}
