use std::cell::Cell;
use std::future::poll_fn;
use std::rc::Rc;
use std::sync::atomic::{AtomicUsize, Ordering};
use std::sync::Arc;
use std::task::{Context, Poll, Wake, Waker};
use std::time::Duration;

use hyperfile_reactor::{
    finish_send, make_channel, make_plain_channel, open_plain_task, open_task, poll_any, Capacity,
    Control, Dispatch, FairPriority, Observation, Polled, SendError, SendStep,
    SpawnError, TaskBuilder, TaskChannels, TryRecvError, TrySendError,
};

#[test]
fn bounded_channel_applies_backpressure() {
    let mut builder = TaskBuilder::<u32>::new();
    let ch = builder.add_bounded(0, 1);
    let TaskChannels { handler, mut receivers, .. } = open_task(builder);

    // The consumer picks up item 1 and keeps it.
    handler.try_send(ch, 1).expect("send 1");
    assert_eq!(receivers[0].try_recv(), Ok(1));

    // Fill the 1-slot buffer.
    handler.try_send(ch, 2).expect("send 2 fills buffer");
    // Now Full.
    match handler.try_send(ch, 3) {
        Err(TrySendError::Full(3)) => { /* expected */ }
        other => panic!("expected Full(3), got {:?}", other.map(|_| ())),
    }

    // Release the consumer; there is room again.
    assert_eq!(receivers[0].try_recv(), Ok(2));
    handler.send(ch, 4).expect("send 4");
}

#[test]
fn send_async_awaits_capacity() {
    let rt = tokio::runtime::Builder::new_current_thread().enable_all().build().unwrap();
    let local = tokio::task::LocalSet::new();
    let log = local.block_on(&rt, async {
        let mut builder = TaskBuilder::<u32>::new();
        let ch = builder.add_bounded(0, 1);
        let TaskChannels { handler, mut receivers, priorities } = open_task(builder);

        // A consumer that takes its time for each item.
        let consumer = tokio::task::spawn_local(async move {
            let mut scheduler = FairPriority::default();
            let mut log = Vec::new();
            loop {
                let next = match scheduler.next_ctx(&mut receivers, &priorities) {
                    Dispatch::Ready(next) => next,
                    Dispatch::Wait(order) => {
                        let arrived = poll_fn(|cx| {
                            match poll_any(&mut receivers, &order, &priorities, cx) {
                                Polled::Ready(arrived) => Poll::Ready(arrived),
                                Polled::Pending => Poll::Pending,
                            }
                        })
                        .await;
                        scheduler.resume(arrived)
                    }
                };
                match next {
                    Some(m) => {
                        tokio::time::sleep(Duration::from_millis(20)).await;
                        log.push(m);
                    }
                    None => return log,
                }
            }
        });

        for i in 0..5u32 {
            match handler.send_async(ch, i) {
                SendStep::Done(_) => panic!("a bounded channel makes its producers wait"),
                SendStep::Wait(tx, value) => {
                    finish_send(tx.send(value).await.map_err(|e| e.0)).unwrap()
                }
            }
        }
        drop(handler);
        consumer.await.unwrap()
    });
    assert_eq!(log, vec![0, 1, 2, 3, 4]);
}

#[test]
fn send_async_resolves_at_once_on_an_unbounded_channel() {
    let (tx, mut rx) = make_channel::<u32>(Capacity::Unbounded);
    assert!(matches!(tx.send_async(5), SendStep::Done(Ok(()))));
    assert_eq!(rx.try_recv(), Ok(5));
    drop(rx);
    assert!(matches!(tx.send_async(6), SendStep::Done(Err(SendError(6)))));
}

#[test]
fn finish_send_reports_the_answer() {
    assert!(finish_send(Ok::<(), u32>(())).is_ok());
    assert!(matches!(finish_send(Err(8u32)), Err(SendError(8))));
}

#[test]
fn capacity_zero_holds_one() {
    let (tx, _rx) = make_channel::<u32>(Capacity::Bounded(0));
    assert!(tx.try_send(1).is_ok());
    assert!(matches!(tx.try_send(2), Err(TrySendError::Full(2))));
}

#[test]
fn a_bounded_channel_holds_its_capacity() {
    let (tx, mut rx) = make_channel::<u32>(Capacity::Bounded(3));
    for m in 0..3 {
        assert!(tx.try_send(m).is_ok());
    }
    assert!(matches!(tx.try_send(3), Err(TrySendError::Full(3))));
    for m in 0..3 {
        assert_eq!(rx.try_recv(), Ok(m));
    }
    assert_eq!(rx.try_recv(), Err(TryRecvError::Empty));
}

#[test]
fn sends_fail_when_the_receiver_is_gone() {
    for cap in [Capacity::Bounded(2), Capacity::Unbounded] {
        let (tx, rx) = make_channel::<u32>(cap);
        drop(rx);
        assert!(matches!(tx.try_send(1), Err(TrySendError::Closed(1))));
    }
}

#[test]
fn a_clone_sends_into_the_same_channel() {
    for cap in [Capacity::Bounded(2), Capacity::Unbounded] {
        let (tx, mut rx) = make_channel::<u32>(cap);
        let other = tx.clone();
        assert!(other.try_send(1).is_ok());
        drop(tx);
        assert_eq!(rx.try_recv(), Ok(1));
        assert_eq!(rx.try_recv(), Err(TryRecvError::Empty));
        drop(other);
        assert_eq!(rx.try_recv(), Err(TryRecvError::Disconnected));
        assert_eq!(rx.try_recv(), Err(TryRecvError::Disconnected));
    }
}

#[test]
fn polls_report_messages_emptiness_and_the_end() {
    for cap in [Capacity::Bounded(2), Capacity::Unbounded] {
        let (tx, mut rx) = make_channel::<u32>(cap);
        let mut cx = Context::from_waker(Waker::noop());
        assert!(matches!(rx.poll_recv(&mut cx), Polled::Pending));
        assert!(tx.try_send(4).is_ok());
        assert!(matches!(rx.poll_recv(&mut cx), Polled::Ready(Some(4))));
        drop(tx);
        assert!(matches!(rx.poll_recv(&mut cx), Polled::Ready(None)));
    }
}

/// Counts wakeups.
struct Bell(AtomicUsize);

impl Wake for Bell {
    fn wake(self: Arc<Self>) {
        self.0.fetch_add(1, Ordering::SeqCst);
    }
}

#[test]
fn a_pending_poll_is_woken() {
    for cap in [Capacity::Bounded(2), Capacity::Unbounded] {
        let bell = Arc::new(Bell(AtomicUsize::new(0)));
        let waker = Waker::from(bell.clone());
        let mut cx = Context::from_waker(&waker);
        let (tx, mut rx) = make_channel::<u32>(cap);

        // A receive that does not wait arranges no wakeup.
        assert_eq!(rx.try_recv(), Err(TryRecvError::Empty));
        assert!(tx.try_send(1).is_ok());
        assert_eq!(bell.0.load(Ordering::SeqCst), 0);
        assert_eq!(rx.try_recv(), Ok(1));

        // A poll does, for a message and for the end.
        assert!(matches!(rx.poll_recv(&mut cx), Polled::Pending));
        assert!(tx.try_send(2).is_ok());
        assert_eq!(bell.0.load(Ordering::SeqCst), 1);
        assert!(matches!(rx.poll_recv(&mut cx), Polled::Ready(Some(2))));
        assert!(matches!(rx.poll_recv(&mut cx), Polled::Pending));
        drop(tx);
        assert_eq!(bell.0.load(Ordering::SeqCst), 2);
        assert!(matches!(rx.poll_recv(&mut cx), Polled::Ready(None)));
    }
}

#[test]
fn a_pending_poll_of_a_task_is_woken_by_each_channel() {
    for which in 0..3 {
        let mut builder = TaskBuilder::<u32>::new();
        let tokens =
            [builder.add_unbounded(1), builder.add_bounded(0, 1), builder.add_unbounded(1)];
        let TaskChannels { handler, mut receivers, priorities } = open_task(builder);
        let bell = Arc::new(Bell(AtomicUsize::new(0)));
        let waker = Waker::from(bell.clone());
        let mut cx = Context::from_waker(&waker);
        assert!(matches!(
            poll_any(&mut receivers, &[1, 0, 2], &priorities, &mut cx),
            Polled::Pending
        ));
        handler.send(tokens[which], 5).unwrap();
        assert_eq!(bell.0.load(Ordering::SeqCst), 1);
        assert!(matches!(
            poll_any(&mut receivers, &[1, 0, 2], &priorities, &mut cx),
            Polled::Ready(Some((5, _)))
        ));
    }
}

#[test]
fn polls_and_receives_tell_the_same() {
    let mut cx = Context::from_waker(Waker::noop());
    let (tx, mut polled) = make_channel::<u32>(Capacity::Unbounded);
    let (tx2, mut tried) = make_channel::<u32>(Capacity::Unbounded);
    assert!(matches!(polled.poll_recv(&mut cx), Polled::Pending));
    assert_eq!(tried.try_recv(), Err(TryRecvError::Empty));
    assert!(tx.try_send(6).is_ok() && tx2.try_send(6).is_ok());
    assert!(matches!(polled.poll_recv(&mut cx), Polled::Ready(Some(6))));
    assert_eq!(tried.try_recv(), Ok(6));
    drop(tx);
    drop(tx2);
    assert!(matches!(polled.poll_recv(&mut cx), Polled::Ready(None)));
    assert_eq!(tried.try_recv(), Err(TryRecvError::Disconnected));
}

#[test]
fn a_capacity_bounds_its_channel() {
    for (n, fit) in [(0, 1), (1, 1), (3, 3)] {
        let (tx, mut rx) = make_channel::<u32>(Capacity::Bounded(n));
        for m in 0..fit {
            assert!(tx.try_send(m).is_ok());
        }
        assert!(matches!(tx.try_send(77), Err(TrySendError::Full(77))));
        assert_eq!(rx.try_recv(), Ok(0));
        assert!(tx.try_send(78).is_ok());
    }
    let (tx, _rx) = make_channel::<u32>(Capacity::Unbounded);
    for m in 0..1000 {
        assert!(tx.try_send(m).is_ok());
    }
}

#[test]
fn send_answers_as_try_send_and_a_clone_as_its_original() {
    let open = || {
        let mut builder = TaskBuilder::<u32>::new();
        let ch = builder.add_bounded(0, 1);
        (ch, open_task(builder))
    };
    let (a, by_send) = open();
    let (b, by_try_send) = open();
    assert!(by_send.handler.send(a, 1).is_ok());
    assert!(by_try_send.handler.try_send(b, 1).is_ok());
    assert!(matches!(by_send.handler.send(a, 2), Err(TrySendError::Full(2))));
    assert!(matches!(by_try_send.handler.try_send(b, 2), Err(TrySendError::Full(2))));

    // The clone meets the same bound, in the same channel.
    let TaskChannels { handler, mut receivers, .. } = by_send;
    let copy = handler.clone();
    assert_eq!(copy.channel_count(), handler.channel_count());
    assert!(matches!(copy.send(a, 3), Err(TrySendError::Full(3))));
    assert_eq!(receivers[0].try_recv(), Ok(1));
    assert!(copy.send(a, 4).is_ok());
    assert!(matches!(handler.send(a, 5), Err(TrySendError::Full(5))));
    assert_eq!(receivers[0].try_recv(), Ok(4));

    // The channel is closed only when both are gone.
    drop(handler);
    assert_eq!(receivers[0].try_recv(), Err(TryRecvError::Empty));
    drop(copy);
    assert_eq!(receivers[0].try_recv(), Err(TryRecvError::Disconnected));
}

#[test]
fn observations_as_results() {
    assert_eq!(Observation::Message(3).into_try_recv(), Ok(3));
    assert_eq!(Observation::<u32>::Nothing.into_try_recv(), Err(TryRecvError::Empty));
    assert_eq!(Observation::<u32>::Closed.into_try_recv(), Err(TryRecvError::Disconnected));
    assert!(matches!(Observation::Message(3).into_poll(), Polled::Ready(Some(3))));
    assert!(matches!(Observation::<u32>::Nothing.into_poll(), Polled::Pending));
    assert!(matches!(Observation::<u32>::Closed.into_poll(), Polled::Ready(None)));
}

#[test]
fn unsupported_capacities_are_told_apart() {
    assert!(Capacity::Unbounded.is_supported());
    assert!(Capacity::Bounded(0).is_supported());
    assert!(Capacity::Bounded(usize::MAX >> 3).is_supported());
    assert!(!Capacity::Bounded((usize::MAX >> 3) + 1).is_supported());

    let mut builder = TaskBuilder::<u32>::new();
    assert!(builder.is_supported());
    builder.add_bounded(0, 8);
    assert!(builder.is_supported());
    builder.add_bounded(0, usize::MAX);
    builder.add_unbounded(0);
    assert!(!builder.is_supported());
}

#[test]
fn tokens_select_their_channels() {
    let mut builder = TaskBuilder::<&str>::default();
    assert_eq!(builder.channel_count(), 0);
    let a = builder.add_channel(5, Capacity::Bounded(1));
    let b = builder.add_unbounded(9);
    let c = builder.add_bounded(0, 2);
    assert_eq!(builder.channel_count(), 3);

    let mut task = open_task(builder);
    assert_eq!(task.handler.channel_count(), 3);
    assert_eq!(task.receivers.len(), 3);
    assert_eq!(task.priorities, vec![5, 9, 0]);
    let copy = task.handler.clone();
    copy.send(c, "c").unwrap();
    copy.send(b, "b").unwrap();
    copy.send(a.clone(), "a").unwrap();
    assert!(matches!(copy.send(a, "a2"), Err(TrySendError::Full("a2"))));
    assert_eq!(task.receivers[0].try_recv(), Ok("a"));
    assert_eq!(task.receivers[1].try_recv(), Ok("b"));
    assert_eq!(task.receivers[2].try_recv(), Ok("c"));
}

fn shareable<T: Send + Sync>(_: &T) {}

#[test]
fn producers_can_share_a_handler_across_threads() {
    // A context that can be sent but not shared.
    let mut builder = TaskBuilder::<Cell<u32>>::new();
    shareable(&builder);
    let ch = builder.add_unbounded(0);
    shareable(&ch);
    let task = open_task(builder);
    shareable(&task.handler);

    // A token holds no context at all.
    let mut builder = TaskBuilder::<Rc<u32>>::new();
    shareable(&builder.add_unbounded(0));
}

#[test]
fn a_channel_gives_back_what_went_in() {
    for cap in [Capacity::Bounded(4), Capacity::Unbounded] {
        let (tx, mut rx) = make_channel::<u32>(cap);
        for m in [3, 1, 4, 1] {
            assert!(tx.try_send(m).is_ok());
        }
        drop(tx);
        let mut received = Vec::new();
        let end = loop {
            match rx.try_recv() {
                Ok(m) => received.push(m),
                Err(e) => break e,
            }
        };
        assert_eq!(received, vec![3, 1, 4, 1]);
        assert_eq!(end, TryRecvError::Disconnected);
    }
}

#[test]
fn a_plain_channel_gives_back_what_went_in() {
    for cap in [Capacity::Bounded(3), Capacity::Unbounded] {
        let (tx, mut rx) = make_plain_channel::<u64>(cap);
        for m in [9, 7, 9] {
            assert!(tx.try_send(m).is_ok());
        }
        drop(tx);
        assert_eq!(rx.try_recv(), Ok(9));
        assert_eq!(rx.try_recv(), Ok(7));
        assert_eq!(rx.try_recv(), Ok(9));
        assert_eq!(rx.try_recv(), Err(TryRecvError::Disconnected));
    }
    let (tx, mut rx) = make_plain_channel::<(String, Option<i8>)>(Capacity::Unbounded);
    assert!(tx.try_send(("seven".to_string(), Some(-7))).is_ok());
    assert_eq!(rx.try_recv(), Ok(("seven".to_string(), Some(-7))));

    let (tx, _rx) = make_plain_channel::<u64>(Capacity::Bounded(0));
    assert!(tx.try_send(1).is_ok());
    assert!(matches!(tx.try_send(2), Err(TrySendError::Full(2))));
}

#[test]
fn a_plain_task_has_the_declared_channels() {
    let mut builder = TaskBuilder::<u64>::new();
    let a = builder.add_bounded(4, 1);
    let b = builder.add_unbounded(2);
    let mut task = open_plain_task(builder);
    assert_eq!(task.priorities, vec![4, 2]);
    task.handler.send(a, 10).unwrap();
    assert!(matches!(task.handler.send(a, 11), Err(TrySendError::Full(11))));
    task.handler.send(b, 20).unwrap();
    assert_eq!(task.receivers[0].try_recv(), Ok(10));
    assert_eq!(task.receivers[1].try_recv(), Ok(20));

    let task = open_plain_task(TaskBuilder::<u64>::new());
    assert_eq!(task.handler.channel_count(), 1);
    assert_eq!(task.priorities, vec![0]);
}

#[test]
fn shutdown_is_clean() {
    let rt = tokio::runtime::Builder::new_current_thread().enable_all().build().unwrap();
    let mut builder = TaskBuilder::<()>::new();
    let ch = builder.add_unbounded(0);
    let TaskChannels { handler, mut receivers, priorities } = open_task(builder);

    for _ in 0..10 {
        handler.send(ch, ()).unwrap();
    }
    drop(handler);

    // The loop ends by itself once the last handler is gone, and misses nothing.
    let handled = rt.block_on(async {
        let mut scheduler = FairPriority::default();
        let mut handled = 0;
        loop {
            let next = match scheduler.next_ctx(&mut receivers, &priorities) {
                Dispatch::Ready(next) => next,
                Dispatch::Wait(order) => {
                    let arrived =
                        poll_fn(|cx| match poll_any(&mut receivers, &order, &priorities, cx) {
                            Polled::Ready(arrived) => Poll::Ready(arrived),
                            Polled::Pending => Poll::Pending,
                        })
                        .await;
                    scheduler.resume(arrived)
                }
            };
            match next {
                Some(()) => handled += 1,
                None => return handled,
            }
        }
    });
    assert_eq!(handled, 10);
}

#[test]
fn a_builder_without_channels_gets_one() {
    let mut other = TaskBuilder::<u32>::new();
    let first = other.add_unbounded(3);
    let second = other.add_unbounded(3);

    let mut task = open_task(TaskBuilder::<u32>::new());
    assert_eq!(task.handler.channel_count(), 1);
    assert_eq!(task.priorities, vec![0]);
    assert!(task.handler.has_channel(first));
    assert!(!task.handler.has_channel(second));
    task.handler.send(first, 1).unwrap();
    assert_eq!(task.receivers[0].try_recv(), Ok(1));
}

#[test]
fn control_passes_requests_until_it_is_closed() {
    let (mut control, mut requests) = Control::<u32>::open();
    control.submit(1).unwrap();
    assert_eq!(requests.try_recv(), Ok(1));
    control.close();
    assert!(matches!(control.submit(2), Err(SpawnError)));
    assert_eq!(requests.try_recv(), Err(TryRecvError::Disconnected));
}

#[test]
fn control_fails_when_the_reactor_is_gone() {
    let (control, requests) = Control::<u32>::open();
    drop(requests);
    assert!(matches!(control.submit(1), Err(SpawnError)));
}
