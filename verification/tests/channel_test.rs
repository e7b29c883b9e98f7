use kanal::error::{CloseError, ReceiveError, SendError, SendTimeoutError};
use kanal::future::Poll;
use kanal::{bounded_async, unbounded_async};
use std::collections::VecDeque;
use std::sync::atomic::{AtomicUsize, Ordering};
use std::sync::Arc;
use std::task::{Wake, Waker};

/// Counts how often it was woken.
struct Bell(AtomicUsize);

impl Wake for Bell {
    fn wake(self: Arc<Self>) {
        self.0.fetch_add(1, Ordering::SeqCst);
    }
}

impl Bell {
    fn new() -> Arc<Bell> {
        Arc::new(Bell(AtomicUsize::new(0)))
    }

    fn rung(&self) -> usize {
        self.0.load(Ordering::SeqCst)
    }
}

fn waker(bell: &Arc<Bell>) -> Waker {
    Waker::from(bell.clone())
}

fn silent() -> Waker {
    waker(&Bell::new())
}

#[test]
fn bounded_is_bounded() {
    let (s, r, _state) = bounded_async::<u64>(0);
    assert!(s.is_bounded());
    assert!(r.is_bounded());
    assert_eq!(s.capacity(), 0);
    assert_eq!(r.capacity(), 0);
    let (s, r, _state) = bounded_async::<u64>(7);
    assert!(s.is_bounded());
    assert_eq!(s.capacity(), 7);
    assert_eq!(r.capacity(), 7);
}

#[test]
fn unbounded_is_not_bounded() {
    let (s, r, state) = unbounded_async::<u64>();
    assert!(!s.is_bounded());
    assert!(!r.is_bounded());
    assert_eq!(s.capacity(), usize::MAX);
    assert_eq!(r.capacity(), usize::MAX);
    assert!(s.is_empty(&state));
    assert!(r.is_empty(&state));
    assert!(!r.is_full(&state));
}

#[test]
fn new_channel() {
    let (s, r, state) = bounded_async::<u64>(3);
    assert_eq!(s.len(&state), 0);
    assert_eq!(r.len(&state), 0);
    assert_eq!(s.sender_count(&state), 1);
    assert_eq!(s.receiver_count(&state), 1);
    assert!(!s.is_closed(&state));
    assert!(!s.is_disconnected(&state));
    assert!(!r.is_disconnected(&state));
    assert!(!r.is_terminated(&state));
}

#[test]
fn huge_bound_needs_no_memory() {
    let (s, r, mut state) = bounded_async::<u64>(usize::MAX - 1);
    assert!(s.is_bounded());
    assert_eq!(s.try_send(&mut state, 3), Ok(()));
    assert_eq!(r.try_recv(&mut state), Ok(Some(3)));
}

#[test]
fn debug_texts() {
    let (s, r, _state) = bounded_async::<u64>(3);
    assert_eq!(s.debug_text(), "AsyncSender { .. }");
    assert_eq!(r.debug_text(), "AsyncReceiver { .. }");
}

#[test]
fn try_send_fills_the_queue_and_no_more() {
    let (s, r, mut state) = bounded_async(2);
    assert_eq!(s.try_send(&mut state, 1), Ok(()));
    assert!(!s.is_full(&state));
    assert_eq!(s.try_send(&mut state, 2), Ok(()));
    assert!(s.is_full(&state));
    assert!(r.is_full(&state));
    assert_eq!(s.len(&state), 2);
    assert_eq!(
        s.try_send(&mut state, 3),
        Err(SendTimeoutError::Timeout(3))
    );
    assert_eq!(r.try_recv(&mut state), Ok(Some(1)));
    assert_eq!(s.try_send(&mut state, 4), Ok(()));
    assert_eq!(r.try_recv(&mut state), Ok(Some(2)));
    assert_eq!(r.try_recv(&mut state), Ok(Some(4)));
    assert_eq!(r.try_recv(&mut state), Ok(None));
}

#[test]
fn without_queue_only_a_waiting_receiver_takes() {
    let (s, r, mut state) = bounded_async(0);
    assert!(s.is_full(&state));
    assert!(s.is_empty(&state));
    assert_eq!(
        s.try_send(&mut state, 1),
        Err(SendTimeoutError::Timeout(1))
    );
    let bell = Bell::new();
    let mut f = r.recv();
    assert_eq!(f.poll(&mut state, waker(&bell)), Poll::Pending);
    assert_eq!(s.try_send(&mut state, 2), Ok(()));
    assert!(s.is_full(&state));
    for w in state.take_wakes() {
        w.wake();
    }
    assert_eq!(bell.rung(), 1);
    assert_eq!(f.poll(&mut state, waker(&bell)), Poll::Ready(Ok(2)));
    f.drop(&mut state);
    assert_eq!(state.take_wakes().len(), 0);
}

#[test]
fn try_send_to_a_channel_without_receivers() {
    let (s, r, mut state) = bounded_async(2);
    r.drop(&mut state);
    assert!(s.is_disconnected(&state));
    assert_eq!(s.receiver_count(&state), 0);
    assert_eq!(s.try_send(&mut state, 1), Err(SendTimeoutError::Closed(1)));
    assert!(!s.is_closed(&state));
    s.drop(&mut state);
}

#[test]
fn try_recv_from_a_channel_without_senders() {
    let (s, r, mut state) = bounded_async(2);
    assert_eq!(s.try_send(&mut state, 1), Ok(()));
    assert_eq!(s.try_send(&mut state, 2), Ok(()));
    s.drop(&mut state);
    assert!(r.is_disconnected(&state));
    assert!(!r.is_terminated(&state));
    assert_eq!(r.try_recv(&mut state), Ok(Some(1)));
    assert_eq!(r.try_recv(&mut state), Ok(Some(2)));
    assert!(r.is_terminated(&state));
    assert_eq!(r.try_recv(&mut state), Err(ReceiveError()));
    assert_eq!(r.try_recv(&mut state), Err(ReceiveError()));
}

#[test]
fn closing_twice() {
    let (s, r, mut state) = bounded_async(2);
    assert_eq!(s.try_send(&mut state, 1), Ok(()));
    assert_eq!(s.close(&mut state), Ok(()));
    assert!(s.is_closed(&state));
    assert!(r.is_closed(&state));
    assert_eq!(s.len(&state), 0);
    assert_eq!(r.close(&mut state), Err(CloseError()));
    assert_eq!(s.close(&mut state), Err(CloseError()));
    assert_eq!(s.try_send(&mut state, 2), Err(SendTimeoutError::Closed(2)));
    assert_eq!(r.try_recv(&mut state), Err(ReceiveError()));
    let mut v = vec![9];
    assert_eq!(r.drain_into(&mut state, &mut v), Err(ReceiveError()));
    assert_eq!(v, vec![9]);
    let s2 = s.clone(&mut state);
    assert!(s.is_closed(&state));
    s2.drop(&mut state);
    assert!(s.is_closed(&state));
}

#[test]
fn closing_a_half_closed_channel() {
    let (s, r, mut state) = bounded_async(2);
    assert_eq!(s.try_send(&mut state, 1), Ok(()));
    s.drop(&mut state);
    assert_eq!(r.close(&mut state), Ok(()));
    assert_eq!(r.try_recv(&mut state), Err(ReceiveError()));
}

#[test]
fn handles_are_counted() {
    let (s, r, mut state) = bounded_async::<u8>(2);
    let s2 = s.clone(&mut state);
    let s3 = s2.clone(&mut state);
    let r2 = r.clone(&mut state);
    assert_eq!(s3.capacity(), 2);
    assert_eq!(r2.capacity(), 2);
    assert_eq!(s.sender_count(&state), 3);
    assert_eq!(r.receiver_count(&state), 2);
    s3.drop(&mut state);
    assert_eq!(s.sender_count(&state), 2);
    s.drop(&mut state);
    s2.drop(&mut state);
    assert_eq!(r.sender_count(&state), 0);
    assert_eq!(r.receiver_count(&state), 2);
    r.drop(&mut state);
    assert!(!r2.is_closed(&state));
    assert_eq!(r2.try_recv(&mut state), Err(ReceiveError()));
    r2.drop(&mut state);
}

#[test]
fn both_sides_dropped_is_closed() {
    let (s, r, mut state) = bounded_async::<u8>(2);
    let (s2, _r2, _state2) = bounded_async::<u8>(2);
    s.drop(&mut state);
    r.drop(&mut state);
    assert!(s2.is_closed(&state));
    assert_eq!(s2.close(&mut state), Err(CloseError()));
}

#[test]
fn drain_takes_queue_and_waiting_senders_in_order() {
    let (s, r, mut state) = bounded_async(2);
    let bell = Bell::new();
    assert_eq!(s.try_send(&mut state, 1), Ok(()));
    assert_eq!(s.try_send(&mut state, 2), Ok(()));
    let mut f = s.send(3);
    let mut g = s.send(4);
    assert_eq!(f.poll(&mut state, waker(&bell)), Poll::Pending);
    assert_eq!(g.poll(&mut state, waker(&bell)), Poll::Pending);
    assert_eq!(state.available(), Some(4));
    let mut v = vec![0];
    assert_eq!(r.drain_into(&mut state, &mut v), Ok(4));
    assert_eq!(v, vec![0, 1, 2, 3, 4]);
    for w in state.take_wakes() {
        w.wake();
    }
    assert_eq!(bell.rung(), 2);
    assert_eq!(f.poll(&mut state, silent()), Poll::Ready(Ok(())));
    assert_eq!(g.poll(&mut state, silent()), Poll::Ready(Ok(())));
    assert_eq!(r.drain_into(&mut state, &mut v), Ok(0));
    assert_eq!(v.len(), 5);
    f.drop(&mut state);
    g.drop(&mut state);
}

#[test]
fn drain_with_waiting_receivers() {
    let (s, r, mut state) = bounded_async::<u8>(2);
    let mut f = r.recv();
    assert_eq!(f.poll(&mut state, silent()), Poll::Pending);
    let mut v = Vec::new();
    assert_eq!(r.drain_into(&mut state, &mut v), Ok(0));
    assert_eq!(s.try_send(&mut state, 8), Ok(()));
    assert_eq!(f.poll(&mut state, silent()), Poll::Ready(Ok(8)));
    s.drop(&mut state);
    assert_eq!(r.drain_into(&mut state, &mut v), Ok(0));
}

#[test]
fn receiving_makes_room_for_the_first_waiting_sender() {
    let (s, r, mut state) = bounded_async(1);
    let (b1, b2) = (Bell::new(), Bell::new());
    assert_eq!(s.try_send(&mut state, 1), Ok(()));
    let mut f = s.send(2);
    let mut g = s.send(3);
    assert_eq!(f.poll(&mut state, waker(&b1)), Poll::Pending);
    assert_eq!(g.poll(&mut state, waker(&b2)), Poll::Pending);
    assert_eq!(r.try_recv(&mut state), Ok(Some(1)));
    for w in state.take_wakes() {
        w.wake();
    }
    assert_eq!((b1.rung(), b2.rung()), (1, 0));
    assert!(r.is_full(&state));
    assert_eq!(f.poll(&mut state, waker(&b1)), Poll::Ready(Ok(())));
    assert_eq!(g.poll(&mut state, waker(&b2)), Poll::Pending);
    assert_eq!(r.try_recv(&mut state), Ok(Some(2)));
    assert_eq!(r.try_recv(&mut state), Ok(Some(3)));
    assert_eq!(g.poll(&mut state, waker(&b2)), Poll::Ready(Ok(())));
    assert_eq!(r.try_recv(&mut state), Ok(None));
}

#[test]
fn waiting_receivers_are_served_in_order() {
    let (s, r, mut state) = bounded_async(5);
    let mut f = r.recv();
    let mut g = r.recv();
    assert_eq!(f.poll(&mut state, silent()), Poll::Pending);
    assert_eq!(g.poll(&mut state, silent()), Poll::Pending);
    assert_eq!(s.try_send(&mut state, 1), Ok(()));
    assert_eq!(s.try_send(&mut state, 2), Ok(()));
    assert_eq!(s.try_send(&mut state, 3), Ok(()));
    assert_eq!(s.len(&state), 1);
    assert_eq!(g.poll(&mut state, silent()), Poll::Ready(Ok(2)));
    assert_eq!(f.poll(&mut state, silent()), Poll::Ready(Ok(1)));
    assert_eq!(r.try_recv(&mut state), Ok(Some(3)));
}

#[test]
fn waiting_send_fails_when_the_last_receiver_goes() {
    let (s, r, mut state) = bounded_async(0);
    let bell = Bell::new();
    let mut f = s.send(6);
    assert_eq!(f.poll(&mut state, waker(&bell)), Poll::Pending);
    r.drop(&mut state);
    for w in state.take_wakes() {
        w.wake();
    }
    assert_eq!(bell.rung(), 1);
    assert_eq!(
        f.poll(&mut state, silent()),
        Poll::Ready(Err(SendError(6)))
    );
}

#[test]
fn waiting_receive_fails_when_the_last_sender_goes() {
    let (s, r, mut state) = bounded_async::<u8>(0);
    let s2 = s.clone(&mut state);
    let mut f = r.recv();
    assert_eq!(f.poll(&mut state, silent()), Poll::Pending);
    s.drop(&mut state);
    assert_eq!(f.poll(&mut state, silent()), Poll::Pending);
    s2.drop(&mut state);
    assert_eq!(
        f.poll(&mut state, silent()),
        Poll::Ready(Err(ReceiveError()))
    );
}

#[test]
fn closing_fails_all_who_wait() {
    let (s, r, mut state) = bounded_async(0);
    let bell = Bell::new();
    let mut f = s.send(1);
    let mut g = s.send(2);
    assert_eq!(f.poll(&mut state, waker(&bell)), Poll::Pending);
    assert_eq!(g.poll(&mut state, waker(&bell)), Poll::Pending);
    assert_eq!(r.close(&mut state), Ok(()));
    let wakes = state.take_wakes();
    assert_eq!(wakes.len(), 2);
    for w in wakes {
        w.wake();
    }
    assert_eq!(bell.rung(), 2);
    assert_eq!(f.poll(&mut state, silent()), Poll::Ready(Err(SendError(1))));
    assert_eq!(g.poll(&mut state, silent()), Poll::Ready(Err(SendError(2))));
}

#[test]
fn a_waiting_sender_that_is_given_up_leaves_no_trace() {
    let (s, r, mut state) = bounded_async(0);
    let mut f = s.send(1);
    let mut g = s.send(2);
    let mut h = s.send(3);
    assert_eq!(f.poll(&mut state, silent()), Poll::Pending);
    assert_eq!(g.poll(&mut state, silent()), Poll::Pending);
    assert_eq!(h.poll(&mut state, silent()), Poll::Pending);
    g.drop(&mut state);
    assert_eq!(r.try_recv(&mut state), Ok(Some(1)));
    assert_eq!(r.try_recv(&mut state), Ok(Some(3)));
    assert_eq!(r.try_recv(&mut state), Ok(None));
    assert_eq!(f.poll(&mut state, silent()), Poll::Ready(Ok(())));
    assert_eq!(h.poll(&mut state, silent()), Poll::Ready(Ok(())));
}

#[test]
fn a_waiting_receiver_that_is_given_up_gets_nothing() {
    let (s, r, mut state) = bounded_async(1);
    let mut f = r.recv();
    assert_eq!(f.poll(&mut state, silent()), Poll::Pending);
    f.drop(&mut state);
    assert_eq!(s.try_send(&mut state, 1), Ok(()));
    assert_eq!(s.len(&state), 1);
    assert_eq!(r.try_recv(&mut state), Ok(Some(1)));
}

#[test]
fn a_message_given_to_a_receiver_that_is_given_up_is_lost() {
    let (s, r, mut state) = bounded_async(1);
    let mut f = r.recv();
    assert_eq!(f.poll(&mut state, silent()), Poll::Pending);
    assert_eq!(s.try_send(&mut state, 1), Ok(()));
    f.drop(&mut state);
    assert_eq!(r.try_recv(&mut state), Ok(None));
}

#[test]
fn the_waker_of_the_latest_poll_is_woken() {
    let (s, r, mut state) = bounded_async(0);
    let (b1, b2) = (Bell::new(), Bell::new());
    let mut f = r.recv();
    assert_eq!(f.poll(&mut state, waker(&b1)), Poll::Pending);
    assert_eq!(f.poll(&mut state, waker(&b2)), Poll::Pending);
    assert_eq!(s.try_send(&mut state, 1), Ok(()));
    for w in state.take_wakes() {
        w.wake();
    }
    assert_eq!((b1.rung(), b2.rung()), (0, 1));
    assert_eq!(f.poll(&mut state, waker(&b2)), Poll::Ready(Ok(1)));
}

#[test]
fn polling_again_with_the_same_waker_wakes_once() {
    let (s, r, mut state) = bounded_async(0);
    let bell = Bell::new();
    let mut f = s.send(4);
    assert_eq!(f.poll(&mut state, waker(&bell)), Poll::Pending);
    assert_eq!(f.poll(&mut state, waker(&bell)), Poll::Pending);
    assert_eq!(r.try_recv(&mut state), Ok(Some(4)));
    for w in state.take_wakes() {
        w.wake();
    }
    assert_eq!(bell.rung(), 1);
    assert_eq!(f.poll(&mut state, waker(&bell)), Poll::Ready(Ok(())));
}

#[test]
fn send_many_fills_receivers_then_queue_then_waits() {
    let (s, r, mut state) = bounded_async(2);
    let mut f = r.recv();
    assert_eq!(f.poll(&mut state, silent()), Poll::Pending);
    let mut msgs: VecDeque<u8> = (1..=5).collect();
    let mut many = s.send_many(&mut msgs);
    assert_eq!(many.poll(&mut state, silent()), Poll::Pending);
    assert_eq!(s.len(&state), 2);
    assert_eq!(f.poll(&mut state, silent()), Poll::Ready(Ok(1)));
    assert_eq!(r.try_recv(&mut state), Ok(Some(2)));
    assert_eq!(many.poll(&mut state, silent()), Poll::Pending);
    assert_eq!(r.try_recv(&mut state), Ok(Some(3)));
    assert_eq!(many.poll(&mut state, silent()), Poll::Ready(Ok(())));
    many.drop(&mut state);
    assert!(msgs.is_empty());
    assert_eq!(r.try_recv(&mut state), Ok(Some(4)));
    assert_eq!(r.try_recv(&mut state), Ok(Some(5)));
    assert_eq!(r.try_recv(&mut state), Ok(None));
}

#[test]
fn send_many_of_nothing() {
    let (s, r, mut state) = bounded_async::<u8>(0);
    let mut msgs = VecDeque::new();
    let mut many = s.send_many(&mut msgs);
    assert_eq!(many.poll(&mut state, silent()), Poll::Ready(Ok(())));
    many.drop(&mut state);
    assert_eq!(r.close(&mut state), Ok(()));
    let mut many = s.send_many(&mut msgs);
    assert_eq!(many.poll(&mut state, silent()), Poll::Ready(Ok(())));
}

#[test]
fn send_many_to_a_closed_channel() {
    let (s, r, mut state) = bounded_async(1);
    assert_eq!(r.close(&mut state), Ok(()));
    let mut msgs: VecDeque<u8> = (1..=3).collect();
    let mut many = s.send_many(&mut msgs);
    assert_eq!(
        many.poll(&mut state, silent()),
        Poll::Ready(Err(SendError(1)))
    );
    many.drop(&mut state);
    assert_eq!(msgs, VecDeque::from(vec![2, 3]));
}

#[test]
fn send_many_that_waits_when_the_channel_is_closed() {
    let (s, r, mut state) = bounded_async(1);
    let mut msgs: VecDeque<u8> = (1..=3).collect();
    let mut many = s.send_many(&mut msgs);
    assert_eq!(many.poll(&mut state, silent()), Poll::Pending);
    assert_eq!(many.poll(&mut state, silent()), Poll::Pending);
    assert_eq!(r.close(&mut state), Ok(()));
    assert_eq!(
        many.poll(&mut state, silent()),
        Poll::Ready(Err(SendError(2)))
    );
    many.drop(&mut state);
    assert_eq!(msgs, VecDeque::from(vec![3]));
}

#[test]
fn send_many_that_is_given_up() {
    let (s, r, mut state) = bounded_async(1);
    let mut msgs: VecDeque<u8> = (1..=3).collect();
    let mut many = s.send_many(&mut msgs);
    assert_eq!(many.poll(&mut state, silent()), Poll::Pending);
    many.drop(&mut state);
    assert_eq!(msgs, VecDeque::from(vec![3]));
    assert_eq!(r.try_recv(&mut state), Ok(Some(1)));
    assert_eq!(r.try_recv(&mut state), Ok(None));
}

#[test]
fn realtime_with_and_without_access() {
    let (s, r, mut state) = bounded_async(1);
    assert_eq!(
        s.try_send_realtime(None, 1),
        Err(SendTimeoutError::Timeout(1))
    );
    assert_eq!(r.try_recv_realtime(None), Ok(None));
    assert_eq!(s.try_send_realtime(Some(&mut state), 2), Ok(()));
    assert_eq!(
        s.try_send_realtime(Some(&mut state), 3),
        Err(SendTimeoutError::Timeout(3))
    );
    assert_eq!(r.try_recv_realtime(Some(&mut state)), Ok(Some(2)));
    assert_eq!(r.try_recv_realtime(Some(&mut state)), Ok(None));
    assert_eq!(r.close(&mut state), Ok(()));
    assert_eq!(
        s.try_send_realtime(Some(&mut state), 4),
        Err(SendTimeoutError::Closed(4))
    );
    assert_eq!(r.try_recv_realtime(Some(&mut state)), Err(ReceiveError()));
}

#[test]
fn stream_ends_for_good() {
    let (s, r, mut state) = bounded_async(2);
    assert_eq!(s.try_send(&mut state, 1), Ok(()));
    let mut stream = r.stream();
    assert_eq!(stream.poll_next(&mut state, silent()), Poll::Ready(Some(1)));
    assert_eq!(stream.poll_next(&mut state, silent()), Poll::Pending);
    assert_eq!(s.try_send(&mut state, 2), Ok(()));
    assert_eq!(stream.poll_next(&mut state, silent()), Poll::Ready(Some(2)));
    assert!(!stream.is_terminated());
    s.drop(&mut state);
    assert_eq!(stream.poll_next(&mut state, silent()), Poll::Ready(None));
    assert!(stream.is_terminated());
    assert_eq!(stream.poll_next(&mut state, silent()), Poll::Ready(None));
    stream.drop(&mut state);
    assert!(r.is_terminated(&state));
}

#[test]
fn first_in_first_out_through_every_way() {
    let (s, r, mut state) = bounded_async(2);
    let mut got = Vec::new();
    let mut waiting = r.recv();
    assert_eq!(waiting.poll(&mut state, silent()), Poll::Pending);
    assert_eq!(s.try_send(&mut state, 1), Ok(()));
    if let Poll::Ready(Ok(v)) = waiting.poll(&mut state, silent()) {
        got.push(v);
    }
    let mut msgs: VecDeque<u8> = (2..=4).collect();
    let mut many = s.send_many(&mut msgs);
    assert_eq!(many.poll(&mut state, silent()), Poll::Pending);
    let mut f = s.send(5);
    assert_eq!(f.poll(&mut state, silent()), Poll::Pending);
    if let Ok(Some(v)) = r.try_recv(&mut state) {
        got.push(v);
    }
    let mut stream = r.stream();
    if let Poll::Ready(Some(v)) = stream.poll_next(&mut state, silent()) {
        got.push(v);
    }
    assert_eq!(r.drain_into(&mut state, &mut got), Ok(2));
    assert_eq!(got, vec![1, 2, 3, 4, 5]);
}

#[test]
fn references_are_used_again() {
    let (s, r, mut state) = bounded_async(0);
    for round in 0..1000u32 {
        let mut f = s.send(round);
        assert_eq!(f.poll(&mut state, silent()), Poll::Pending);
        let mut g = r.recv();
        assert_eq!(g.poll(&mut state, silent()), Poll::Ready(Ok(round)));
        assert_eq!(f.poll(&mut state, silent()), Poll::Ready(Ok(())));
        assert_eq!(state.take_wakes().len(), 1);
        f.drop(&mut state);
        g.drop(&mut state);
    }
}

#[test]
fn draining_is_receiving_all() {
    let (s, r, mut state) = bounded_async(2);
    let (s2, r2, mut state2) = bounded_async(2);
    let mut f = s.send(3);
    let mut f2 = s2.send(3);
    for i in 1..=2 {
        assert_eq!(s.try_send(&mut state, i), Ok(()));
        assert_eq!(s2.try_send(&mut state2, i), Ok(()));
    }
    assert_eq!(f.poll(&mut state, silent()), Poll::Pending);
    assert_eq!(f2.poll(&mut state2, silent()), Poll::Pending);
    let mut drained = Vec::new();
    assert_eq!(r.drain_into(&mut state, &mut drained), Ok(3));
    let mut received = Vec::new();
    while let Ok(Some(v)) = r2.try_recv(&mut state2) {
        received.push(v);
    }
    assert_eq!(drained, received);
    assert_eq!(received, vec![1, 2, 3]);
    assert_eq!(state.take_wakes().len(), state2.take_wakes().len());
    assert_eq!(r.len(&state), r2.len(&state2));
}

#[test]
fn an_unbounded_channel_never_makes_a_sender_wait() {
    let (s, r, mut state) = unbounded_async();
    for i in 0..10_000u32 {
        let mut f = s.send(i);
        assert_eq!(f.poll(&mut state, silent()), Poll::Ready(Ok(())));
        f.drop(&mut state);
    }
    assert_eq!(s.len(&state), 10_000);
    assert!(!s.is_full(&state));
    for i in 0..10_000u32 {
        assert_eq!(r.try_recv(&mut state), Ok(Some(i)));
    }
    assert!(r.is_empty(&state));
}

#[test]
fn what_does_not_wait_puts_nobody_in_line() {
    let (s, r, mut state) = bounded_async(0);
    assert_eq!(
        s.try_send(&mut state, 1),
        Err(SendTimeoutError::Timeout(1))
    );
    assert_eq!(r.try_recv(&mut state), Ok(None));
    assert_eq!(
        s.try_send(&mut state, 2),
        Err(SendTimeoutError::Timeout(2))
    );
    assert_eq!(r.try_recv(&mut state), Ok(None));
}

#[test]
fn as_many_receives_as_sends_in_the_order_of_their_begin() {
    for capacity in 0..4 {
        let (s1, r1, mut state) = bounded_async(capacity);
        let s2 = s1.clone(&mut state);
        let r2 = r1.clone(&mut state);
        // two receives wait before anything is sent
        let mut a = r1.recv();
        let mut b = r2.recv();
        assert_eq!(a.poll(&mut state, silent()), Poll::Pending);
        assert_eq!(b.poll(&mut state, silent()), Poll::Pending);
        let mut sends: Vec<_> = (0..5u64)
            .map(|i| if i % 2 == 0 { s1.send(i) } else { s2.send(i) })
            .collect();
        let mut sent = [false; 5];
        for (f, done) in sends.iter_mut().zip(sent.iter_mut()) {
            *done = f.poll(&mut state, silent()) == Poll::Ready(Ok(()));
        }
        let mut c = r1.recv();
        let mut d = r2.recv();
        let mut e = r1.recv();
        // what a receive gives goes by when it was begun, not by when it ends
        assert_eq!(c.poll(&mut state, silent()), Poll::Ready(Ok(2)));
        assert_eq!(b.poll(&mut state, silent()), Poll::Ready(Ok(1)));
        assert_eq!(d.poll(&mut state, silent()), Poll::Ready(Ok(3)));
        assert_eq!(a.poll(&mut state, silent()), Poll::Ready(Ok(0)));
        assert_eq!(e.poll(&mut state, silent()), Poll::Ready(Ok(4)));
        for (f, done) in sends.iter_mut().zip(sent) {
            if !done {
                assert_eq!(f.poll(&mut state, silent()), Poll::Ready(Ok(())));
            }
        }
        assert_eq!(r1.try_recv(&mut state), Ok(None));
    }
}

#[test]
fn send_many_over_all_its_polls() {
    for capacity in 0..7 {
        let (s, r, mut state) = bounded_async(capacity);
        let mut messages: VecDeque<u64> = (0..6).collect();
        let mut got = Vec::new();
        let mut f = s.send_many(&mut messages);
        while f.poll(&mut state, silent()) == Poll::Pending {
            let mut g = r.recv();
            match g.poll(&mut state, silent()) {
                Poll::Ready(Ok(data)) => got.push(data),
                other => panic!("unexpected {:?}", other),
            }
        }
        f.drop(&mut state);
        assert!(messages.is_empty());
        assert_eq!(r.drain_into(&mut state, &mut got), Ok(capacity.min(6)));
        assert_eq!(got, [0, 1, 2, 3, 4, 5]);
    }
}

#[test]
fn a_send_of_many_wakes_at_every_wait() {
    let (s, r, mut state) = bounded_async(0);
    let bell = Bell::new();
    let mut messages: VecDeque<u64> = (0..3).collect();
    let mut f = s.send_many(&mut messages);
    for i in 0..3 {
        assert_eq!(f.poll(&mut state, waker(&bell)), Poll::Pending);
        assert_eq!(r.try_recv(&mut state), Ok(Some(i)));
        for w in state.take_wakes() {
            w.wake();
        }
        assert_eq!(bell.rung(), i as usize + 1);
    }
    assert_eq!(f.poll(&mut state, waker(&bell)), Poll::Ready(Ok(())));
}

#[test]
fn what_is_sent_is_received_though_the_senders_go() {
    for capacity in 0..4 {
        let (s, r, mut state) = bounded_async(capacity);
        let s2 = s.clone(&mut state);
        let mut a = r.recv();
        let mut b = r.recv();
        assert_eq!(a.poll(&mut state, silent()), Poll::Pending);
        assert_eq!(b.poll(&mut state, silent()), Poll::Pending);
        let mut messages: VecDeque<u64> = (0..2 + capacity as u64).collect();
        let mut f = s.send_many(&mut messages);
        assert_eq!(f.poll(&mut state, silent()), Poll::Ready(Ok(())));
        f.drop(&mut state);
        s.drop(&mut state);
        s2.drop(&mut state);
        assert_eq!(state.send_count(), 0);
        // the outcomes that were not collected yet, then the queue, then the end
        assert_eq!(b.poll(&mut state, silent()), Poll::Ready(Ok(1)));
        assert_eq!(a.poll(&mut state, silent()), Poll::Ready(Ok(0)));
        for i in 2..2 + capacity as u64 {
            let mut c = r.recv();
            assert_eq!(c.poll(&mut state, silent()), Poll::Ready(Ok(i)));
        }
        let mut d = r.recv();
        assert_eq!(
            d.poll(&mut state, silent()),
            Poll::Ready(Err(ReceiveError()))
        );
    }
}

#[test]
fn a_receive_without_a_message_fails_when_the_senders_go() {
    let (s, r, mut state) = bounded_async(1);
    let mut a = r.recv();
    let mut b = r.recv();
    assert_eq!(a.poll(&mut state, silent()), Poll::Pending);
    assert_eq!(b.poll(&mut state, silent()), Poll::Pending);
    assert_eq!(s.try_send(&mut state, 9), Ok(()));
    s.drop(&mut state);
    assert_eq!(
        b.poll(&mut state, silent()),
        Poll::Ready(Err(ReceiveError()))
    );
    assert_eq!(a.poll(&mut state, silent()), Poll::Ready(Ok(9)));
}
