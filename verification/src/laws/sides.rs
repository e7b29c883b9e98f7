//! What becomes of a channel when it is made, when its sides grow and shrink,
//! and when it is closed, in terms of what it holds.

use crate::error::CloseError;
use crate::future::FutureState;
use crate::signal::{DynamicSignal, SignalView};
use crate::state::ChannelState;
use core::task::Waker;
use vstd::prelude::*;

verus! {

/// A new channel has one sender and one receiver, no message, nobody who waits,
/// and the capacity that it was made with.
pub proof fn law_new_channel_is_empty<T>(capacity: nat)
    ensures
        ({
            let s = ChannelState::<T>::initial(capacity);
            &&& s.capacity == capacity
            &&& s.queue.len() == 0
            &&& s.senders.len() == 0
            &&& s.receivers.len() == 0
            &&& s.signals.dom() == Set::<DynamicSignal>::empty()
            &&& s.send_count == 1
            &&& s.recv_count == 1
            &&& s.wakes.len() == 0
            &&& s.inv()
        }),
{
    ChannelState::<T>::lemma_initial_inv(capacity);
    assert(ChannelState::<T>::initial(capacity).signals.dom() =~= Set::<DynamicSignal>::empty());
}

/// What every channel keeps to. The queue holds no more than it may. Senders
/// wait only at a full queue, receivers only at an empty one, never both, and
/// nobody waits once a side is gone. Whoever waits has a signal with a waker, a
/// sender also with its message, and stands in line once; and whoever has a
/// signal that waits stands in line.
pub proof fn law_what_a_channel_keeps_to<T>(s: ChannelState<T>)
    requires
        s.inv(),
    ensures
        s.queue.len() <= s.capacity,
        s.senders.len() > 0 ==> s.queue.len() == s.capacity,
        s.receivers.len() > 0 ==> s.queue.len() == 0,
        s.senders.len() == 0 || s.receivers.len() == 0,
        s.send_count == 0 || s.recv_count == 0 ==> s.senders.len() == 0 && s.receivers.len() == 0,
        s.senders.no_duplicates(),
        s.receivers.no_duplicates(),
        forall|i: int|
            0 <= i < s.senders.len() ==> {
                let p = #[trigger] s.senders[i];
                &&& s.signals.dom().contains(p)
                &&& s.signals[p].state == FutureState::Pending
                &&& s.signals[p].data is Some
                &&& s.signals[p].waker is Some
            },
        forall|i: int|
            0 <= i < s.receivers.len() ==> {
                let p = #[trigger] s.receivers[i];
                &&& s.signals.dom().contains(p)
                &&& s.signals[p].state == FutureState::Pending
                &&& s.signals[p].data is None
                &&& s.signals[p].waker is Some
            },
        forall|p: DynamicSignal| #[trigger]
            s.signals.dom().contains(p) ==> {
                ||| s.signals[p].state == FutureState::Pending
                ||| s.signals[p].state == FutureState::Success
                ||| s.signals[p].state == FutureState::Failure
            },
        forall|p: DynamicSignal| #[trigger]
            s.signals.dom().contains(p) && s.signals[p].state == FutureState::Pending
                ==> s.senders.contains(p) || s.receivers.contains(p),
{
    assert forall|i: int| 0 <= i < s.senders.len() implies s.sender_waits(
        #[trigger] s.senders[i],
    ) by {}
    assert forall|i: int| 0 <= i < s.receivers.len() implies s.receiver_waits(
        #[trigger] s.receivers[i],
    ) by {}
}

/// Ending all waits empties both lines. The signal of everyone in line has
/// failed, with its message and its waker still there, and its task is to be
/// woken, in line. Nothing else changes.
pub proof fn law_ending_all_waits<T>(s: ChannelState<T>)
    ensures
        ({
            let t = s.terminated();
            &&& t.queue == s.queue
            &&& t.senders.len() == 0
            &&& t.receivers.len() == 0
            &&& t.capacity == s.capacity
            &&& t.send_count == s.send_count
            &&& t.recv_count == s.recv_count
            &&& t.signals.dom() == s.signals.dom()
            &&& forall|p: DynamicSignal| #[trigger]
                s.signals.dom().contains(p) ==> t.signals[p] == if s.senders.contains(p)
                    || s.receivers.contains(p) {
                    SignalView {
                        state: FutureState::Failure,
                        data: s.signals[p].data,
                        waker: s.signals[p].waker,
                    }
                } else {
                    s.signals[p]
                }
            &&& t.wakes.len() == s.wakes.len() + s.senders.len() + s.receivers.len()
            &&& forall|i: int| 0 <= i < s.wakes.len() ==> #[trigger] t.wakes[i] == s.wakes[i]
            &&& forall|i: int|
                0 <= i < s.senders.len() ==> t.wakes[s.wakes.len() + i] == s.signals[
                    #[trigger] s.senders[i]
                ].waker->0
            &&& forall|i: int|
                0 <= i < s.receivers.len() ==> t.wakes[s.wakes.len() + s.senders.len() + i]
                    == s.signals[#[trigger] s.receivers[i]].waker->0
        }),
{
    let t = s.terminated();
    let line = s.waiting();
    assert(t.signals.dom() =~= s.signals.dom());
    assert forall|p: DynamicSignal| #[trigger] line.contains(p) <==> s.senders.contains(p)
        || s.receivers.contains(p) by {
        if s.senders.contains(p) {
            assert(line[s.senders.index_of(p)] == p);
        }
        if s.receivers.contains(p) {
            assert(line[s.senders.len() + s.receivers.index_of(p)] == p);
        }
        if line.contains(p) {
            let k = line.index_of(p);
            if k < s.senders.len() {
                assert(s.senders[k] == p);
            } else {
                assert(s.receivers[k - s.senders.len()] == p);
            }
        }
    }
    assert forall|p: DynamicSignal| #[trigger] s.signals.dom().contains(p) implies t.signals[p]
        == if s.senders.contains(p) || s.receivers.contains(p) {
        SignalView {
            state: FutureState::Failure,
            data: s.signals[p].data,
            waker: s.signals[p].waker,
        }
    } else {
        s.signals[p]
    } by {
        assert(line.contains(p) <==> s.senders.contains(p) || s.receivers.contains(p));
    }
    assert forall|i: int| 0 <= i < s.senders.len() implies t.wakes[s.wakes.len() + i] == s.signals[
        #[trigger] s.senders[i]
    ].waker->0 by {
        assert(line[i] == s.senders[i]);
    }
    assert forall|i: int| 0 <= i < s.receivers.len() implies t.wakes[s.wakes.len() + s.senders.len()
        + i] == s.signals[#[trigger] s.receivers[i]].waker->0 by {
        assert(line[s.senders.len() + i] == s.receivers[i]);
    }
}

/// Closing succeeds exactly if some sender or some receiver is alive. Then both
/// sides are gone, all waits are ended and the queue is empty. Else nothing has
/// changed.
pub proof fn law_closing_outcome<T>(s: ChannelState<T>)
    ensures
        s.close().1 == Ok::<(), CloseError>(()) <==> s.send_count > 0 || s.recv_count > 0,
        s.close().1 == Err::<(), CloseError>(CloseError()) <==> s.send_count == 0 && s.recv_count
            == 0,
        s.close().1 is Ok ==> s.close().0 == (ChannelState {
            send_count: 0,
            recv_count: 0,
            queue: Seq::empty(),
            ..s.terminated()
        }),
        s.close().1 is Err ==> s.close().0 == s,
        s.is_closed() <==> s.send_count == 0 && s.recv_count == 0,
        s.close().0.is_closed(),
{
}

/// One more sender or receiver counts one more on its side and changes nothing
/// else, unless that side is gone, which it then stays.
pub proof fn law_one_more_counts<T>(s: ChannelState<T>)
    ensures
        s.send_count > 0 ==> s.sender_cloned() == (ChannelState {
            send_count: s.send_count + 1,
            ..s
        }),
        s.recv_count > 0 ==> s.receiver_cloned() == (ChannelState {
            recv_count: s.recv_count + 1,
            ..s
        }),
        s.send_count == 0 ==> s.sender_cloned() == s,
        s.recv_count == 0 ==> s.receiver_cloned() == s,
{
}

/// One sender or receiver less counts one less on its side. If it was the last
/// one, all waits are ended, while the queue and the other side stay. Nothing
/// else changes.
pub proof fn law_one_less_counts<T>(s: ChannelState<T>)
    ensures
        s.send_count > 1 ==> s.sender_dropped() == (ChannelState {
            send_count: (s.send_count - 1) as nat,
            ..s
        }),
        s.recv_count > 1 ==> s.receiver_dropped() == (ChannelState {
            recv_count: (s.recv_count - 1) as nat,
            ..s
        }),
        s.send_count == 1 ==> s.sender_dropped() == (ChannelState {
            send_count: 0,
            ..s.terminated()
        }),
        s.recv_count == 1 ==> s.receiver_dropped() == (ChannelState {
            recv_count: 0,
            ..s.terminated()
        }),
        s.send_count == 0 ==> s.sender_dropped() == s,
        s.recv_count == 0 ==> s.receiver_dropped() == s,
{
}

/// Handing out the wakers of those to be woken leaves none of them behind, and
/// changes nothing else.
pub proof fn law_wakes_are_handed_out_once<T>(s: ChannelState<T>)
    ensures
        s.wakes_taken() == (ChannelState { wakes: Seq::<Waker>::empty(), ..s }),
{
}

} // verus!
