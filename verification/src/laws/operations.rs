//! What single operations do, and what undoes what.

use crate::error::{ReceiveError, SendTimeoutError};
use crate::laws::order::law_step_keeps_order;
use crate::laws::steps::Step;
use crate::signal::DynamicSignal;
use crate::state::ChannelState;
use vstd::prelude::*;

verus! {

/// A send that does not wait succeeds exactly if the message need not wait.
/// Otherwise the message comes back and nothing has changed.
pub proof fn law_refused_send_changes_nothing<T>(s: ChannelState<T>, data: T)
    ensures
        s.try_send(data).1 is Ok <==> s.accepts(),
        s.try_send(data).1 is Err ==> {
            &&& s.try_send(data).0 == s
            &&& s.try_send(data).1 == if s.recv_count == 0 {
                Err::<(), SendTimeoutError<T>>(SendTimeoutError::Closed(data))
            } else {
                Err::<(), SendTimeoutError<T>>(SendTimeoutError::Timeout(data))
            }
        },
{
}

/// What does not wait puts nobody in line: those who wait afterwards are those
/// who waited before, without some from the front.
pub proof fn law_try_never_waits<T>(s: ChannelState<T>, data: T)
    ensures
        s.try_send(data).0.senders == s.senders,
        s.try_send(data).0.receivers.is_suffix_of(s.receivers),
        s.try_recv().0.senders.is_suffix_of(s.senders),
        s.try_recv().0.receivers == s.receivers,
        s.drained().senders.len() == 0,
        s.drained().receivers == s.receivers,
{
}

/// Receiving undoes sending: a message that goes into an empty queue is the
/// next to be received, and then the channel is as before.
pub proof fn law_receive_undoes_send<T>(s: ChannelState<T>, data: T)
    requires
        s.inv(),
        s.accepts(),
        s.receivers.len() == 0,
        s.queue.len() == 0,
    ensures
        s.try_send(data).1 == Ok::<(), SendTimeoutError<T>>(()),
        s.try_send(data).0.try_recv() == (s, Ok::<Option<T>, ReceiveError>(Some(data))),
{
    let (next, r) = s.try_send(data);
    assert(next.queue.drop_first() =~= s.queue);
}

/// Without room in the queue for any message, a send that does not wait
/// succeeds exactly if a receiver waits, and the queue is empty and full at all
/// times.
pub proof fn law_without_queue<T>(s: ChannelState<T>, data: T)
    requires
        s.inv(),
        s.capacity == 0,
    ensures
        s.try_send(data).1 is Ok <==> s.receivers.len() > 0,
        s.queue.len() == 0,
        s.queue.len() == s.capacity,
{
}

/// One more sender and then one less is as before, and so with receivers.
pub proof fn law_drop_undoes_clone<T>(s: ChannelState<T>)
    ensures
        s.send_count > 0 ==> s.sender_cloned().sender_dropped() == s,
        s.recv_count > 0 ==> s.receiver_cloned().receiver_dropped() == s,
{
}

/// How many messages can be sent before one has to wait.
pub open spec fn room<T>(s: ChannelState<T>) -> nat {
    if s.recv_count == 0 {
        0
    } else {
        (s.receivers.len() + s.capacity - s.queue.len()) as nat
    }
}

/// The smaller of two numbers.
pub open spec fn at_most(a: nat, b: nat) -> nat {
    if a < b {
        a
    } else {
        b
    }
}

/// Sending many sends as many as there is room for, from the front: the first
/// go to the receivers in line, one each, and those after them into the queue.
pub proof fn law_send_many_fills_the_room<T>(s: ChannelState<T>, data: Seq<T>)
    requires
        s.inv(),
    ensures
        ({
            let (next, rest) = s.send_all(data);
            let n = at_most(data.len(), room(s));
            let k = at_most(s.receivers.len(), n);
            &&& rest == data.skip(n as int)
            &&& next.receivers == s.receivers.skip(k as int)
            &&& next.queue == s.queue + data.subrange(k as int, n as int)
            &&& next.wakes == s.wakes + s.wakers_of(s.receivers.take(k as int))
            &&& next.senders == s.senders
            &&& next.signals.dom() == s.signals.dom()
            &&& forall|i: int|
                0 <= i < k ==> next.signals[#[trigger] s.receivers[i]]
                    == s.signals[s.receivers[i]].given(data[i])
            &&& forall|p: DynamicSignal| #[trigger]
                s.signals.dom().contains(p) && !s.receivers.contains(p) ==> next.signals[p]
                    == s.signals[p]
            &&& forall|i: int|
                k <= i < s.receivers.len() ==> next.signals[#[trigger] s.receivers[i]]
                    == s.signals[s.receivers[i]]
        }),
    decreases data.len(),
{
    let (next, rest) = s.send_all(data);
    let n = at_most(data.len(), room(s));
    let k = at_most(s.receivers.len(), n);
    if data.len() > 0 && s.accepts() {
        let mid = s.try_send(data[0]).0;
        let tail = data.drop_first();
        s.lemma_try_send_inv(data[0]);
        law_send_many_fills_the_room(mid, tail);
        let m = at_most(tail.len(), room(mid));
        let j = at_most(mid.receivers.len(), m);
        assert(m + 1 == n);
        assert(rest =~= data.skip(n as int));
        if s.receivers.len() > 0 {
            let first = s.receivers[0];
            assert(s.receiver_waits(first));
            assert(j + 1 == k);
            assert(mid.receivers.skip(j as int) =~= s.receivers.skip(k as int));
            assert(tail.subrange(j as int, m as int) =~= data.subrange(k as int, n as int));
            assert forall|i: int| 0 <= i < mid.receivers.len() implies mid.signals[
                #[trigger] mid.receivers[i]
            ] == s.signals[s.receivers[i + 1]] by {
                assert(s.receivers[i + 1] != first);
            }
            assert(mid.wakes + mid.wakers_of(mid.receivers.take(j as int)) =~= s.wakes
                + s.wakers_of(s.receivers.take(k as int)));
            assert(!mid.receivers.contains(first)) by {
                if mid.receivers.contains(first) {
                    let i = mid.receivers.index_of(first);
                    assert(s.receivers[i + 1] == first);
                }
            }
            assert(mid.signals.dom().contains(first));
            assert(next.signals[first] == s.signals[first].given(data[0]));
            assert forall|i: int| 0 <= i < k implies next.signals[#[trigger] s.receivers[i]]
                == s.signals[s.receivers[i]].given(data[i]) by {
                if i > 0 {
                    assert(mid.receivers[i - 1] == s.receivers[i]);
                }
            }
            assert forall|i: int| k <= i < s.receivers.len() implies next.signals[
                #[trigger] s.receivers[i]
            ] == s.signals[s.receivers[i]] by {
                assert(mid.receivers[i - 1] == s.receivers[i]);
            }
            assert forall|p: DynamicSignal| #[trigger]
                s.signals.dom().contains(p) && !s.receivers.contains(p) implies next.signals[p]
                == s.signals[p] by {
                assert(s.receivers.contains(first));
                if mid.receivers.contains(p) {
                    let i = mid.receivers.index_of(p);
                    assert(s.receivers[i + 1] == p);
                }
                assert(mid.signals.dom().contains(p));
            }
            assert(next.signals.dom() =~= s.signals.dom());
            assert(next.queue =~= s.queue + data.subrange(k as int, n as int));
        } else {
            assert(j == 0 && k == 0);
            assert(mid.queue + tail.subrange(0, m as int) =~= s.queue + data.subrange(0, n as int));
            assert(next.receivers =~= s.receivers.skip(0));
            assert(next.wakes =~= s.wakes + s.wakers_of(s.receivers.take(0)));
        }
    } else {
        assert(n == 0 && k == 0);
        assert(rest =~= data.skip(0));
        assert(next.receivers =~= s.receivers.skip(0));
        assert(next.queue =~= s.queue + data.subrange(0, 0));
        assert(next.wakes =~= s.wakes + s.wakers_of(s.receivers.take(0)));
    }
}

/// Receiving `n` times without waiting: the state after that, and the messages.
pub open spec fn recv_times<T>(s: ChannelState<T>, n: nat) -> (ChannelState<T>, Seq<T>)
    decreases n,
{
    if n == 0 {
        (s, Seq::empty())
    } else {
        match s.try_recv() {
            (next, Ok(Some(data))) => {
                let (end, got) = recv_times(next, (n - 1) as nat);
                (end, seq![data] + got)
            },
            (next, _) => recv_times(next, (n - 1) as nat),
        }
    }
}

/// Draining is receiving one message after the other until none is pending.
pub proof fn law_draining_is_receiving_all<T>(s: ChannelState<T>)
    requires
        s.inv(),
        s.recv_count > 0,
    ensures
        recv_times(s, s.pending().len()) == (s.drained(), s.pending()),
    decreases s.pending().len(),
{
    if s.pending().len() == 0 {
        assert(s.queue =~= Seq::<T>::empty());
        assert(s.senders =~= Seq::<DynamicSignal>::empty());
        assert(s.drained().signals =~= s.signals);
        assert(s.drained().wakes =~= s.wakes);
        assert(s.drained() =~= s);
        assert(s.pending() =~= Seq::<T>::empty());
    } else {
        let next = s.try_recv().0;
        s.lemma_try_recv_inv();
        law_step_keeps_order(s, Step::TryRecv);
        let v = s.pending()[0];
        assert(s.pending() + Seq::<T>::empty() =~= s.pending());
        assert(s.try_recv().1 == Ok::<Option<T>, ReceiveError>(Some(v)));
        assert(next.pending() =~= s.pending().drop_first());
        law_draining_is_receiving_all(next);
        assert(seq![v] + next.pending() =~= s.pending());
        lemma_drained_after_receive(s);
    }
}

proof fn lemma_drained_after_receive<T>(s: ChannelState<T>)
    requires
        s.inv(),
        s.recv_count > 0,
        s.pending().len() > 0,
    ensures
        s.try_recv().0.drained() == s.drained(),
{
    let next = s.try_recv().0;
    if s.senders.len() > 0 {
        let p = s.senders[0];
        assert(s.sender_waits(p));
        assert(next.senders == s.senders.drop_first());
        assert forall|q: DynamicSignal| s.senders.contains(q) <==> q == p || next.senders.contains(
            q,
        ) by {
            if s.senders.contains(q) && q != p {
                assert(next.senders[s.senders.index_of(q) - 1] == q);
            }
            if next.senders.contains(q) {
                assert(s.senders[next.senders.index_of(q) + 1] == q);
            }
        }
        assert forall|i: int| 0 <= i < next.senders.len() implies next.signals[
            #[trigger] next.senders[i]
        ] == s.signals[s.senders[i + 1]] by {
            assert(s.senders[i + 1] != p);
        }
        assert(!next.senders.contains(p)) by {
            if next.senders.contains(p) {
                assert(s.senders[next.senders.index_of(p) + 1] == p);
            }
        }
        assert(next.drained().signals =~= s.drained().signals);
        assert(next.drained().wakes =~= s.drained().wakes);
    } else {
        assert(next.drained().signals =~= s.drained().signals);
    }
    assert(next.drained() =~= s.drained());
}

} // verus!
