//! What a send gives and what it leaves behind, in terms of what the channel
//! holds.

use crate::error::{SendError, SendTimeoutError};
use crate::future::{
    keeps_waiting, send_many_polled, send_polled, sender_alive, FutureState, Poll, Progress,
};
use crate::laws::operations::law_send_many_fills_the_room;
use crate::laws::steps::{run, run_enabled, Step};
use crate::laws::waiting::{
    law_outcome_stays_over_run, lemma_ended_not_in_line, lemma_terminated_wakes,
};
use crate::signal::{DynamicSignal, SignalView};
use crate::state::ChannelState;
use core::task::Waker;
use vstd::prelude::*;

verus! {

/// A send that does not wait succeeds exactly if some receiver is alive and
/// either a receive waits or the queue has room. Otherwise the message comes
/// back, the error says whether the receiving side is gone, and nothing has
/// changed.
pub proof fn law_try_send_outcome<T>(s: ChannelState<T>, data: T)
    ensures
        s.try_send(data).1 == Ok::<(), SendTimeoutError<T>>(()) <==> s.recv_count > 0 && (
        s.receivers.len() > 0 || s.queue.len() < s.capacity),
        s.try_send(data).1 == Err::<(), SendTimeoutError<T>>(SendTimeoutError::Closed(data))
            <==> s.recv_count == 0,
        s.try_send(data).1 == Err::<(), SendTimeoutError<T>>(SendTimeoutError::Timeout(data))
            <==> s.recv_count > 0 && s.receivers.len() == 0 && s.queue.len() >= s.capacity,
        s.try_send(data).1 is Err ==> s.try_send(data).0 == s,
{
}

/// A message that is sent while receives wait goes to the first of them: it
/// leaves the line with the message, and its task is to be woken. Nothing else
/// changes.
pub proof fn law_message_goes_to_first_receiver<T>(s: ChannelState<T>, data: T)
    requires
        s.inv(),
        s.recv_count > 0,
        s.receivers.len() > 0,
    ensures
        s.try_send(data).0 == (ChannelState {
            receivers: s.receivers.subrange(1, s.receivers.len() as int),
            signals: s.signals.insert(
                s.receivers[0],
                SignalView {
                    state: FutureState::Success,
                    data: Some(data),
                    waker: s.signals[s.receivers[0]].waker,
                },
            ),
            wakes: s.wakes.push(s.signals[s.receivers[0]].waker->0),
            ..s
        }),
{
    assert(s.receiver_waits(s.receivers[0]));
    assert(s.receivers.drop_first() =~= s.receivers.subrange(1, s.receivers.len() as int));
}

/// A message that is sent while no receive waits goes to the end of the queue
/// if there is room. Nothing else changes.
pub proof fn law_message_goes_to_the_end_of_the_queue<T>(s: ChannelState<T>, data: T)
    requires
        s.recv_count > 0,
        s.receivers.len() == 0,
        s.queue.len() < s.capacity,
    ensures
        s.try_send(data).0 == (ChannelState { queue: s.queue + seq![data], ..s }),
{
    assert(s.queue.push(data) =~= s.queue + seq![data]);
}

/// The first poll of a send. If the receiving side is gone, it gives the
/// message back, whatever is in the queue, and leaves the channel alone. If a
/// receive waits or the queue has room, it succeeds, and does to the channel
/// what a send without waiting does. Else it goes to the end of the line, with
/// its message and the waker, and changes nothing else.
pub proof fn law_first_poll_of_a_send<T>(
    s: ChannelState<T>,
    data: T,
    waker: Waker,
    r: Poll<Result<(), SendError<T>>>,
    after: (Progress<T>, ChannelState<T>),
)
    requires
        send_polled((Progress::New(data), s), waker, r, after),
    ensures
        s.recv_count == 0 ==> {
            &&& r == Poll::<Result<(), SendError<T>>>::Ready(Err(SendError(data)))
            &&& after == (Progress::<T>::Done, s)
        },
        s.recv_count > 0 && (s.receivers.len() > 0 || s.queue.len() < s.capacity) ==> {
            &&& r == Poll::<Result<(), SendError<T>>>::Ready(Ok(()))
            &&& after == (Progress::<T>::Done, s.try_send(data).0)
        },
        s.recv_count > 0 && s.receivers.len() == 0 && s.queue.len() >= s.capacity ==> {
            &&& r == Poll::<Result<(), SendError<T>>>::Pending
            &&& after.0 matches Progress::Shared(p)
            &&& !s.signals.dom().contains(p)
            &&& after.1 == (ChannelState {
                senders: s.senders + seq![p],
                signals: s.signals.insert(
                    p,
                    SignalView {
                        state: FutureState::Pending,
                        data: Some(data),
                        waker: Some(waker),
                    },
                ),
                ..s
            })
        },
{
    if let Progress::Shared(p) = after.0 {
        assert(s.senders.push(p) =~= s.senders + seq![p]);
    }
}

/// A later poll of a send. It succeeds exactly if its message was taken, gives
/// the message back exactly if its wait has failed, and goes on waiting
/// otherwise, whatever has become of the channel. With an outcome its signal
/// leaves the channel, and nothing else changes; without one nothing changes but
/// its waker.
pub proof fn law_later_poll_of_a_send<T>(
    s: ChannelState<T>,
    p: DynamicSignal,
    waker: Waker,
    r: Poll<Result<(), SendError<T>>>,
    after: (Progress<T>, ChannelState<T>),
)
    requires
        s.inv(),
        s.signals.dom().contains(p),
        s.signals[p].of_sender(),
        send_polled((Progress::Shared(p), s), waker, r, after),
    ensures
        r == Poll::<Result<(), SendError<T>>>::Ready(Ok(())) <==> s.signals[p].state
            == FutureState::Success,
        s.signals[p].state == FutureState::Failure ==> r == Poll::<
            Result<(), SendError<T>>,
        >::Ready(Err(SendError(s.signals[p].data->0))),
        r is Pending <==> s.signals[p].state == FutureState::Pending,
        r is Ready ==> after == (
            Progress::<T>::Done,
            (ChannelState { signals: s.signals.remove(p), ..s }),
        ),
        r is Pending ==> {
            &&& after.0 == Progress::<T>::Shared(p)
            &&& keeps_waiting(s, after.1, p, waker)
        },
{
    if s.signals[p].state != FutureState::Pending {
        lemma_ended_not_in_line(s, p);
    }
}

/// While a future goes on waiting, nothing changes but the waker of its signal:
/// it is that of the poll, or stays the one before if that is known to wake the
/// same task.
pub proof fn law_waiting_changes_only_the_waker<T>(
    before: ChannelState<T>,
    after: ChannelState<T>,
    p: DynamicSignal,
    waker: Waker,
)
    requires
        keeps_waiting(before, after, p, waker),
    ensures
        after == before || after == (ChannelState {
            signals: before.signals.insert(
                p,
                SignalView {
                    state: before.signals[p].state,
                    data: before.signals[p].data,
                    waker: Some(waker),
                },
            ),
            ..before
        }),
        before.signals[p].waker is None ==> after.signals[p].waker == Some(waker),
        before.signals[p].waker matches Some(own) ==> {
            ||| after.signals[p].waker == Some(waker) && call_ensures(
                Waker::will_wake,
                (&own, &waker),
                false,
            )
            ||| after.signals[p].waker == Some(own) && call_ensures(
                Waker::will_wake,
                (&own, &waker),
                true,
            )
        },
{
    if let Some(own) = before.signals[p].waker {
        let same = choose|same: bool|
            {
                &&& #[trigger] call_ensures(Waker::will_wake, (&own, &waker), same)
                &&& after == if same {
                    before
                } else {
                    before.waker_updated(p, waker)
                }
            };
        assert(call_ensures(Waker::will_wake, (&own, &waker), same));
    }
}

/// A send that succeeds has had its message taken over: at the first poll the
/// queue or the first receive in line has it, and at a later poll somebody has
/// taken it from the signal. No send succeeds at its first poll once the
/// receiving side is gone.
pub proof fn law_success_means_taken_over<T>(
    before: (Progress<T>, ChannelState<T>),
    waker: Waker,
    after: (Progress<T>, ChannelState<T>),
)
    requires
        before.1.inv(),
        send_polled(before, waker, Poll::Ready(Ok(())), after),
    ensures
        match before.0 {
            Progress::New(data) => {
                let (s, t) = (before.1, after.1);
                &&& s.recv_count > 0
                &&& {
                    ||| t.queue == s.queue + seq![data] && t.signals == s.signals
                    ||| s.receivers.len() > 0 && t.queue == s.queue
                        && t.signals[s.receivers[0]].data == Some(data)
                        && t.signals[s.receivers[0]].state == FutureState::Success
                }
            },
            Progress::Shared(p) => before.1.signals[p].state == FutureState::Success,
            Progress::Done => false,
        },
{
    if let Progress::New(data) = before.0 {
        law_try_send_outcome(before.1, data);
        if before.1.receivers.len() > 0 {
            law_message_goes_to_first_receiver(before.1, data);
        } else {
            law_message_goes_to_the_end_of_the_queue(before.1, data);
        }
    }
}

/// A send whose message was taken, or whose wait has failed, keeps its outcome
/// whatever is done with the channel before its next poll, closing included.
pub proof fn law_send_keeps_its_outcome<T>(
    s: ChannelState<T>,
    p: DynamicSignal,
    steps: Seq<Step<T>>,
    waker: Waker,
    r: Poll<Result<(), SendError<T>>>,
    after: (Progress<T>, ChannelState<T>),
)
    requires
        s.inv(),
        s.signals.dom().contains(p),
        s.signals[p].of_sender(),
        s.signals[p].state != FutureState::Pending,
        run_enabled(s, steps),
        forall|i: int| 0 <= i < steps.len() ==> #[trigger] steps[i] != Step::<T>::Release(p),
        send_polled((Progress::Shared(p), run(s, steps)), waker, r, after),
    ensures
        s.signals[p].state == FutureState::Success ==> r == Poll::<
            Result<(), SendError<T>>,
        >::Ready(Ok(())),
        s.signals[p].state == FutureState::Failure ==> r == Poll::<
            Result<(), SendError<T>>,
        >::Ready(Err(SendError(s.signals[p].data->0))),
{
    law_outcome_stays_over_run(s, p, steps);
}

/// The first poll of a send of many when the receiving side is gone: the first
/// message comes back, the others stay where they are, and the channel is left
/// alone. With no messages it succeeds.
pub proof fn law_send_many_without_receivers<T>(
    s: ChannelState<T>,
    elements: Seq<T>,
    waker: Waker,
    r: Poll<Result<(), SendError<T>>>,
    after: (Progress<()>, ChannelState<T>, Seq<T>),
)
    requires
        s.recv_count == 0,
        send_many_polled((Progress::New(()), s, elements), waker, r, after),
    ensures
        elements.len() > 0 ==> {
            &&& r == Poll::<Result<(), SendError<T>>>::Ready(Err(SendError(elements[0])))
            &&& after == (
                Progress::<()>::Done,
                s,
                elements.subrange(1, elements.len() as int),
            )
        },
        elements.len() == 0 ==> {
            &&& r == Poll::<Result<(), SendError<T>>>::Ready(Ok(()))
            &&& after == (Progress::<()>::Done, s, elements)
        },
{
    if elements.len() > 0 {
        assert(elements.drop_first() =~= elements.subrange(1, elements.len() as int));
    }
}

/// The first poll of a send of many when some receiver is alive. The first
/// messages go to the receives that wait, one each and in line, and their tasks
/// are to be woken; the next ones go to the end of the queue as long as there is
/// room. If all messages are gone, it succeeds. Else the next one waits at the
/// end of the line with the waker, and the others stay where they are.
pub proof fn law_send_many_spreads_its_messages<T>(
    s: ChannelState<T>,
    elements: Seq<T>,
    waker: Waker,
    r: Poll<Result<(), SendError<T>>>,
    after: (Progress<()>, ChannelState<T>, Seq<T>),
)
    requires
        s.inv(),
        s.recv_count > 0,
        send_many_polled((Progress::New(()), s, elements), waker, r, after),
    ensures
        ({
            let t = after.1;
            let len = elements.len() as int;
            let waiting = s.receivers.len() as int;
            let fits = waiting + s.capacity - s.queue.len();
            let given = if len < waiting {
                len
            } else {
                waiting
            };
            let taken = if len < fits {
                len
            } else {
                fits
            };
            &&& t.queue == s.queue + elements.subrange(given, taken)
            &&& t.receivers == s.receivers.subrange(given, waiting)
            &&& t.capacity == s.capacity
            &&& t.send_count == s.send_count
            &&& t.recv_count == s.recv_count
            &&& t.wakes.len() == s.wakes.len() + given
            &&& t.wakes.subrange(0, s.wakes.len() as int) == s.wakes
            &&& forall|i: int|
                0 <= i < given ==> {
                    let q = #[trigger] s.receivers[i];
                    &&& t.signals[q] == (SignalView {
                        state: FutureState::Success,
                        data: Some(elements[i]),
                        waker: s.signals[q].waker,
                    })
                    &&& t.wakes[s.wakes.len() + i] == s.signals[q].waker->0
                }
            &&& forall|q: DynamicSignal| #[trigger]
                s.signals.dom().contains(q) ==> t.signals.dom().contains(q) && (
                s.receivers.subrange(0, given).contains(q) || t.signals[q] == s.signals[q])
            &&& len <= fits ==> {
                &&& r == Poll::<Result<(), SendError<T>>>::Ready(Ok(()))
                &&& after.0 is Done
                &&& after.2.len() == 0
                &&& t.senders == s.senders
                &&& t.signals.dom() == s.signals.dom()
            }
            &&& len > fits ==> {
                &&& r == Poll::<Result<(), SendError<T>>>::Pending
                &&& after.2 == elements.subrange(fits + 1, len)
                &&& after.0 matches Progress::Shared(p)
                &&& !s.signals.dom().contains(p)
                &&& t.senders == s.senders + seq![p]
                &&& t.signals.dom() == s.signals.dom().insert(p)
                &&& t.signals[p] == (SignalView {
                    state: FutureState::Pending,
                    data: Some(elements[fits]),
                    waker: Some(waker),
                })
            }
        }),
{
    let t = after.1;
    let len = elements.len() as int;
    let waiting = s.receivers.len() as int;
    let fits = waiting + s.capacity - s.queue.len();
    let given = if len < waiting {
        len
    } else {
        waiting
    };
    let (next, rest) = s.send_all(elements);
    law_send_many_fills_the_room(s, elements);
    s.lemma_send_all_counts(elements);
    assert(s.receivers.skip(given) =~= s.receivers.subrange(given, waiting));
    assert(s.receivers.take(given) =~= s.receivers.subrange(0, given));
    assert(next.wakes.subrange(0, s.wakes.len() as int) =~= s.wakes);
    assert forall|q: DynamicSignal| #[trigger] s.signals.dom().contains(q) implies (
    s.receivers.subrange(0, given).contains(q) || next.signals[q] == s.signals[q]) by {
        if s.receivers.contains(q) {
            let i = s.receivers.index_of(q);
            assert(s.receivers[i] == q);
            if i < given {
                assert(s.receivers.subrange(0, given)[i] == q);
            }
        }
    }
    assert forall|i: int| 0 <= i < waiting implies s.signals.dom().contains(
        #[trigger] s.receivers[i],
    ) by {
        assert(s.receiver_waits(s.receivers[i]));
    }
    if len > fits {
        let p = after.0->Shared_0;
        assert(rest =~= elements.skip(fits));
        assert(rest[0] == elements[fits]);
        assert(rest.drop_first() =~= elements.subrange(fits + 1, len));
        assert(next.senders.push(p) =~= s.senders + seq![p]);
        assert(t.signals.dom() =~= s.signals.dom().insert(p));
    } else {
        assert(rest.len() == 0);
    }
}

/// A later poll of a send of many, one of whose messages waited. If that
/// message was taken, it goes on as a new one would on the channel without its
/// signal. If the wait has failed, the message comes back, and those that are
/// left stay where they are, whether there are any or not. Else it goes on
/// waiting, and nothing changes but its waker.
pub proof fn law_later_poll_of_a_send_of_many<T>(
    s: ChannelState<T>,
    p: DynamicSignal,
    elements: Seq<T>,
    waker: Waker,
    r: Poll<Result<(), SendError<T>>>,
    after: (Progress<()>, ChannelState<T>, Seq<T>),
)
    requires
        s.inv(),
        s.signals.dom().contains(p),
        s.signals[p].of_sender(),
        send_many_polled((Progress::Shared(p), s, elements), waker, r, after),
    ensures
        s.signals[p].state == FutureState::Success ==> send_many_polled(
            (
                Progress::New(()),
                (ChannelState { signals: s.signals.remove(p), ..s }),
                elements,
            ),
            waker,
            r,
            after,
        ),
        s.signals[p].state == FutureState::Failure ==> {
            &&& r == Poll::<Result<(), SendError<T>>>::Ready(
                Err(SendError(s.signals[p].data->0)),
            )
            &&& after == (
                Progress::<()>::Done,
                (ChannelState { signals: s.signals.remove(p), ..s }),
                elements,
            )
        },
        s.signals[p].state == FutureState::Pending ==> {
            &&& r == Poll::<Result<(), SendError<T>>>::Pending
            &&& after.0 == Progress::<()>::Shared(p)
            &&& keeps_waiting(s, after.1, p, waker)
            &&& after.2 == elements
        },
{
    if s.signals[p].state != FutureState::Pending {
        lemma_ended_not_in_line(s, p);
    }
}

/// A send of many one of whose messages waits when the channel is closed, or
/// when a side of it goes, gives that message back, and those that are left stay
/// where they are, whether there are any or not.
pub proof fn law_waiting_send_of_many_fails<T>(
    s: ChannelState<T>,
    t: ChannelState<T>,
    p: DynamicSignal,
    elements: Seq<T>,
    waker: Waker,
    r: Poll<Result<(), SendError<T>>>,
    after: (Progress<()>, ChannelState<T>, Seq<T>),
)
    requires
        s.inv(),
        s.senders.contains(p),
        t == s.close().0 || (s.send_count == 1 && t == s.sender_dropped()) || (s.recv_count == 1
            && t == s.receiver_dropped()),
        send_many_polled((Progress::Shared(p), t, elements), waker, r, after),
    ensures
        r == Poll::<Result<(), SendError<T>>>::Ready(Err(SendError(s.signals[p].data->0))),
        after.2 == elements,
{
    let k = s.senders.index_of(p);
    assert(s.sender_waits(s.senders[k]));
    assert(s.waiting()[k] == p);
    lemma_terminated_wakes(s, p, k);
}

/// A send of many succeeds only with no messages left, and never while a
/// message of it waits or was handed back.
pub proof fn law_send_many_succeeds_when_all_are_taken<T>(
    before: (Progress<()>, ChannelState<T>, Seq<T>),
    waker: Waker,
    r: Poll<Result<(), SendError<T>>>,
    after: (Progress<()>, ChannelState<T>, Seq<T>),
)
    requires
        before.1.inv(),
        send_many_polled(before, waker, r, after),
    ensures
        r == Poll::<Result<(), SendError<T>>>::Ready(Ok(())) ==> {
            &&& after.2.len() == 0
            &&& before.2.len() > 0 ==> before.1.recv_count > 0
            &&& before.0 matches Progress::Shared(p) ==> before.1.signals[p].state
                == FutureState::Success
        },
{
}

/// Whoever sends holds a sender: some sender is alive, or the receiving side is
/// gone.
pub proof fn law_who_may_send<T>(s: ChannelState<T>)
    ensures
        sender_alive(s) <==> s.send_count > 0 || s.recv_count == 0,
{
}

} // verus!
