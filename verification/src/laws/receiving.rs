//! What a receive gives and what it leaves behind, in terms of what the channel
//! holds.

use crate::error::{ReceiveError, SendTimeoutError};
use crate::future::{keeps_waiting, recv_polled, FutureState, Poll, Progress};
use crate::laws::sending::law_message_goes_to_first_receiver;
use crate::laws::steps::{law_step_keeps_invariant, run, run_enabled, Step};
use crate::laws::waiting::{law_outcome_stays_over_run, lemma_ended_not_in_line};
use crate::signal::{DynamicSignal, SignalView};
use crate::state::ChannelState;
use core::task::Waker;
use vstd::prelude::*;

verus! {

/// What is pending: the messages in the queue, then those of the senders that
/// wait, in line.
pub proof fn law_what_is_pending<T>(s: ChannelState<T>)
    ensures
        s.pending().len() == s.queue.len() + s.senders.len(),
        forall|i: int| 0 <= i < s.queue.len() ==> #[trigger] s.pending()[i] == s.queue[i],
        forall|i: int|
            0 <= i < s.senders.len() ==> s.pending()[s.queue.len() + i] == s.signals[
                #[trigger] s.senders[i]
            ].data->0,
{
}

/// A receive that does not wait fails exactly if nothing can be received any
/// more: the receiving side is gone, or the sending side is and there is no
/// message left. It gives nothing exactly if both sides are alive and there is
/// no message now, whatever the capacity and whoever waits. Either way nothing
/// has changed.
pub proof fn law_try_recv_outcome<T>(s: ChannelState<T>)
    requires
        s.inv(),
    ensures
        s.try_recv().1 is Err <==> s.recv_count == 0 || (s.send_count == 0 && s.queue.len() == 0
            && s.senders.len() == 0),
        s.try_recv().1 == Ok::<Option<T>, ReceiveError>(None) <==> s.recv_count > 0 && s.send_count
            > 0 && s.queue.len() == 0 && s.senders.len() == 0,
        s.try_recv().1 is Err ==> s.try_recv().1 == Err::<Option<T>, ReceiveError>(ReceiveError()),
        s.try_recv().1 is Err || s.try_recv().1 == Ok::<Option<T>, ReceiveError>(None)
            ==> s.try_recv().0 == s,
{
}

/// The same over what is pending: a receive that does not wait gives the oldest
/// pending message if some receiver is alive, and fails exactly if nothing is
/// pending and no sender is left, or no receiver is.
pub proof fn law_try_recv_gives_the_oldest<T>(s: ChannelState<T>)
    requires
        s.inv(),
    ensures
        s.recv_count > 0 && s.pending().len() > 0 ==> s.try_recv().1 == Ok::<
            Option<T>,
            ReceiveError,
        >(Some(s.pending()[0])),
        s.try_recv().1 is Err <==> s.recv_count == 0 || (s.send_count == 0 && s.pending().len()
            == 0),
        s.recv_count > 0 && s.queue.len() > 0 ==> s.try_recv().1 == Ok::<Option<T>, ReceiveError>(
            Some(s.queue[0]),
        ),
        s.recv_count > 0 && s.queue.len() == 0 && s.senders.len() > 0 ==> s.try_recv().1 == Ok::<
            Option<T>,
            ReceiveError,
        >(Some(s.signals[s.senders[0]].data->0)),
{
}

/// With no sender in line, a message that is received leaves the front of the
/// queue, and nothing else changes.
pub proof fn law_message_leaves_the_queue<T>(s: ChannelState<T>)
    requires
        s.recv_count > 0,
        s.queue.len() > 0,
        s.senders.len() == 0,
    ensures
        s.try_recv().0 == (ChannelState {
            queue: s.queue.subrange(1, s.queue.len() as int),
            ..s
        }),
{
    assert(s.queue.drop_first() =~= s.queue.subrange(1, s.queue.len() as int));
}

/// With senders in line, a message that is received makes room for that of the
/// first of them, at the end of the queue if there is one. That sender leaves
/// the line without its message, and its task is to be woken. Nothing else
/// changes.
pub proof fn law_first_sender_moves_up<T>(s: ChannelState<T>)
    requires
        s.inv(),
        s.recv_count > 0,
        s.senders.len() > 0,
    ensures
        s.try_recv().0 == (ChannelState {
            queue: if s.queue.len() > 0 {
                s.queue.subrange(1, s.queue.len() as int) + seq![s.signals[s.senders[0]].data->0]
            } else {
                s.queue
            },
            senders: s.senders.subrange(1, s.senders.len() as int),
            signals: s.signals.insert(
                s.senders[0],
                SignalView {
                    state: FutureState::Success,
                    data: None,
                    waker: s.signals[s.senders[0]].waker,
                },
            ),
            wakes: s.wakes.push(s.signals[s.senders[0]].waker->0),
            ..s
        }),
{
    assert(s.sender_waits(s.senders[0]));
    assert(s.senders.drop_first() =~= s.senders.subrange(1, s.senders.len() as int));
    if s.queue.len() > 0 {
        let data = s.signals[s.senders[0]].data->0;
        assert(s.queue.drop_first().push(data) =~= s.queue.subrange(1, s.queue.len() as int)
            + seq![data]);
    }
}

/// Draining leaves no message: the queue and the line of senders are empty.
/// Every sender in line is left without its message and its task is to be woken,
/// in line. Nothing else changes.
pub proof fn law_draining_leaves_no_message<T>(s: ChannelState<T>)
    requires
        s.inv(),
    ensures
        ({
            let t = s.drained();
            &&& t.queue.len() == 0
            &&& t.senders.len() == 0
            &&& t.receivers == s.receivers
            &&& t.capacity == s.capacity
            &&& t.send_count == s.send_count
            &&& t.recv_count == s.recv_count
            &&& t.signals.dom() == s.signals.dom()
            &&& forall|p: DynamicSignal| #[trigger]
                s.signals.dom().contains(p) ==> t.signals[p] == if s.senders.contains(p) {
                    SignalView {
                        state: FutureState::Success,
                        data: None,
                        waker: s.signals[p].waker,
                    }
                } else {
                    s.signals[p]
                }
            &&& t.wakes.len() == s.wakes.len() + s.senders.len()
            &&& forall|i: int| 0 <= i < s.wakes.len() ==> #[trigger] t.wakes[i] == s.wakes[i]
            &&& forall|i: int|
                0 <= i < s.senders.len() ==> t.wakes[s.wakes.len() + i] == s.signals[
                    #[trigger] s.senders[i]
                ].waker->0
        }),
{
    assert(s.drained().signals.dom() =~= s.signals.dom());
}

/// The first poll of a receive. If a message is pending and some receiver is
/// alive, it gives the oldest one and does to the channel what a receive without
/// waiting does; that the sending side is gone makes no difference. If no
/// message can come, because a side is gone, it fails and leaves the channel
/// alone. Else it goes to the end of the line with the waker, and changes
/// nothing else.
pub proof fn law_first_poll_of_a_receive<T>(
    s: ChannelState<T>,
    waker: Waker,
    r: Poll<Result<T, ReceiveError>>,
    after: (Progress<()>, ChannelState<T>),
)
    requires
        s.inv(),
        recv_polled((Progress::New(()), s), waker, r, after),
    ensures
        s.recv_count > 0 && s.queue.len() > 0 ==> r == Poll::<Result<T, ReceiveError>>::Ready(
            Ok(s.queue[0]),
        ),
        s.recv_count > 0 && s.queue.len() == 0 && s.senders.len() > 0 ==> r == Poll::<
            Result<T, ReceiveError>,
        >::Ready(Ok(s.signals[s.senders[0]].data->0)),
        s.recv_count > 0 && (s.queue.len() > 0 || s.senders.len() > 0) ==> after == (
            Progress::<()>::Done,
            s.try_recv().0,
        ),
        s.recv_count == 0 || (s.send_count == 0 && s.queue.len() == 0 && s.senders.len() == 0)
            ==> {
            &&& r == Poll::<Result<T, ReceiveError>>::Ready(Err(ReceiveError()))
            &&& after == (Progress::<()>::Done, s)
        },
        s.recv_count > 0 && s.send_count > 0 && s.queue.len() == 0 && s.senders.len() == 0 ==> {
            &&& r == Poll::<Result<T, ReceiveError>>::Pending
            &&& after.0 matches Progress::Shared(p)
            &&& !s.signals.dom().contains(p)
            &&& after.1 == (ChannelState {
                receivers: s.receivers + seq![p],
                signals: s.signals.insert(
                    p,
                    SignalView { state: FutureState::Pending, data: None, waker: Some(waker) },
                ),
                ..s
            })
        },
{
    if let Progress::Shared(p) = after.0 {
        assert(s.receivers.push(p) =~= s.receivers + seq![p]);
    }
}

/// A later poll of a receive. It gives the message that was given to its signal
/// if there is one, fails exactly if its wait has failed, and goes on waiting
/// otherwise, whatever has become of the channel meanwhile. With an outcome its
/// signal leaves the channel, and nothing else changes; without one nothing
/// changes but its waker.
pub proof fn law_later_poll_of_a_receive<T>(
    s: ChannelState<T>,
    p: DynamicSignal,
    waker: Waker,
    r: Poll<Result<T, ReceiveError>>,
    after: (Progress<()>, ChannelState<T>),
)
    requires
        s.inv(),
        s.signals.dom().contains(p),
        s.signals[p].of_receiver(),
        recv_polled((Progress::Shared(p), s), waker, r, after),
    ensures
        s.signals[p].state == FutureState::Success ==> r == Poll::<Result<T, ReceiveError>>::Ready(
            Ok(s.signals[p].data->0),
        ),
        s.signals[p].state == FutureState::Failure <==> r == Poll::<
            Result<T, ReceiveError>,
        >::Ready(Err(ReceiveError())),
        s.signals[p].state == FutureState::Pending <==> r is Pending,
        r is Ready ==> after == (
            Progress::<()>::Done,
            (ChannelState { signals: s.signals.remove(p), ..s }),
        ),
        r is Pending ==> {
            &&& after.0 == Progress::<()>::Shared(p)
            &&& keeps_waiting(s, after.1, p, waker)
        },
{
    if s.signals[p].state != FutureState::Pending {
        lemma_ended_not_in_line(s, p);
    }
}

/// The message of a send that succeeded is not lost: once it was given to the
/// first receive in line, the next poll of that receive gives it, whatever is
/// done with the channel meanwhile, closing included.
pub proof fn law_given_message_is_received<T>(
    s: ChannelState<T>,
    data: T,
    steps: Seq<Step<T>>,
    waker: Waker,
    r: Poll<Result<T, ReceiveError>>,
    after: (Progress<()>, ChannelState<T>),
)
    requires
        s.inv(),
        s.recv_count > 0,
        s.receivers.len() > 0,
        run_enabled(s.try_send(data).0, steps),
        forall|i: int|
            0 <= i < steps.len() ==> #[trigger] steps[i] != Step::<T>::Release(s.receivers[0]),
        recv_polled(
            (Progress::Shared(s.receivers[0]), run(s.try_send(data).0, steps)),
            waker,
            r,
            after,
        ),
    ensures
        s.try_send(data).1 == Ok::<(), SendTimeoutError<T>>(()),
        r == Poll::<Result<T, ReceiveError>>::Ready(Ok(data)),
{
    let t = s.try_send(data).0;
    law_message_goes_to_first_receiver(s, data);
    law_step_keeps_invariant(s, Step::TrySend(data));
    law_outcome_stays_over_run(t, s.receivers[0], steps);
}

/// A receive whose wait has ended keeps its outcome whatever is done with the
/// channel before its next poll, closing included: the message that it was
/// given, or the failure.
pub proof fn law_receive_keeps_its_outcome<T>(
    s: ChannelState<T>,
    p: DynamicSignal,
    steps: Seq<Step<T>>,
    waker: Waker,
    r: Poll<Result<T, ReceiveError>>,
    after: (Progress<()>, ChannelState<T>),
)
    requires
        s.inv(),
        s.signals.dom().contains(p),
        s.signals[p].of_receiver(),
        s.signals[p].state != FutureState::Pending,
        run_enabled(s, steps),
        forall|i: int| 0 <= i < steps.len() ==> #[trigger] steps[i] != Step::<T>::Release(p),
        recv_polled((Progress::Shared(p), run(s, steps)), waker, r, after),
    ensures
        s.signals[p].state == FutureState::Success ==> r == Poll::<Result<T, ReceiveError>>::Ready(
            Ok(s.signals[p].data->0),
        ),
        s.signals[p].state == FutureState::Failure ==> r == Poll::<Result<T, ReceiveError>>::Ready(
            Err(ReceiveError()),
        ),
{
    law_outcome_stays_over_run(s, p, steps);
}

/// A receive that may wait and one that does not give the same at the same time:
/// the same message, the same failure, and where the one gives nothing the other
/// waits.
pub proof fn law_receives_agree<T>(
    s: ChannelState<T>,
    waker: Waker,
    r: Poll<Result<T, ReceiveError>>,
    after: (Progress<()>, ChannelState<T>),
)
    requires
        s.inv(),
        recv_polled((Progress::New(()), s), waker, r, after),
    ensures
        r matches Poll::Ready(Ok(data)) ==> s.try_recv().1 == Ok::<Option<T>, ReceiveError>(
            Some(data),
        ),
        s.try_recv().1 matches Ok(Some(data)) ==> r == Poll::<Result<T, ReceiveError>>::Ready(
            Ok(data),
        ),
        r == Poll::<Result<T, ReceiveError>>::Ready(Err(ReceiveError())) <==> s.try_recv().1
            is Err,
        r is Pending <==> s.try_recv().1 == Ok::<Option<T>, ReceiveError>(None),
        r is Ready ==> after.1 == s.try_recv().0,
{
}

} // verus!
