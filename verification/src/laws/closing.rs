//! What is gone stays gone, and what is closed refuses everything.

use crate::error::{CloseError, ReceiveError, SendError, SendTimeoutError};
use crate::future::{recv_polled, send_polled, Poll, Progress};
use crate::laws::steps::{law_step_keeps_invariant, run, run_enabled, run_handed, Step};
use crate::laws::waiting::lemma_terminated_wakes;
use crate::signal::DynamicSignal;
use crate::state::ChannelState;
use core::task::Waker;
use vstd::prelude::*;

verus! {

/// A side of the channel that is gone does not come back.
pub proof fn law_side_stays_gone<T>(s: ChannelState<T>, step: Step<T>)
    ensures
        s.send_count == 0 ==> step.apply(s).send_count == 0,
        s.recv_count == 0 ==> step.apply(s).recv_count == 0,
{
}

/// A closed channel stays closed whatever is done with it, and refuses
/// everything: a message that is sent comes back, nothing is received, and it
/// cannot be closed again.
pub proof fn law_closed_for_good<T>(s: ChannelState<T>, steps: Seq<Step<T>>, data: T)
    requires
        s.is_closed(),
    ensures
        run(s, steps).is_closed(),
        run(s, steps).try_send(data) == (
            run(s, steps),
            Err::<(), SendTimeoutError<T>>(SendTimeoutError::Closed(data)),
        ),
        run(s, steps).try_recv() == (
            run(s, steps),
            Err::<Option<T>, ReceiveError>(ReceiveError()),
        ),
        run(s, steps).close() == (run(s, steps), Err::<(), CloseError>(CloseError())),
    decreases steps.len(),
{
    if steps.len() > 0 {
        law_closed_for_good(s, steps.drop_last(), data);
        law_side_stays_gone(run(s, steps.drop_last()), steps.last());
    }
}

/// Closing closes, and leaves nothing to be received. It fails only if the
/// channel was closed, and then changes nothing.
pub proof fn law_closing_closes<T>(s: ChannelState<T>)
    requires
        s.inv(),
    ensures
        s.close().0.is_closed(),
        s.close().1 is Ok <==> !s.is_closed(),
        s.close().1 is Ok ==> s.close().0.pending().len() == 0,
        s.close().1 is Err ==> s.close().0 == s,
{
}

/// A send that waits when the channel is closed, or when a side of it goes,
/// gives its message back.
pub proof fn law_waiting_send_fails<T>(
    s: ChannelState<T>,
    step: Step<T>,
    p: DynamicSignal,
    waker: Waker,
    r: Poll<Result<(), SendError<T>>>,
    after: (Progress<T>, ChannelState<T>),
)
    requires
        s.inv(),
        step.ends_waits(s),
        s.senders.contains(p),
        send_polled((Progress::Shared(p), step.apply(s)), waker, r, after),
    ensures
        r == Poll::<Result<(), SendError<T>>>::Ready(Err(SendError(s.signals[p].data->0))),
{
    let k = s.senders.index_of(p);
    assert(s.sender_waits(s.senders[k]));
    assert(s.waiting()[k] == p);
    lemma_terminated_wakes(s, p, k);
}

/// A receive that waits when the channel is closed, or when a side of it goes,
/// gives an error.
pub proof fn law_waiting_receive_fails<T>(
    s: ChannelState<T>,
    step: Step<T>,
    p: DynamicSignal,
    waker: Waker,
    r: Poll<Result<T, ReceiveError>>,
    after: (Progress<()>, ChannelState<T>),
)
    requires
        s.inv(),
        step.ends_waits(s),
        s.receivers.contains(p),
        recv_polled((Progress::Shared(p), step.apply(s)), waker, r, after),
    ensures
        r == Poll::<Result<T, ReceiveError>>::Ready(Err(ReceiveError())),
{
    let k = s.receivers.index_of(p);
    assert(s.receiver_waits(s.receivers[k]));
    assert(s.waiting()[s.senders.len() + k] == p);
    lemma_terminated_wakes(s, p, s.senders.len() + k);
}

/// Once the sending side is gone and the queue is empty, nothing is received
/// any more, whatever is done with the channel but sending, for which there is
/// no sender left.
pub proof fn law_terminated_for_good<T>(s: ChannelState<T>, steps: Seq<Step<T>>)
    requires
        s.inv(),
        s.send_count == 0,
        s.queue.len() == 0,
        run_enabled(s, steps),
        forall|i: int| 0 <= i < steps.len() ==> !(#[trigger] steps[i] is TrySend),
    ensures
        run(s, steps).inv(),
        run(s, steps).send_count == 0,
        run(s, steps).queue.len() == 0,
        run(s, steps).try_recv() == (
            run(s, steps),
            Err::<Option<T>, ReceiveError>(ReceiveError()),
        ),
        run_handed(s, steps).len() == 0,
    decreases steps.len(),
{
    if steps.len() > 0 {
        let mid = run(s, steps.drop_last());
        law_terminated_for_good(s, steps.drop_last());
        law_step_keeps_invariant(mid, steps.last());
        assert(!(steps[steps.len() - 1] is TrySend));
    }
}

/// When the sending side is gone, what is in the queue can still be received,
/// in order, and then there is an error.
pub proof fn law_half_closed_can_be_emptied<T>(s: ChannelState<T>)
    requires
        s.inv(),
        s.send_count == 0,
        s.recv_count > 0,
    ensures
        s.queue.len() > 0 ==> s.try_recv() == (
            ChannelState { queue: s.queue.drop_first(), ..s },
            Ok::<Option<T>, ReceiveError>(Some(s.queue[0])),
        ),
        s.queue.len() == 0 ==> s.try_recv() == (
            s,
            Err::<Option<T>, ReceiveError>(ReceiveError()),
        ),
{
}

/// When the last sender goes, the queue stays; when the last receiver goes,
/// sends are refused.
pub proof fn law_last_one_gone<T>(s: ChannelState<T>, data: T)
    ensures
        s.sender_dropped().queue == s.queue,
        s.send_count == 1 ==> s.sender_dropped().send_count == 0 && s.sender_dropped().recv_count
            == s.recv_count,
        s.recv_count == 1 ==> s.receiver_dropped().try_send(data).1 == Err::<
            (),
            SendTimeoutError<T>,
        >(SendTimeoutError::Closed(data)),
{
}

} // verus!
