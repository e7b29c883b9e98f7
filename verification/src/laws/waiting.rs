//! Nobody waits without need, and nobody who waits is forgotten.

use crate::error::{ReceiveError, SendError, SendTimeoutError};
use crate::future::{
    given_up, is_receiver, is_sender, recv_polled, send_polled, FutureState, Poll, Progress,
};
use crate::laws::steps::{law_step_keeps_invariant, run, run_enabled, Step};
use crate::signal::DynamicSignal;
use crate::state::ChannelState;
use core::task::Waker;
use vstd::prelude::*;

verus! {

/// Nobody waits without need: while a sender waits, a message that is sent
/// cannot be taken at once, and while a receiver waits, there is no message to
/// be received.
pub proof fn law_waiting_is_necessary<T>(s: ChannelState<T>, data: T)
    requires
        s.inv(),
    ensures
        s.senders.len() > 0 ==> s.try_send(data).1 == Err::<(), SendTimeoutError<T>>(
            SendTimeoutError::Timeout(data),
        ),
        s.receivers.len() > 0 ==> s.try_recv().1 == Ok::<Option<T>, ReceiveError>(None)
            && s.pending().len() == 0,
{
}

/// Nobody who waits is forgotten: after a step, whoever waited before waits
/// still, with the same waker or that of its latest poll, or was given up, or
/// its wait has ended and its waker is among those to be woken. Those to be
/// woken before the step come first, unless they were woken in it.
pub proof fn law_no_wakeup_is_lost<T>(s: ChannelState<T>, step: Step<T>, p: DynamicSignal)
    requires
        s.inv(),
        step.enabled(s),
        s.signals.dom().contains(p),
        s.signals[p].state == FutureState::Pending,
    ensures
        step != Step::<T>::TakeWakes ==> s.wakes.is_prefix_of(step.apply(s).wakes),
        ({
            let next = step.apply(s);
            ||| step == Step::<T>::Release(p)
            ||| next.signals.dom().contains(p) && next.signals[p] == s.signals[p]
            ||| step matches Step::UpdateWaker(q, waker) && q == p && next.signals.dom().contains(p)
                && next.signals[p] == s.signals[p].with_waker(waker)
            ||| next.signals.dom().contains(p) && next.signals[p].state != FutureState::Pending
                && next.wakes.contains(s.signals[p].waker->0)
        }),
{
    let next = step.apply(s);
    let line = s.waiting();
    s.lemma_not_in_line(p);
    let k = if s.senders.contains(p) {
        s.senders.index_of(p)
    } else {
        s.senders.len() + s.receivers.index_of(p)
    };
    assert(0 <= k < line.len() && line[k] == p);
    match step {
        Step::TrySend(data) => {
            if s.recv_count > 0 && s.receivers.len() > 0 {
                assert(s.receiver_waits(s.receivers[0]));
                if p == s.receivers[0] {
                    assert(next.wakes.last() == s.signals[p].waker->0);
                    assert(next.wakes[s.wakes.len() as int] == s.signals[p].waker->0);
                }
            }
        },
        Step::TryRecv => {
            if s.recv_count > 0 && s.senders.len() > 0 {
                assert(s.sender_waits(s.senders[0]));
                if p == s.senders[0] {
                    assert(next.wakes[s.wakes.len() as int] == s.signals[p].waker->0);
                }
            }
        },
        Step::Drain => {
            if s.senders.contains(p) {
                let w = s.wakers_of(s.senders);
                assert(w[s.senders.index_of(p)] == s.signals[p].waker->0);
                assert(next.wakes[s.wakes.len() + s.senders.index_of(p)]
                    == s.signals[p].waker->0);
            }
        },
        Step::Close => {
            lemma_terminated_wakes(s, p, k);
        },
        Step::DropSender => {
            lemma_terminated_wakes(s, p, k);
        },
        Step::DropReceiver => {
            lemma_terminated_wakes(s, p, k);
        },
        _ => {},
    }
}

pub(crate) proof fn lemma_terminated_wakes<T>(s: ChannelState<T>, p: DynamicSignal, k: int)
    requires
        s.signals.dom().contains(p),
        0 <= k < s.waiting().len(),
        s.waiting()[k] == p,
    ensures
        s.terminated().signals.dom().contains(p),
        s.terminated().signals[p] == s.signals[p].terminated(),
        s.terminated().wakes.contains(s.signals[p].waker->0),
        s.wakes.is_prefix_of(s.terminated().wakes),
{
    assert(s.waiting().contains(p));
    assert(s.terminated().wakes[s.wakes.len() + k] == s.signals[p].waker->0);
}

/// Those are woken whose wait ends in a step, and nobody else, each once and in
/// line.
pub proof fn law_the_ended_are_woken<T>(s: ChannelState<T>, step: Step<T>, p: DynamicSignal)
    requires
        s.inv(),
        step.enabled(s),
        s.signals.dom().contains(p),
        s.signals[p].state == FutureState::Pending,
    ensures
        step != Step::<T>::TakeWakes ==> step.apply(s).wakes == s.wakes + s.wakers_of(
            step.ended(s),
        ),
        step.ended(s).no_duplicates(),
        step != Step::<T>::Release(p) ==> {
            &&& step.apply(s).signals.dom().contains(p)
            &&& step.ended(s).contains(p) <==> step.apply(s).signals[p].state
                != FutureState::Pending
        },
{
    let next = step.apply(s);
    let ended = step.ended(s);
    match step {
        Step::TrySend(data) => {
            if s.recv_count > 0 && s.receivers.len() > 0 {
                let q = s.receivers[0];
                assert(s.receiver_waits(q));
                assert(ended =~= seq![q]);
                assert(ended[0] == q);
                assert(next.wakes =~= s.wakes + s.wakers_of(ended));
            } else {
                assert(next.wakes =~= s.wakes + s.wakers_of(ended));
            }
        },
        Step::TryRecv => {
            if s.recv_count > 0 && s.senders.len() > 0 {
                let q = s.senders[0];
                assert(s.sender_waits(q));
                assert(ended =~= seq![q]);
                assert(ended[0] == q);
                assert(next.wakes =~= s.wakes + s.wakers_of(ended));
            } else {
                assert(next.wakes =~= s.wakes + s.wakers_of(ended));
            }
        },
        Step::Drain => {},
        _ => {
            if step.ends_waits(s) {
                if s.senders.contains(p) {
                    assert(s.waiting()[s.senders.index_of(p)] == p);
                } else {
                    assert(s.waiting()[s.senders.len() + s.receivers.index_of(p)] == p);
                }
            } else {
                assert(s.wakes =~= s.wakes + s.wakers_of(ended));
            }
        },
    }
}

/// The outcome of a wait stays as it is until it is collected.
pub proof fn law_outcome_stays<T>(s: ChannelState<T>, step: Step<T>, p: DynamicSignal)
    requires
        s.inv(),
        step.enabled(s),
        s.signals.dom().contains(p),
        s.signals[p].state != FutureState::Pending,
        step != Step::<T>::Release(p),
    ensures
        step.apply(s).signals.dom().contains(p),
        step.apply(s).signals[p].state == s.signals[p].state,
        step.apply(s).signals[p].data == s.signals[p].data,
{
    lemma_ended_not_in_line(s, p);
    match step {
        Step::TrySend(data) => {
            if s.receivers.len() > 0 {
                assert(s.receivers.contains(s.receivers[0]));
            }
        },
        Step::TryRecv => {
            if s.senders.len() > 0 {
                assert(s.senders.contains(s.senders[0]));
            }
        },
        _ => {},
    }
}

pub(crate) proof fn lemma_ended_not_in_line<T>(s: ChannelState<T>, p: DynamicSignal)
    requires
        s.inv(),
        s.signals.dom().contains(p),
        s.signals[p].state != FutureState::Pending,
    ensures
        !s.senders.contains(p),
        !s.receivers.contains(p),
        !s.waiting().contains(p),
{
    if s.senders.contains(p) {
        assert(s.sender_waits(s.senders[s.senders.index_of(p)]));
    }
    if s.receivers.contains(p) {
        assert(s.receiver_waits(s.receivers[s.receivers.index_of(p)]));
    }
    if s.waiting().contains(p) {
        let k = s.waiting().index_of(p);
        if k < s.senders.len() {
            assert(s.senders[k] == p);
        } else {
            assert(s.receivers[k - s.senders.len()] == p);
        }
    }
}

/// The outcome of a wait stays as it is whatever is done with the channel, as
/// long as it is not collected.
pub proof fn law_outcome_stays_over_run<T>(
    s: ChannelState<T>,
    p: DynamicSignal,
    steps: Seq<Step<T>>,
)
    requires
        s.inv(),
        s.signals.dom().contains(p),
        s.signals[p].state != FutureState::Pending,
        run_enabled(s, steps),
        forall|i: int| 0 <= i < steps.len() ==> #[trigger] steps[i] != Step::<T>::Release(p),
    ensures
        run(s, steps).inv(),
        run(s, steps).signals.dom().contains(p),
        run(s, steps).signals[p].state == s.signals[p].state,
        run(s, steps).signals[p].data == s.signals[p].data,
    decreases steps.len(),
{
    if steps.len() > 0 {
        let before = steps.drop_last();
        let mid = run(s, before);
        assert forall|i: int| 0 <= i < before.len() implies #[trigger] before[i] != Step::<
            T,
        >::Release(p) by {
            assert(steps[i] != Step::<T>::Release(p));
        }
        law_outcome_stays_over_run(s, p, before);
        assert(steps[steps.len() - 1] != Step::<T>::Release(p));
        law_step_keeps_invariant(mid, steps.last());
        law_outcome_stays(mid, steps.last(), p);
    }
}

/// A future stays what it is whatever others do with the channel: only it
/// gives its signal up.
pub proof fn law_future_stays_valid<T>(
    s: ChannelState<T>,
    step: Step<T>,
    sending: Progress<T>,
    receiving: Progress<()>,
)
    requires
        s.inv(),
        step.enabled(s),
        is_sender(sending, s),
        is_receiver(receiving, s),
        step matches Step::Release(p) ==> sending != Progress::<T>::Shared(p) && receiving
            != Progress::<()>::Shared(p),
    ensures
        is_sender(sending, step.apply(s)),
        is_receiver(receiving, step.apply(s)),
{
    if let Progress::Shared(p) = sending {
        lemma_kind_stays(s, step, p);
    }
    if let Progress::Shared(p) = receiving {
        lemma_kind_stays(s, step, p);
    }
}

pub(crate) proof fn lemma_kind_stays<T>(s: ChannelState<T>, step: Step<T>, p: DynamicSignal)
    requires
        s.inv(),
        step.enabled(s),
        s.signals.dom().contains(p),
        step != Step::<T>::Release(p),
    ensures
        step.apply(s).signals.dom().contains(p),
        s.signals[p].of_sender() ==> step.apply(s).signals[p].of_sender(),
        s.signals[p].of_receiver() ==> step.apply(s).signals[p].of_receiver(),
{
    if s.signals[p].state != FutureState::Pending {
        law_outcome_stays(s, step, p);
    } else {
        s.lemma_not_in_line(p);
        match step {
            Step::TrySend(data) => {
                if s.receivers.len() > 0 {
                    assert(s.receivers.contains(s.receivers[0]));
                }
            },
            Step::TryRecv => {
                if s.senders.len() > 0 {
                    assert(s.senders.contains(s.senders[0]));
                }
            },
            _ => {},
        }
    }
}

/// The first receiver in line gets the next message that is sent: its next poll
/// gives that message.
pub proof fn law_waiting_receiver_gets_next_message<T>(
    s: ChannelState<T>,
    data: T,
    waker: Waker,
    r: Poll<Result<T, ReceiveError>>,
    after: (Progress<()>, ChannelState<T>),
)
    requires
        s.inv(),
        s.receivers.len() > 0,
        recv_polled((Progress::Shared(s.receivers[0]), s.try_send(data).0), waker, r, after),
    ensures
        s.try_send(data).1 == Ok::<(), SendTimeoutError<T>>(()),
        r == Poll::<Result<T, ReceiveError>>::Ready(Ok(data)),
{
}

/// The first sender in line succeeds when a message is received: its next poll
/// says so.
pub proof fn law_waiting_sender_succeeds<T>(
    s: ChannelState<T>,
    waker: Waker,
    r: Poll<Result<(), SendError<T>>>,
    after: (Progress<T>, ChannelState<T>),
)
    requires
        s.inv(),
        s.senders.len() > 0,
        send_polled((Progress::Shared(s.senders[0]), s.try_recv().0), waker, r, after),
    ensures
        s.try_recv().1 == Ok::<Option<T>, ReceiveError>(Some(s.pending()[0])),
        r == Poll::<Result<(), SendError<T>>>::Ready(Ok(())),
{
    assert(s.sender_waits(s.senders[0]));
}

/// Who gets in line and is given up leaves no trace.
pub proof fn law_giving_up_undoes_waiting<T>(
    s: ChannelState<T>,
    p: DynamicSignal,
    data: T,
    waker: Waker,
)
    requires
        s.inv(),
        !s.signals.dom().contains(p),
    ensures
        s.sender_waiting(p, data, waker).released(p) == s,
        s.receiver_waiting(p, waker).released(p) == s,
        given_up(Progress::<T>::New(data), s) == s,
        given_up(Progress::<T>::Done, s) == s,
{
    assert forall|i: int| 0 <= i < s.senders.len() implies #[trigger] s.senders[i] != p by {
        assert(s.sender_waits(s.senders[i]));
    }
    assert forall|i: int| 0 <= i < s.receivers.len() implies #[trigger] s.receivers[i] != p by {
        assert(s.receiver_waits(s.receivers[i]));
    }
    let a = s.sender_waiting(p, data, waker);
    assert(a.senders[s.senders.len() as int] == p);
    assert(a.senders.contains(p));
    assert(a.senders.index_of(p) == s.senders.len());
    assert(a.released(p).senders =~= s.senders);
    assert(a.released(p).receivers =~= s.receivers);
    assert(a.released(p).signals =~= s.signals);
    let b = s.receiver_waiting(p, waker);
    assert(b.receivers[s.receivers.len() as int] == p);
    assert(b.receivers.contains(p));
    assert(b.receivers.index_of(p) == s.receivers.len());
    assert(b.released(p).senders =~= s.senders);
    assert(b.released(p).receivers =~= s.receivers);
    assert(b.released(p).signals =~= s.signals);
}

} // verus!
