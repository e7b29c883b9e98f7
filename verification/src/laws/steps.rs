//! What can be done with a channel, step by step.

use crate::signal::DynamicSignal;
use crate::state::ChannelState;
use core::task::Waker;
use vstd::prelude::*;

verus! {

/// One thing that is done with a channel.
pub enum Step<T> {
    /// A send that does not wait.
    TrySend(T),
    /// A receive that does not wait.
    TryRecv,
    /// A receive of all that is there.
    Drain,
    /// A sender gets in line.
    SenderWaits(DynamicSignal, T, Waker),
    /// A receiver gets in line.
    ReceiverWaits(DynamicSignal, Waker),
    /// A signal is given up: its outcome is collected, or its wait is.
    Release(DynamicSignal),
    /// A task that waits is polled with another waker.
    UpdateWaker(DynamicSignal, Waker),
    /// The tasks that are to be woken are woken.
    TakeWakes,
    /// The channel is closed.
    Close,
    /// One more sender.
    CloneSender,
    /// One more receiver.
    CloneReceiver,
    /// One sender less.
    DropSender,
    /// One receiver less.
    DropReceiver,
}

impl<T> Step<T> {
    /// When the step can be made. Only what cannot be done at once waits, and
    /// nobody waits once a side is gone.
    pub open spec fn enabled(self, s: ChannelState<T>) -> bool {
        match self {
            Step::Drain => s.recv_count > 0,
            Step::SenderWaits(p, _, _) => {
                &&& !s.accepts()
                &&& s.send_count > 0
                &&& s.recv_count > 0
                &&& !s.signals.dom().contains(p)
            },
            Step::ReceiverWaits(p, _) => {
                &&& s.pending().len() == 0
                &&& s.send_count > 0
                &&& s.recv_count > 0
                &&& !s.signals.dom().contains(p)
            },
            Step::Release(p) => s.signals.dom().contains(p),
            Step::UpdateWaker(p, _) => s.signals.dom().contains(p),
            _ => true,
        }
    }

    /// The state after the step.
    pub open spec fn apply(self, s: ChannelState<T>) -> ChannelState<T> {
        match self {
            Step::TrySend(data) => s.try_send(data).0,
            Step::TryRecv => s.try_recv().0,
            Step::Drain => s.drained(),
            Step::SenderWaits(p, data, waker) => s.sender_waiting(p, data, waker),
            Step::ReceiverWaits(p, waker) => s.receiver_waiting(p, waker),
            Step::Release(p) => s.released(p),
            Step::UpdateWaker(p, waker) => s.waker_updated(p, waker),
            Step::TakeWakes => s.wakes_taken(),
            Step::Close => s.close().0,
            Step::CloneSender => s.sender_cloned(),
            Step::CloneReceiver => s.receiver_cloned(),
            Step::DropSender => s.sender_dropped(),
            Step::DropReceiver => s.receiver_dropped(),
        }
    }

    /// The messages that the channel takes over in the step.
    pub open spec fn accepted(self, s: ChannelState<T>) -> Seq<T> {
        match self {
            Step::TrySend(data) => if s.accepts() {
                seq![data]
            } else {
                Seq::empty()
            },
            Step::SenderWaits(_, data, _) => seq![data],
            _ => Seq::empty(),
        }
    }

    /// The messages that receivers get in the step.
    pub open spec fn handed(self, s: ChannelState<T>) -> Seq<T> {
        match self {
            Step::TrySend(data) => if s.recv_count > 0 && s.receivers.len() > 0 {
                seq![data]
            } else {
                Seq::empty()
            },
            Step::TryRecv => match s.try_recv().1 {
                Ok(Some(data)) => seq![data],
                _ => Seq::empty(),
            },
            Step::Drain => s.pending(),
            _ => Seq::empty(),
        }
    }

    /// Whether every wait is ended because a side goes.
    pub open spec fn ends_waits(self, s: ChannelState<T>) -> bool {
        match self {
            Step::Close => !s.is_closed(),
            Step::DropSender => s.send_count == 1,
            Step::DropReceiver => s.recv_count == 1,
            _ => false,
        }
    }

    /// Those whose wait ends in the step.
    pub open spec fn ended(self, s: ChannelState<T>) -> Seq<DynamicSignal> {
        match self {
            Step::TrySend(_) if s.recv_count > 0 && s.receivers.len() > 0 => seq![s.receivers[0]],
            Step::TryRecv if s.recv_count > 0 && s.senders.len() > 0 => seq![s.senders[0]],
            Step::Drain => s.senders,
            _ => if self.ends_waits(s) {
                s.waiting()
            } else {
                Seq::empty()
            },
        }
    }

    /// Whether messages leave the channel without a receiver getting them: a
    /// sender that waits is given up, or the channel is closed with messages
    /// pending, or senders wait when a side goes.
    pub open spec fn discards(self, s: ChannelState<T>) -> bool {
        match self {
            Step::Release(p) => s.senders.contains(p),
            Step::Close => !s.is_closed() && s.pending().len() > 0,
            Step::DropSender => s.send_count == 1 && s.senders.len() > 0,
            Step::DropReceiver => s.recv_count == 1 && s.senders.len() > 0,
            _ => false,
        }
    }
}

/// The state after a series of steps.
pub open spec fn run<T>(s: ChannelState<T>, steps: Seq<Step<T>>) -> ChannelState<T>
    decreases steps.len(),
{
    if steps.len() == 0 {
        s
    } else {
        steps.last().apply(run(s, steps.drop_last()))
    }
}

/// Every step of the series can be made in its turn.
pub open spec fn run_enabled<T>(s: ChannelState<T>, steps: Seq<Step<T>>) -> bool
    decreases steps.len(),
{
    steps.len() > 0 ==> run_enabled(s, steps.drop_last()) && steps.last().enabled(
        run(s, steps.drop_last()),
    )
}

/// No step of the series discards messages.
pub open spec fn run_keeps<T>(s: ChannelState<T>, steps: Seq<Step<T>>) -> bool
    decreases steps.len(),
{
    steps.len() > 0 ==> run_keeps(s, steps.drop_last()) && !steps.last().discards(
        run(s, steps.drop_last()),
    )
}

/// The messages that the channel takes over in a series of steps, in order.
pub open spec fn run_accepted<T>(s: ChannelState<T>, steps: Seq<Step<T>>) -> Seq<T>
    decreases steps.len(),
{
    if steps.len() == 0 {
        Seq::empty()
    } else {
        run_accepted(s, steps.drop_last()) + steps.last().accepted(run(s, steps.drop_last()))
    }
}

/// The messages that receivers get in a series of steps, in order.
pub open spec fn run_handed<T>(s: ChannelState<T>, steps: Seq<Step<T>>) -> Seq<T>
    decreases steps.len(),
{
    if steps.len() == 0 {
        Seq::empty()
    } else {
        run_handed(s, steps.drop_last()) + steps.last().handed(run(s, steps.drop_last()))
    }
}

/// Every step leads from a state that a channel can be in to another such
/// state.
pub proof fn law_step_keeps_invariant<T>(s: ChannelState<T>, step: Step<T>)
    requires
        s.inv(),
        step.enabled(s),
    ensures
        step.apply(s).inv(),
{
    match step {
        Step::TrySend(data) => s.lemma_try_send_inv(data),
        Step::TryRecv => s.lemma_try_recv_inv(),
        Step::Drain => s.lemma_drained_inv(),
        Step::SenderWaits(p, data, waker) => s.lemma_sender_waiting_inv(p, data, waker),
        Step::ReceiverWaits(p, waker) => s.lemma_receiver_waiting_inv(p, waker),
        Step::Release(p) => s.lemma_released_inv(p),
        Step::UpdateWaker(p, waker) => s.lemma_waker_updated_inv(p, waker),
        Step::TakeWakes => {
            let next = s.wakes_taken();
            assert forall|i: int| 0 <= i < next.senders.len() implies next.sender_waits(
                #[trigger] next.senders[i],
            ) by {
                assert(s.sender_waits(s.senders[i]));
            }
            assert forall|i: int| 0 <= i < next.receivers.len() implies next.receiver_waits(
                #[trigger] next.receivers[i],
            ) by {
                assert(s.receiver_waits(s.receivers[i]));
            }
        },
        Step::Close => s.lemma_close_inv(),
        _ => s.lemma_count_inv(),
    }
}

/// Whatever is done with a new channel, its state is one that a channel can be
/// in.
pub proof fn law_invariant_always_holds<T>(capacity: nat, steps: Seq<Step<T>>)
    requires
        run_enabled(ChannelState::<T>::initial(capacity), steps),
    ensures
        run(ChannelState::<T>::initial(capacity), steps).inv(),
        run(ChannelState::<T>::initial(capacity), steps).capacity == capacity,
    decreases steps.len(),
{
    let s = ChannelState::<T>::initial(capacity);
    if steps.len() == 0 {
        ChannelState::<T>::lemma_initial_inv(capacity);
    } else {
        law_invariant_always_holds(capacity, steps.drop_last());
        law_step_keeps_invariant(run(s, steps.drop_last()), steps.last());
    }
}

} // verus!
