//! Sends and receives over all their polls: what is sent is received.

use crate::error::{ReceiveError, SendError};
use crate::future::{
    keeps_waiting, recv_polled, rest_sent, send_many_polled, send_polled, sender_alive,
    FutureState, Poll, Progress,
};
use crate::laws::order::law_step_keeps_order;
use crate::laws::polls::{law_send_many_poll_is_steps, taken_over};
use crate::laws::steps::{law_step_keeps_invariant, Step};
use crate::laws::waiting::{law_outcome_stays, lemma_ended_not_in_line, lemma_kind_stays};
use crate::signal::DynamicSignal;
use crate::state::ChannelState;
use core::task::Waker;
use vstd::prelude::*;

verus! {

/// A send that was polled, or several at once.
pub enum Sending<T> {
    /// A send with its signal in the channel.
    One(DynamicSignal),
    /// A send of many with a signal in the channel, and the messages that are
    /// left.
    Many(DynamicSignal, Seq<T>),
    /// The outcome was handed out. The messages are those that are left of a
    /// send of many.
    Ended(Result<(), SendError<T>>, Seq<T>),
}

/// A receive that was polled, or a message that was received without waiting.
pub enum Receiving<T> {
    /// A receive with its signal in the channel.
    Shared(DynamicSignal),
    /// The outcome was handed out.
    Ended(Result<T, ReceiveError>),
}

/// A channel and all who send and receive.
pub struct Exchange<T> {
    /// The channel.
    pub channel: ChannelState<T>,
    /// The sends, first begun first.
    pub sends: Seq<Sending<T>>,
    /// The receives, first begun first.
    pub receives: Seq<Receiving<T>>,
    /// The messages of the sends, in the order in which the channel took them
    /// over: that of a single send at its first poll, those of a send of many
    /// poll by poll from the front.
    pub sent: Seq<T>,
}

/// What is done with a channel by those who send and receive. A poll comes with
/// what it gives and with the progress after it.
pub enum Event<T> {
    /// The first poll of a send.
    Send(T, Waker, Poll<Result<(), SendError<T>>>, Progress<T>),
    /// Another poll of the given send.
    SendAgain(int, Waker, Poll<Result<(), SendError<T>>>, Progress<T>),
    /// The first poll of a send of many, and the messages that are left.
    SendMany(Seq<T>, Waker, Poll<Result<(), SendError<T>>>, Progress<()>, Seq<T>),
    /// Another poll of the given send of many, and the messages that are left.
    SendManyAgain(int, Waker, Poll<Result<(), SendError<T>>>, Progress<()>, Seq<T>),
    /// The first poll of a receive.
    Recv(Waker, Poll<Result<T, ReceiveError>>, Progress<()>),
    /// Another poll of the given receive.
    RecvAgain(int, Waker, Poll<Result<T, ReceiveError>>, Progress<()>),
    /// A step without waiting: a send, a receive, or one that concerns no
    /// message.
    Other(Step<T>),
}

/// A single send after a poll.
pub open spec fn one_sending<T>(
    r: Poll<Result<(), SendError<T>>>,
    progress: Progress<T>,
) -> Sending<T> {
    match r {
        Poll::Ready(outcome) => Sending::Ended(outcome, Seq::empty()),
        Poll::Pending => Sending::One(progress->Shared_0),
    }
}

/// A send of many after a poll.
pub open spec fn many_sending<T>(
    r: Poll<Result<(), SendError<T>>>,
    progress: Progress<()>,
    left: Seq<T>,
) -> Sending<T> {
    match r {
        Poll::Ready(outcome) => Sending::Ended(outcome, left),
        Poll::Pending => Sending::Many(progress->Shared_0, left),
    }
}

/// A receive after a poll.
pub open spec fn receiving<T>(
    r: Poll<Result<T, ReceiveError>>,
    progress: Progress<()>,
) -> Receiving<T> {
    match r {
        Poll::Ready(outcome) => Receiving::Ended(outcome),
        Poll::Pending => Receiving::Shared(progress->Shared_0),
    }
}

/// Messages that were received without waiting.
pub open spec fn received_at_once<T>(messages: Seq<T>) -> Seq<Receiving<T>> {
    messages.map_values(|data: T| Receiving::Ended(Ok(data)))
}

/// The messages that a step without waiting receives.
pub open spec fn fetched_by<T>(step: Step<T>, s: ChannelState<T>) -> Seq<T> {
    match step {
        Step::TryRecv => step.handed(s),
        Step::Drain => step.handed(s),
        _ => Seq::empty(),
    }
}

/// The steps that do not wait, give nobody up and do not close.
pub open spec fn is_plain<T>(step: Step<T>) -> bool {
    match step {
        Step::TrySend(_) => true,
        Step::TryRecv => true,
        Step::Drain => true,
        Step::TakeWakes => true,
        Step::CloneSender => true,
        Step::CloneReceiver => true,
        Step::DropSender => true,
        Step::DropReceiver => true,
        _ => false,
    }
}

impl<T> Exchange<T> {
    /// A new channel that nobody has used yet.
    pub open spec fn initial(capacity: nat) -> Exchange<T> {
        Exchange {
            channel: ChannelState::initial(capacity),
            sends: Seq::empty(),
            receives: Seq::empty(),
            sent: Seq::empty(),
        }
    }

    /// Some receiver is alive.
    pub open spec fn has_receivers(self) -> bool {
        self.channel.recv_count > 0
    }

    /// Every receive has come to its end.
    pub open spec fn all_received(self) -> bool {
        forall|k: int| 0 <= k < self.receives.len() ==> (#[trigger] self.receives[k]) is Ended
    }

    /// The messages that the receives gave, first begun first. At the place of a
    /// receive that gave none it says nothing.
    pub open spec fn received(self) -> Seq<T> {
        self.receives.map_values(|x: Receiving<T>| x->Ended_0->Ok_0)
    }
}

/// What an event makes of a channel and of those who send and receive. Whoever
/// sends has a sender, and the last sender does not go while a send waits in
/// line.
pub open spec fn happens<T>(before: Exchange<T>, event: Event<T>, after: Exchange<T>) -> bool {
    let s = before.channel;
    let t = after.channel;
    match event {
        Event::Send(data, waker, r, progress) => {
            &&& sender_alive(s)
            &&& send_polled((Progress::New(data), s), waker, r, (progress, t))
            &&& after.sends == before.sends.push(one_sending(r, progress))
            &&& after.receives == before.receives
            &&& after.sent == before.sent.push(data)
        },
        Event::SendAgain(k, waker, r, progress) => {
            &&& 0 <= k < before.sends.len()
            &&& before.sends[k] matches Sending::One(p)
            &&& sender_alive(s)
            &&& send_polled((Progress::Shared(p), s), waker, r, (progress, t))
            &&& after.sends == before.sends.update(k, one_sending(r, progress))
            &&& after.receives == before.receives
            &&& after.sent == before.sent
        },
        Event::SendMany(messages, waker, r, progress, left) => {
            &&& sender_alive(s)
            &&& send_many_polled((Progress::New(()), s, messages), waker, r, (progress, t, left))
            &&& after.sends == before.sends.push(many_sending(r, progress, left))
            &&& after.receives == before.receives
            &&& after.sent == before.sent + taken_over(messages, r, left)
        },
        Event::SendManyAgain(k, waker, r, progress, left) => {
            &&& 0 <= k < before.sends.len()
            &&& before.sends[k] matches Sending::Many(p, messages)
            &&& sender_alive(s)
            &&& send_many_polled(
                (Progress::Shared(p), s, messages),
                waker,
                r,
                (progress, t, left),
            )
            &&& after.sends == before.sends.update(k, many_sending(r, progress, left))
            &&& after.receives == before.receives
            &&& after.sent == before.sent + taken_over(messages, r, left)
        },
        Event::Recv(waker, r, progress) => {
            &&& recv_polled((Progress::New(()), s), waker, r, (progress, t))
            &&& after.sends == before.sends
            &&& after.receives == before.receives.push(receiving(r, progress))
            &&& after.sent == before.sent
        },
        Event::RecvAgain(k, waker, r, progress) => {
            &&& 0 <= k < before.receives.len()
            &&& before.receives[k] matches Receiving::Shared(p)
            &&& recv_polled((Progress::Shared(p), s), waker, r, (progress, t))
            &&& after.sends == before.sends
            &&& after.receives == before.receives.update(k, receiving(r, progress))
            &&& after.sent == before.sent
        },
        Event::Other(step) => {
            &&& is_plain(step)
            &&& step.enabled(s)
            &&& step is TrySend ==> sender_alive(s)
            &&& !step.discards(s)
            &&& t == step.apply(s)
            &&& after.sends == before.sends
            &&& after.receives == before.receives + received_at_once(fetched_by(step, s))
            &&& after.sent == before.sent + step.accepted(s)
        },
    }
}

/// A series of events from a new channel on, during which it is never closed,
/// the receiving side does not go, and no send or receive is given up. The
/// sending side may go.
pub open spec fn exchanged<T>(
    capacity: nat,
    events: Seq<Event<T>>,
    states: Seq<Exchange<T>>,
) -> bool {
    &&& states.len() == events.len() + 1
    &&& states[0] == Exchange::<T>::initial(capacity)
    &&& forall|i: int| 0 <= i < states.len() ==> (#[trigger] states[i]).has_receivers()
    &&& forall|i: int|
        0 <= i < events.len() ==> happens(states[i], #[trigger] events[i], states[i + 1])
}

/// What a receive at place `k` gives at its end: the message that was sent at
/// the same place, and an error if there is none.
pub open spec fn due<T>(k: int, sent: Seq<T>) -> Result<T, ReceiveError> {
    if k < sent.len() {
        Ok(sent[k])
    } else {
        Err(ReceiveError())
    }
}

/// What a receive at place `k` has got, or will get. One for which no message
/// was sent waits as long as there are senders, and then fails.
pub open spec fn settled<T>(s: ChannelState<T>, x: Receiving<T>, k: int, sent: Seq<T>) -> bool {
    match x {
        Receiving::Shared(p) => {
            &&& s.signals.dom().contains(p)
            &&& s.signals[p].of_receiver()
            &&& if k < sent.len() {
                s.signals[p].state == FutureState::Success && s.signals[p].data == Some(sent[k])
            } else if s.send_count > 0 {
                s.signals[p].state == FutureState::Pending
            } else {
                s.signals[p].state == FutureState::Failure
            }
        },
        Receiving::Ended(r) => r == due(k, sent) && (k < sent.len() || s.send_count == 0),
    }
}

spec fn receivers_apart<T>(x: Receiving<T>, y: Receiving<T>) -> bool {
    x is Shared && y is Shared ==> x != y
}

/// No signal of a sender has failed.
spec fn no_send_failed<T>(s: ChannelState<T>) -> bool {
    forall|p: DynamicSignal| #[trigger]
        s.signals.dom().contains(p) && s.signals[p].of_sender() ==> s.signals[p].state
            != FutureState::Failure
}

/// Messages and receives find each other in order: who receives more waits or
/// fails, and what is sent more is pending.
spec fn matched<T>(s: ChannelState<T>, receives: Seq<Receiving<T>>, sent: Seq<T>) -> bool {
    &&& s.inv()
    &&& s.recv_count > 0
    &&& no_send_failed(s)
    &&& receives.len() <= sent.len() ==> s.receivers.len() == 0 && s.pending() == sent.skip(
        receives.len() as int,
    )
    &&& receives.len() > sent.len() ==> s.pending().len() == 0
    &&& receives.len() > sent.len() && s.send_count > 0 ==> s.receivers.len() == receives.len()
        - sent.len()
    &&& forall|k: int|
        0 <= k < s.receivers.len() ==> receives[sent.len() + k] == Receiving::<T>::Shared(
            #[trigger] s.receivers[k],
        )
    &&& forall|k: int| 0 <= k < receives.len() ==> settled(s, #[trigger] receives[k], k, sent)
    &&& forall|j: int, k: int|
        0 <= j < k < receives.len() ==> receivers_apart(
            #[trigger] receives[j],
            #[trigger] receives[k],
        )
}

/// The signal of a send, if it is in the channel.
spec fn signal_of<T>(x: Sending<T>) -> Option<DynamicSignal> {
    match x {
        Sending::One(p) => Some(p),
        Sending::Many(p, _) => Some(p),
        Sending::Ended(_, _) => None,
    }
}

spec fn going_on<T>(s: ChannelState<T>, x: Sending<T>) -> bool {
    match x {
        Sending::Ended(r, left) => r == Ok::<(), SendError<T>>(()) && left.len() == 0,
        _ => {
            let p = signal_of(x)->0;
            s.signals.dom().contains(p) && s.signals[p].of_sender()
        },
    }
}

spec fn senders_apart<T>(x: Sending<T>, y: Sending<T>) -> bool {
    signal_of(x) is Some ==> signal_of(x) != signal_of(y)
}

/// No send has failed, and each has a signal of its own.
spec fn all_going_on<T>(s: ChannelState<T>, sends: Seq<Sending<T>>) -> bool {
    &&& forall|k: int| 0 <= k < sends.len() ==> going_on(s, #[trigger] sends[k])
    &&& forall|j: int, k: int|
        0 <= j < k < sends.len() ==> senders_apart(#[trigger] sends[j], #[trigger] sends[k])
}

/// A step of others leaves a send going on.
proof fn lemma_going_on<T>(s: ChannelState<T>, step: Step<T>, sends: Seq<Sending<T>>)
    requires
        s.inv(),
        step.enabled(s),
        all_going_on(s, sends),
        forall|k: int|
            0 <= k < sends.len() && signal_of(#[trigger] sends[k]) is Some ==> step != Step::<
                T,
            >::Release(signal_of(sends[k])->0),
    ensures
        all_going_on(step.apply(s), sends),
{
    assert forall|k: int| 0 <= k < sends.len() implies going_on(
        step.apply(s),
        #[trigger] sends[k],
    ) by {
        assert(going_on(s, sends[k]));
        if signal_of(sends[k]) is Some {
            lemma_kind_stays(s, step, signal_of(sends[k])->0);
        }
    }
}

/// The steps by which messages come in and go out, but for those by which a
/// receive gets in line or collects its outcome.
spec fn is_passing<T>(s: ChannelState<T>, step: Step<T>) -> bool {
    match step {
        Step::SenderWaits(_, _, _) => true,
        Step::UpdateWaker(_, _) => true,
        Step::Release(p) => s.signals[p].of_sender() && s.signals[p].state != FutureState::Pending,
        _ => is_plain(step),
    }
}

/// No send fails in a step that ends no waits.
proof fn lemma_no_send_fails<T>(s: ChannelState<T>, step: Step<T>)
    requires
        s.inv(),
        step.enabled(s),
        is_passing(s, step),
        !step.ends_waits(s),
        no_send_failed(s),
    ensures
        no_send_failed(step.apply(s)),
{
}

/// A receive that has its message, or has failed, stays as it is, and one that
/// waits stays valid.
proof fn lemma_settled_stays<T>(
    s: ChannelState<T>,
    step: Step<T>,
    x: Receiving<T>,
    k: int,
    sent: Seq<T>,
    more: Seq<T>,
)
    requires
        s.inv(),
        step.enabled(s),
        is_passing(s, step),
        !step.ends_waits(s),
        settled(s, x, k, sent),
        0 <= k,
    ensures
        k < sent.len() ==> settled(step.apply(s), x, k, sent + more),
        s.send_count == 0 ==> settled(step.apply(s), x, k, sent),
        x matches Receiving::Shared(p) ==> {
            &&& step.apply(s).signals.dom().contains(p)
            &&& step.apply(s).signals[p].of_receiver()
        },
{
    if let Receiving::Shared(p) = x {
        lemma_kind_stays(s, step, p);
        if k < sent.len() || s.send_count == 0 {
            law_outcome_stays(s, step, p);
        }
    }
}

/// A message that goes to the first receiver in line.
proof fn lemma_given<T>(s: ChannelState<T>, data: T, receives: Seq<Receiving<T>>, sent: Seq<T>)
    requires
        matched(s, receives, sent),
        s.receivers.len() > 0,
    ensures
        matched(s.try_send(data).0, receives, sent.push(data)),
{
    let step = Step::TrySend(data);
    let t = step.apply(s);
    let m = sent.len() as int;
    law_step_keeps_invariant(s, step);
    lemma_no_send_fails(s, step);
    law_step_keeps_order(s, step);
    assert(s.pending() =~= Seq::<T>::empty());
    assert((s.pending() + step.accepted(s)).len() == 1);
    assert(t.pending() =~= Seq::<T>::empty());
    assert(sent.push(data).skip(m + 1) =~= Seq::<T>::empty());
    let p = s.receivers[0];
    assert(s.receiver_waits(p));
    assert(receives[m] == Receiving::<T>::Shared(p));
    assert forall|k: int| 0 <= k < t.receivers.len() implies receives[sent.push(data).len() + k]
        == Receiving::<T>::Shared(#[trigger] t.receivers[k]) by {
        assert(t.receivers[k] == s.receivers[k + 1]);
    }
    assert forall|k: int| 0 <= k < receives.len() implies settled(
        t,
        #[trigger] receives[k],
        k,
        sent.push(data),
    ) by {
        assert(settled(s, receives[k], k, sent));
        lemma_settled_stays(s, step, receives[k], k, sent, seq![data]);
        assert(sent + seq![data] =~= sent.push(data));
        if k > m {
            assert(t.receiver_waits(t.receivers[k - m - 1]));
            assert(receives[k] == Receiving::<T>::Shared(s.receivers[k - m]));
        }
    }
}

/// Messages that come in and go out, with nobody in line getting one.
proof fn lemma_passed<T>(
    s: ChannelState<T>,
    step: Step<T>,
    receives: Seq<Receiving<T>>,
    sent: Seq<T>,
)
    requires
        matched(s, receives, sent),
        step.enabled(s),
        is_passing(s, step),
        step is TrySend ==> s.receivers.len() == 0 && s.send_count > 0,
        !step.ends_waits(s),
    ensures
        matched(
            step.apply(s),
            receives + received_at_once(fetched_by(step, s)),
            sent + step.accepted(s),
        ),
{
    let t = step.apply(s);
    let got = fetched_by(step, s);
    let coming = step.accepted(s);
    let all = sent + coming;
    let now = receives + received_at_once(got);
    let n = receives.len() as int;
    law_step_keeps_invariant(s, step);
    lemma_no_send_fails(s, step);
    if let Step::Release(p) = step {
        lemma_ended_not_in_line(s, p);
    }
    law_step_keeps_order(s, step);
    assert(step.handed(s) =~= got);
    assert(s.pending() + coming == got + t.pending());
    assert(t.receivers =~= s.receivers);
    if receives.len() <= sent.len() {
        let due = all.skip(n);
        assert(due =~= s.pending() + coming);
        assert(due.len() == got.len() + t.pending().len());
        assert(all.skip(n + got.len()) =~= t.pending()) by {
            assert forall|i: int| 0 <= i < t.pending().len() implies all[n + got.len() + i]
                == #[trigger] t.pending()[i] by {
                assert(due[got.len() + i] == (got + t.pending())[got.len() + i]);
            }
        }
        assert forall|i: int| 0 <= i < got.len() implies all[n + i] == #[trigger] got[i] by {
            assert(due[i] == (got + t.pending())[i]);
        }
    } else {
        assert(s.send_count > 0 ==> s.accepts());
        assert(coming =~= Seq::<T>::empty());
        assert((got + t.pending()).len() == 0);
        assert(all =~= sent);
        assert(now =~= receives);
    }
    assert forall|k: int| 0 <= k < t.receivers.len() implies now[all.len() + k] == Receiving::<
        T,
    >::Shared(#[trigger] t.receivers[k]) by {
        assert(t.receivers[k] == s.receivers[k]);
    }
    assert forall|k: int| 0 <= k < now.len() implies settled(t, #[trigger] now[k], k, all) by {
        if k < n {
            assert(now[k] == receives[k]);
            assert(settled(s, receives[k], k, sent));
            lemma_settled_stays(s, step, receives[k], k, sent, coming);
            if k >= sent.len() && s.send_count > 0 {
                assert(receives[k] == Receiving::<T>::Shared(s.receivers[k - sent.len()]));
                assert(t.receiver_waits(t.receivers[k - sent.len()]));
            }
        } else {
            assert(now[k] == Receiving::<T>::Ended(Ok(got[k - n])));
            assert(all[k] == got[k - n]);
        }
    }
    assert forall|j: int, k: int| 0 <= j < k < now.len() implies receivers_apart(
        #[trigger] now[j],
        #[trigger] now[k],
    ) by {
        if k < n {
            assert(now[j] == receives[j] && now[k] == receives[k]);
        } else {
            assert(now[k] is Ended);
        }
    }
}

/// A receive that gets in line.
proof fn lemma_got_in_line<T>(
    s: ChannelState<T>,
    p: DynamicSignal,
    waker: Waker,
    receives: Seq<Receiving<T>>,
    sent: Seq<T>,
)
    requires
        matched(s, receives, sent),
        Step::<T>::ReceiverWaits(p, waker).enabled(s),
    ensures
        matched(s.receiver_waiting(p, waker), receives.push(Receiving::Shared(p)), sent),
{
    let step = Step::<T>::ReceiverWaits(p, waker);
    let t = s.receiver_waiting(p, waker);
    let now = receives.push(Receiving::Shared(p));
    law_step_keeps_invariant(s, step);
    law_step_keeps_order(s, step);
    assert(s.pending() + step.accepted(s) =~= s.pending());
    assert(step.handed(s) + t.pending() =~= t.pending());
    assert(t.pending().len() == 0);
    if receives.len() <= sent.len() {
        assert(receives.len() == sent.len());
    }
    assert forall|k: int| 0 <= k < t.receivers.len() implies now[sent.len() + k] == Receiving::<
        T,
    >::Shared(#[trigger] t.receivers[k]) by {
        if k < s.receivers.len() {
            assert(t.receivers[k] == s.receivers[k]);
        }
    }
    assert forall|k: int| 0 <= k < now.len() implies settled(t, #[trigger] now[k], k, sent) by {
        if k < receives.len() {
            assert(settled(s, receives[k], k, sent));
        }
    }
    assert forall|j: int, k: int| 0 <= j < k < now.len() implies receivers_apart(
        #[trigger] now[j],
        #[trigger] now[k],
    ) by {
        assert(settled(s, receives[j], j, sent));
        if k < receives.len() {
            assert(now[j] == receives[j] && now[k] == receives[k]);
        }
    }
}

/// A receive that finds that no message will come.
proof fn lemma_failed_at_once<T>(s: ChannelState<T>, receives: Seq<Receiving<T>>, sent: Seq<T>)
    requires
        matched(s, receives, sent),
        s.send_count == 0,
        s.pending().len() == 0,
    ensures
        matched(s, receives.push(Receiving::Ended(Err(ReceiveError()))), sent),
{
    let now = receives.push(Receiving::Ended(Err(ReceiveError())));
    if receives.len() <= sent.len() {
        assert(receives.len() == sent.len());
    }
    assert forall|k: int| 0 <= k < now.len() implies settled(s, #[trigger] now[k], k, sent) by {
        if k < receives.len() {
            assert(settled(s, receives[k], k, sent));
        }
    }
    assert forall|j: int, k: int| 0 <= j < k < now.len() implies receivers_apart(
        #[trigger] now[j],
        #[trigger] now[k],
    ) by {
        if k < receives.len() {
            assert(now[j] == receives[j] && now[k] == receives[k]);
        }
    }
}

/// The last sender goes while no send waits in line: receives that wait fail.
proof fn lemma_last_sender_gone<T>(
    s: ChannelState<T>,
    receives: Seq<Receiving<T>>,
    sent: Seq<T>,
)
    requires
        matched(s, receives, sent),
        s.send_count == 1,
        s.senders.len() == 0,
    ensures
        matched(s.sender_dropped(), receives, sent),
{
    let step = Step::<T>::DropSender;
    let t = s.sender_dropped();
    let line = s.waiting();
    law_step_keeps_invariant(s, step);
    law_step_keeps_order(s, step);
    assert(s.pending() + step.accepted(s) =~= s.pending());
    assert(step.handed(s) + t.pending() =~= t.pending());
    assert(line =~= s.receivers);
    assert forall|p: DynamicSignal| #[trigger]
        t.signals.dom().contains(p) && t.signals[p].of_sender() implies t.signals[p].state
        != FutureState::Failure by {
        if line.contains(p) {
            assert(s.receiver_waits(s.receivers[s.receivers.index_of(p)]));
        }
    }
    assert forall|k: int| 0 <= k < receives.len() implies settled(
        t,
        #[trigger] receives[k],
        k,
        sent,
    ) by {
        assert(settled(s, receives[k], k, sent));
        if let Receiving::Shared(p) = receives[k] {
            if k < sent.len() {
                lemma_ended_not_in_line(s, p);
            } else {
                assert(s.receivers[k - sent.len()] == p);
                assert(line.contains(p));
            }
        }
    }
}

/// A receive that collects its outcome.
proof fn lemma_collected<T>(
    s: ChannelState<T>,
    k: int,
    receives: Seq<Receiving<T>>,
    sent: Seq<T>,
)
    requires
        matched(s, receives, sent),
        0 <= k < receives.len(),
        receives[k] is Shared,
        s.signals[receives[k]->Shared_0].state != FutureState::Pending,
    ensures
        matched(
            s.released(receives[k]->Shared_0),
            receives.update(k, Receiving::Ended(due(k, sent))),
            sent,
        ),
{
    let p = receives[k]->Shared_0;
    let step = Step::<T>::Release(p);
    let t = s.released(p);
    let now = receives.update(k, Receiving::Ended(due(k, sent)));
    assert(settled(s, receives[k], k, sent));
    lemma_ended_not_in_line(s, p);
    law_step_keeps_invariant(s, step);
    law_step_keeps_order(s, step);
    assert(s.pending() + step.accepted(s) =~= s.pending());
    assert(step.handed(s) + t.pending() =~= t.pending());
    assert(t.receivers =~= s.receivers);
    assert forall|i: int| 0 <= i < t.receivers.len() implies now[sent.len() + i] == Receiving::<
        T,
    >::Shared(#[trigger] t.receivers[i]) by {
        assert(t.receivers[i] == s.receivers[i]);
        assert(s.receivers.contains(s.receivers[i]));
    }
    assert forall|i: int| 0 <= i < now.len() implies settled(t, #[trigger] now[i], i, sent) by {
        assert(settled(s, receives[i], i, sent));
        if i < k {
            assert(receivers_apart(receives[i], receives[k]));
        } else if i > k {
            assert(receivers_apart(receives[k], receives[i]));
        }
    }
    assert forall|i: int, j: int| 0 <= i < j < now.len() implies receivers_apart(
        #[trigger] now[i],
        #[trigger] now[j],
    ) by {
        assert(receivers_apart(receives[i], receives[j]));
    }
}

/// What holds of a channel and of all who send and receive at every time.
pub(crate) closed spec fn sound<T>(e: Exchange<T>) -> bool {
    &&& matched(e.channel, e.receives, e.sent)
    &&& all_going_on(e.channel, e.sends)
}

/// A send without waiting on an open channel that accepts it.
proof fn lemma_sent_at_once<T>(
    s: ChannelState<T>,
    data: T,
    sends: Seq<Sending<T>>,
    receives: Seq<Receiving<T>>,
    sent: Seq<T>,
)
    requires
        matched(s, receives, sent),
        all_going_on(s, sends),
        s.send_count > 0,
        s.accepts(),
    ensures
        matched(s.try_send(data).0, receives, sent.push(data)),
        all_going_on(s.try_send(data).0, sends),
{
    let step = Step::TrySend(data);
    lemma_going_on(s, step, sends);
    if s.receivers.len() > 0 {
        lemma_given(s, data, receives, sent);
    } else {
        lemma_passed(s, step, receives, sent);
        assert(receives + received_at_once(fetched_by(step, s)) =~= receives);
        assert(sent + step.accepted(s) =~= sent.push(data));
    }
}

/// A sender that gets in line.
proof fn lemma_sender_got_in_line<T>(
    s: ChannelState<T>,
    p: DynamicSignal,
    data: T,
    waker: Waker,
    sends: Seq<Sending<T>>,
    receives: Seq<Receiving<T>>,
    sent: Seq<T>,
)
    requires
        matched(s, receives, sent),
        all_going_on(s, sends),
        Step::SenderWaits(p, data, waker).enabled(s),
    ensures
        matched(s.sender_waiting(p, data, waker), receives, sent.push(data)),
        all_going_on(s.sender_waiting(p, data, waker), sends),
        is_new(sends, p),
{
    let step = Step::SenderWaits(p, data, waker);
    lemma_going_on(s, step, sends);
    lemma_passed(s, step, receives, sent);
    assert(receives + received_at_once(fetched_by(step, s)) =~= receives);
    assert(sent + step.accepted(s) =~= sent.push(data));
    assert forall|k: int| 0 <= k < sends.len() implies signal_of(#[trigger] sends[k]) != Some(
        p,
    ) by {
        assert(going_on(s, sends[k]));
    }
}

/// The signal is that of none of the sends.
spec fn is_new<T>(sends: Seq<Sending<T>>, p: DynamicSignal) -> bool {
    forall|k: int| 0 <= k < sends.len() ==> signal_of(#[trigger] sends[k]) != Some(p)
}

/// A send whose wait has ended gives its signal up.
proof fn lemma_send_released<T>(
    s: ChannelState<T>,
    k: int,
    p: DynamicSignal,
    sends: Seq<Sending<T>>,
    receives: Seq<Receiving<T>>,
    sent: Seq<T>,
)
    requires
        matched(s, receives, sent),
        all_going_on(s, sends),
        0 <= k < sends.len(),
        signal_of(sends[k]) == Some(p),
        s.signals[p].state != FutureState::Pending,
    ensures
        s.signals[p].state == FutureState::Success,
        matched(s.released(p), receives, sent),
        all_going_on(s.released(p), sends.update(k, Sending::Ended(Ok(()), Seq::empty()))),
{
    let step = Step::<T>::Release(p);
    let others = sends.update(k, Sending::Ended(Ok(()), Seq::empty()));
    assert(going_on(s, sends[k]));
    assert forall|j: int| 0 <= j < others.len() implies going_on(s, #[trigger] others[j])
        && signal_of(others[j]) != Some(p) by {
        assert(going_on(s, sends[j]));
        if j < k {
            assert(senders_apart(sends[j], sends[k]));
        } else if j > k {
            assert(senders_apart(sends[k], sends[j]));
        }
    }
    assert forall|i: int, j: int| 0 <= i < j < others.len() implies senders_apart(
        #[trigger] others[i],
        #[trigger] others[j],
    ) by {
        assert(senders_apart(sends[i], sends[j]));
    }
    lemma_going_on(s, step, others);
    lemma_passed(s, step, receives, sent);
    assert(receives + received_at_once(fetched_by(step, s)) =~= receives);
    assert(sent + step.accepted(s) =~= sent);
}

/// A signal that gets another waker, or keeps its own.
proof fn lemma_kept_waiting<T>(
    s: ChannelState<T>,
    t: ChannelState<T>,
    p: DynamicSignal,
    waker: Waker,
    sends: Seq<Sending<T>>,
    receives: Seq<Receiving<T>>,
    sent: Seq<T>,
)
    requires
        matched(s, receives, sent),
        all_going_on(s, sends),
        s.signals.dom().contains(p),
        keeps_waiting(s, t, p, waker),
    ensures
        matched(t, receives, sent),
        all_going_on(t, sends),
{
    let step = Step::<T>::UpdateWaker(p, waker);
    lemma_going_on(s, step, sends);
    lemma_passed(s, step, receives, sent);
    assert(receives + received_at_once(fetched_by(step, s)) =~= receives);
    assert(sent + step.accepted(s) =~= sent);
    assert(t == s || t == step.apply(s));
}

/// Sends one after the other as long as none has to wait.
proof fn lemma_all_sent<T>(
    s: ChannelState<T>,
    data: Seq<T>,
    sends: Seq<Sending<T>>,
    receives: Seq<Receiving<T>>,
    sent: Seq<T>,
)
    requires
        matched(s, receives, sent),
        all_going_on(s, sends),
        s.send_count > 0,
    ensures
        ({
            let (next, rest) = s.send_all(data);
            let n = data.len() - rest.len();
            &&& 0 <= n
            &&& rest == data.skip(n)
            &&& matched(next, receives, sent + data.take(n))
            &&& all_going_on(next, sends)
        }),
    decreases data.len(),
{
    let (next, rest) = s.send_all(data);
    if data.len() > 0 && s.accepts() {
        let mid = s.try_send(data[0]).0;
        let tail = data.drop_first();
        lemma_sent_at_once(s, data[0], sends, receives, sent);
        lemma_all_sent(mid, tail, sends, receives, sent.push(data[0]));
        let n = data.len() - rest.len();
        assert(rest =~= data.skip(n));
        assert(sent.push(data[0]) + tail.take(n - 1) =~= sent + data.take(n));
    } else {
        assert(rest =~= data.skip(0));
        assert(sent + data.take(0) =~= sent);
    }
}

/// A poll of a send of many, none of whose messages waits.
proof fn lemma_rest_sent<T>(
    s: ChannelState<T>,
    messages: Seq<T>,
    waker: Waker,
    r: Poll<Result<(), SendError<T>>>,
    after: (Progress<()>, ChannelState<T>, Seq<T>),
    sends: Seq<Sending<T>>,
    receives: Seq<Receiving<T>>,
    sent: Seq<T>,
)
    requires
        matched(s, receives, sent),
        all_going_on(s, sends),
        s.send_count > 0,
        rest_sent(s, messages, waker, r, after),
    ensures
        matched(after.1, receives, sent + taken_over(messages, r, after.2)),
        all_going_on(after.1, sends),
        r matches Poll::Ready(x) ==> x == Ok::<(), SendError<T>>(()) && after.2.len() == 0,
        r is Pending ==> {
            let p = after.0->Shared_0;
            &&& is_new(sends, p)
            &&& after.1.signals.dom().contains(p)
            &&& after.1.signals[p].of_sender()
        },
{
    let (next, rest) = s.send_all(messages);
    let n = messages.len() - rest.len();
    lemma_all_sent(s, messages, sends, receives, sent);
    s.lemma_send_all_counts(messages);
    if rest.len() == 0 {
        assert(messages.take(n) =~= taken_over(messages, r, after.2));
    } else {
        let p = after.0->Shared_0;
        let so_far = sent + messages.take(n);
        lemma_sender_got_in_line(next, p, rest[0], waker, sends, receives, so_far);
        assert(so_far.push(rest[0]) =~= sent + taken_over(messages, r, after.2));
    }
}

/// One more send, or another progress of one that was done with.
proof fn lemma_placed<T>(s: ChannelState<T>, sends: Seq<Sending<T>>, x: Sending<T>)
    requires
        all_going_on(s, sends),
        going_on(s, x),
        signal_of(x) matches Some(p) ==> is_new(sends, p),
    ensures
        all_going_on(s, sends.push(x)),
        forall|k: int| 0 <= k < sends.len() ==> all_going_on(s, #[trigger] sends.update(k, x)),
{
    let more = sends.push(x);
    assert forall|i: int, j: int| 0 <= i < j < more.len() implies senders_apart(
        #[trigger] more[i],
        #[trigger] more[j],
    ) by {
        if j < sends.len() {
            assert(senders_apart(sends[i], sends[j]));
        } else {
            assert(more[i] == sends[i]);
        }
    }
    assert forall|k: int| 0 <= k < sends.len() implies all_going_on(
        s,
        #[trigger] sends.update(k, x),
    ) by {
        let now = sends.update(k, x);
        assert forall|i: int, j: int| 0 <= i < j < now.len() implies senders_apart(
            #[trigger] now[i],
            #[trigger] now[j],
        ) by {
            assert(senders_apart(sends[i], sends[j]));
            assert(signal_of(sends[i]) is Some ==> signal_of(sends[i]) != signal_of(x));
            assert(signal_of(x) is Some ==> signal_of(x) != signal_of(sends[j]));
        }
    }
}

pub(crate) proof fn lemma_event_keeps_sound<T>(
    before: Exchange<T>,
    event: Event<T>,
    after: Exchange<T>,
)
    requires
        sound(before),
        happens(before, event, after),
        after.has_receivers(),
    ensures
        sound(after),
{
    let s = before.channel;
    let t = after.channel;
    let (sends, receives, sent) = (before.sends, before.receives, before.sent);
    match event {
        Event::Send(data, waker, r, progress) => {
            if s.accepts() {
                lemma_sent_at_once(s, data, sends, receives, sent);
            } else {
                let p = progress->Shared_0;
                lemma_sender_got_in_line(s, p, data, waker, sends, receives, sent);
            }
            lemma_placed(t, sends, one_sending(r, progress));
        },
        Event::SendAgain(k, waker, r, progress) => {
            let p = sends[k]->One_0;
            assert(going_on(s, sends[k]));
            if s.signals[p].state != FutureState::Pending {
                lemma_send_released(s, k, p, sends, receives, sent);
            } else {
                lemma_kept_waiting(s, t, p, waker, sends, receives, sent);
                assert(sends.update(k, one_sending(r, progress)) =~= sends);
            }
        },
        Event::SendMany(messages, waker, r, progress, left) => {
            lemma_rest_sent(s, messages, waker, r, (progress, t, left), sends, receives, sent);
            lemma_placed(t, sends, many_sending(r, progress, left));
        },
        Event::SendManyAgain(k, waker, r, progress, left) => {
            let p = sends[k]->Many_0;
            let messages = sends[k]->Many_1;
            assert(going_on(s, sends[k]));
            if s.signals[p].state != FutureState::Pending {
                let done = sends.update(k, Sending::Ended(Ok(()), Seq::empty()));
                let x = many_sending(r, progress, left);
                lemma_send_released(s, k, p, sends, receives, sent);
                lemma_rest_sent(
                    s.released(p),
                    messages,
                    waker,
                    r,
                    (progress, t, left),
                    done,
                    receives,
                    sent,
                );
                lemma_placed(t, done, x);
                assert(done.update(k, x) =~= sends.update(k, x));
            } else {
                lemma_kept_waiting(s, t, p, waker, sends, receives, sent);
                assert(sends.update(k, many_sending(r, progress, left)) =~= sends);
                assert(sent + taken_over(messages, r, left) =~= sent);
            }
        },
        Event::Recv(waker, r, progress) => {
            if s.try_recv().1 matches Ok(None) {
                let p = progress->Shared_0;
                assert(s.pending().len() == 0);
                lemma_got_in_line(s, p, waker, receives, sent);
                lemma_going_on(s, Step::ReceiverWaits(p, waker), sends);
            } else if s.try_recv().1 is Err {
                assert(s.pending().len() == 0);
                lemma_failed_at_once(s, receives, sent);
            } else {
                let step = Step::<T>::TryRecv;
                lemma_passed(s, step, receives, sent);
                lemma_going_on(s, step, sends);
                assert(sent + step.accepted(s) =~= sent);
                assert(receives + received_at_once(fetched_by(step, s)) =~= after.receives);
            }
        },
        Event::RecvAgain(k, waker, r, progress) => {
            let p = receives[k]->Shared_0;
            assert(settled(s, receives[k], k, sent));
            if s.signals[p].state != FutureState::Pending {
                lemma_collected(s, k, receives, sent);
                assert forall|i: int| 0 <= i < sends.len() && signal_of(
                    #[trigger] sends[i],
                ) is Some implies signal_of(sends[i])->0 != p by {
                    assert(going_on(s, sends[i]));
                }
                lemma_going_on(s, Step::Release(p), sends);
            } else {
                lemma_kept_waiting(s, t, p, waker, sends, receives, sent);
                assert(receives.update(k, receiving(r, progress)) =~= receives);
            }
        },
        Event::Other(step) => {
            lemma_going_on(s, step, sends);
            if step is TrySend && s.receivers.len() > 0 {
                let data = step->TrySend_0;
                lemma_given(s, data, receives, sent);
                assert(receives + received_at_once(fetched_by(step, s)) =~= receives);
                assert(sent + step.accepted(s) =~= sent.push(data));
            } else if step is DropSender && s.send_count == 1 {
                lemma_last_sender_gone(s, receives, sent);
                assert(receives + received_at_once(fetched_by(step, s)) =~= receives);
                assert(sent + step.accepted(s) =~= sent);
            } else {
                lemma_passed(s, step, receives, sent);
            }
        },
    }
}

pub(crate) proof fn lemma_sound_at_first<T>(capacity: nat)
    ensures
        sound(Exchange::<T>::initial(capacity)),
{
    let e = Exchange::<T>::initial(capacity);
    ChannelState::<T>::lemma_initial_inv(capacity);
    assert(e.channel.pending() =~= Seq::<T>::empty());
    assert(e.sent.skip(0) =~= Seq::<T>::empty());
}

/// What soundness says of the channel and of the receives.
pub(crate) proof fn lemma_sound_facts<T>(e: Exchange<T>)
    requires
        sound(e),
    ensures
        e.channel.inv(),
        e.channel.recv_count > 0,
        e.receives.len() <= e.sent.len() ==> e.channel.pending() == e.sent.skip(
            e.receives.len() as int,
        ),
        e.receives.len() > e.sent.len() ==> e.channel.pending().len() == 0,
        forall|k: int|
            0 <= k < e.receives.len() ==> settled(e.channel, #[trigger] e.receives[k], k, e.sent),
{
}

proof fn lemma_always_sound<T>(
    capacity: nat,
    events: Seq<Event<T>>,
    states: Seq<Exchange<T>>,
    i: int,
)
    requires
        exchanged(capacity, events, states),
        0 <= i < states.len(),
    ensures
        sound(states[i]),
    decreases i,
{
    if i == 0 {
        lemma_sound_at_first::<T>(capacity);
    } else {
        lemma_always_sound(capacity, events, states, i - 1);
        assert(states[i].has_receivers());
        assert(happens(states[i - 1], events[i - 1], states[i]));
        lemma_event_keeps_sound(states[i - 1], events[i - 1], states[i]);
    }
}

/// What is sent is received, in order and each message once. On a channel that
/// is never closed and whose receiving side does not go, whoever sends and
/// receives and however their polls follow each other: no send fails, and the
/// receive that was begun at some place gives the message that was sent at the
/// same place. It has it as soon as that message was sent. If there is no such
/// message, it fails, and only once the sending side is gone. What was sent and
/// is not received is pending, in order. So when all receives have come to their
/// end, they have given the messages that were sent first, all of them if there
/// are as many receives or more.
pub proof fn law_what_is_sent_is_received<T>(
    capacity: nat,
    events: Seq<Event<T>>,
    states: Seq<Exchange<T>>,
)
    requires
        exchanged(capacity, events, states),
    ensures
        ({
            let e = states.last();
            let n = e.receives.len() as int;
            let m = e.sent.len() as int;
            &&& forall|k: int|
                0 <= k < n ==> settled(e.channel, #[trigger] e.receives[k], k, e.sent)
            &&& forall|k: int|
                0 <= k < e.sends.len() ==> ((#[trigger] e.sends[k]) matches Sending::Ended(
                    r,
                    left,
                ) ==> r == Ok::<(), SendError<T>>(()) && left.len() == 0)
            &&& n <= m ==> e.channel.pending() == e.sent.skip(n)
            &&& n > m ==> e.channel.pending().len() == 0
            &&& e.all_received() ==> {
                &&& e.channel.send_count > 0 ==> n <= m
                &&& n <= m ==> e.received() == e.sent.take(n)
                &&& n >= m ==> e.received().take(m) == e.sent
            }
        }),
{
    let e = states.last();
    let n = e.receives.len() as int;
    let m = e.sent.len() as int;
    lemma_always_sound(capacity, events, states, states.len() - 1);
    assert forall|k: int| 0 <= k < e.sends.len() implies (
    (#[trigger] e.sends[k]) matches Sending::Ended(r, left) ==> r == Ok::<(), SendError<T>>(())
        && left.len() == 0) by {
        assert(going_on(e.channel, e.sends[k]));
    }
    if e.all_received() {
        if n > m {
            assert(e.receives[n - 1] is Ended);
            assert(settled(e.channel, e.receives[n - 1], n - 1, e.sent));
        }
        assert forall|k: int| 0 <= k < n && k < m implies #[trigger] e.received()[k]
            == e.sent[k] by {
            assert(e.receives[k] is Ended);
            assert(settled(e.channel, e.receives[k], k, e.sent));
        }
        if n <= m {
            assert(e.received() =~= e.sent.take(n));
        }
        if n >= m {
            assert(e.received().take(m) =~= e.sent);
        }
    }
}

/// A receive that was begun is ready at its next poll if its message was sent,
/// or if the sending side is gone: it gives its message, or fails if there is
/// none.
pub proof fn law_receive_is_ready<T>(
    capacity: nat,
    events: Seq<Event<T>>,
    states: Seq<Exchange<T>>,
    k: int,
    waker: Waker,
    r: Poll<Result<T, ReceiveError>>,
    after: (Progress<()>, ChannelState<T>),
)
    requires
        exchanged(capacity, events, states),
        0 <= k < states.last().receives.len(),
        k < states.last().sent.len() || states.last().channel.send_count == 0,
        states.last().receives[k] matches Receiving::Shared(p) && recv_polled(
            (Progress::Shared(p), states.last().channel),
            waker,
            r,
            after,
        ),
    ensures
        r == Poll::Ready(due(k, states.last().sent)),
{
    let e = states.last();
    law_what_is_sent_is_received(capacity, events, states);
    assert(settled(e.channel, e.receives[k], k, e.sent));
}

/// The messages of the single sends, first begun first.
pub open spec fn begun<T>(events: Seq<Event<T>>) -> Seq<T>
    decreases events.len(),
{
    if events.len() == 0 {
        Seq::empty()
    } else {
        match events.last() {
            Event::Send(data, _, _, _) => begun(events.drop_last()).push(data),
            _ => begun(events.drop_last()),
        }
    }
}

/// An event that sends nothing but the message of a single send.
pub open spec fn is_single<T>(event: Event<T>) -> bool {
    match event {
        Event::SendMany(_, _, _, _, _) => false,
        Event::SendManyAgain(_, _, _, _, _) => false,
        Event::Other(step) => step !is TrySend,
        _ => true,
    }
}

proof fn lemma_single_sends<T>(
    capacity: nat,
    events: Seq<Event<T>>,
    states: Seq<Exchange<T>>,
    i: int,
)
    requires
        exchanged(capacity, events, states),
        forall|j: int| 0 <= j < events.len() ==> is_single(#[trigger] events[j]),
        0 <= i < states.len(),
    ensures
        states[i].sent == begun(events.take(i)),
        states[i].sends.len() == begun(events.take(i)).len(),
    decreases i,
{
    if i > 0 {
        lemma_single_sends(capacity, events, states, i - 1);
        assert(events.take(i).drop_last() =~= events.take(i - 1));
        assert(events.take(i).last() == events[i - 1]);
        assert(is_single(events[i - 1]));
        assert(happens(states[i - 1], events[i - 1], states[i]));
        if let Event::Other(step) = events[i - 1] {
            assert(step.accepted(states[i - 1].channel) =~= Seq::<T>::empty());
            assert(states[i].sent =~= states[i - 1].sent);
        }
    } else {
        assert(events.take(0) =~= Seq::<Event<T>>::empty());
    }
}

/// On a channel that is never closed and whose receiving side does not go, with
/// as many sends as receives, the receives that are polled to their end all
/// succeed, and give exactly the messages that were sent, in the order in which
/// sends and receives were begun. The sending side may go meanwhile.
pub proof fn law_as_many_receives_as_sends<T>(
    capacity: nat,
    events: Seq<Event<T>>,
    states: Seq<Exchange<T>>,
)
    requires
        exchanged(capacity, events, states),
        forall|i: int| 0 <= i < events.len() ==> is_single(#[trigger] events[i]),
        states.last().receives.len() == states.last().sends.len(),
        states.last().all_received(),
    ensures
        ({
            let e = states.last();
            &&& forall|k: int|
                0 <= k < e.receives.len() ==> #[trigger] e.receives[k] == Receiving::<T>::Ended(
                    Ok(begun(events)[k]),
                )
            &&& e.received() == begun(events)
            &&& e.received().to_multiset() == begun(events).to_multiset()
        }),
{
    let e = states.last();
    law_what_is_sent_is_received(capacity, events, states);
    lemma_single_sends(capacity, events, states, events.len() as int);
    assert(events.take(events.len() as int) =~= events);
    assert forall|k: int| 0 <= k < e.receives.len() implies #[trigger] e.receives[k]
        == Receiving::<T>::Ended(Ok(begun(events)[k])) by {
        assert(e.receives[k] is Ended);
        assert(settled(e.channel, e.receives[k], k, e.sent));
    }
    assert(e.sent.take(e.receives.len() as int) =~= e.sent);
}

/// The event at `m` begins a send of many, and no other event begins a send.
pub open spec fn is_only_send<T>(events: Seq<Event<T>>, m: int) -> bool {
    &&& 0 <= m < events.len()
    &&& events[m] is SendMany
    &&& forall|i: int|
        0 <= i < events.len() && i != m ==> match #[trigger] events[i] {
            Event::Send(_, _, _, _) => false,
            Event::SendMany(_, _, _, _, _) => false,
            Event::Other(step) => step !is TrySend,
            _ => true,
        }
}

/// How far the only send has come: the messages are those that were taken over,
/// followed by those that are left.
spec fn only_send<T>(e: Exchange<T>, messages: Seq<T>) -> bool {
    &&& e.sends.len() == 1
    &&& match e.sends[0] {
        Sending::One(_) => false,
        Sending::Many(_, left) => messages == e.sent + left,
        Sending::Ended(_, left) => messages == e.sent && left.len() == 0,
    }
}

proof fn lemma_only_send<T>(
    capacity: nat,
    events: Seq<Event<T>>,
    states: Seq<Exchange<T>>,
    m: int,
    i: int,
)
    requires
        exchanged(capacity, events, states),
        is_only_send(events, m),
        0 <= i < states.len(),
    ensures
        i <= m ==> states[i].sends.len() == 0 && states[i].sent.len() == 0,
        i > m ==> only_send(states[i], events[m]->SendMany_0),
    decreases i,
{
    if i > 0 {
        let before = states[i - 1];
        let event = events[i - 1];
        let after = states[i];
        let s = before.channel;
        lemma_only_send(capacity, events, states, m, i - 1);
        lemma_always_sound(capacity, events, states, i - 1);
        lemma_always_sound(capacity, events, states, i);
        assert(before.has_receivers());
        assert(happens(before, event, after));
        match event {
            Event::SendMany(messages, waker, r, progress, left) => {
                assert(i - 1 == m);
                law_send_many_poll_is_steps(
                    (Progress::New(()), s, messages),
                    waker,
                    r,
                    (progress, after.channel, left),
                );
                assert(going_on(after.channel, after.sends[0]));
                assert(after.sent =~= taken_over(messages, r, left));
                assert(messages =~= after.sent + left);
            },
            Event::SendManyAgain(k, waker, r, progress, left) => {
                let p = before.sends[k]->Many_0;
                let messages = before.sends[k]->Many_1;
                assert(k == 0);
                assert(going_on(s, before.sends[0]));
                law_send_many_poll_is_steps(
                    (Progress::Shared(p), s, messages),
                    waker,
                    r,
                    (progress, after.channel, left),
                );
                assert(going_on(after.channel, after.sends[0]));
                assert(events[m]->SendMany_0 =~= after.sent + left);
            },
            Event::Other(step) => {
                assert(step.accepted(s) =~= Seq::<T>::empty());
                assert(after.sent =~= before.sent);
            },
            _ => {},
        }
    }
}

/// A send of many on a channel that is never closed and whose receiving side
/// does not go, with no other sends: when it ends, it has succeeded, no message
/// is left, and the messages that were sent are its messages, from front to
/// back. The receive that was begun at some place gives the message at the same
/// place, or fails if there is none and the sending side is gone. So as many
/// receives as there are messages give all of them, in order.
pub proof fn law_send_many_is_received_in_order<T>(
    capacity: nat,
    events: Seq<Event<T>>,
    states: Seq<Exchange<T>>,
    m: int,
)
    requires
        exchanged(capacity, events, states),
        is_only_send(events, m),
    ensures
        ({
            let e = states.last();
            let messages = events[m]->SendMany_0;
            let n = e.receives.len() as int;
            &&& e.sends.len() == 1
            &&& e.sent.is_prefix_of(messages)
            &&& e.sends[0] matches Sending::Ended(r, left) ==> {
                &&& r == Ok::<(), SendError<T>>(())
                &&& left.len() == 0
                &&& e.sent == messages
                &&& forall|k: int|
                    0 <= k < n ==> settled(e.channel, #[trigger] e.receives[k], k, messages)
            }
            &&& e.all_received() ==> {
                &&& n <= e.sent.len() ==> e.received() == messages.take(n)
                &&& e.sends[0] is Ended && n >= messages.len() ==> e.received().take(
                    messages.len() as int,
                ) == messages
            }
        }),
{
    let e = states.last();
    let messages = events[m]->SendMany_0;
    law_what_is_sent_is_received(capacity, events, states);
    lemma_only_send(capacity, events, states, m, events.len() as int);
    assert(only_send(e, messages));
    if let Sending::Ended(_, left) = e.sends[0] {
        assert(e.sent =~= messages);
    }
    if e.all_received() {
        let n = e.receives.len() as int;
        if n <= e.sent.len() {
            assert(e.sent.take(n) =~= messages.take(n));
        }
    }
}

} // verus!
