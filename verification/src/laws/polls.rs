//! Polls are steps too, so that what holds of steps holds of them.

use crate::error::{ReceiveError, SendError, SendTimeoutError};
use crate::future::{
    is_receiver, is_sender, recv_polled, rest_sent, send_many_polled, send_polled, sender_alive,
    FutureState, Poll, Progress,
};
use crate::laws::steps::{run, run_accepted, run_enabled, run_handed, run_keeps, Step};
use crate::laws::waiting::lemma_ended_not_in_line;
use crate::signal::DynamicSignal;
use crate::state::ChannelState;
use core::task::Waker;
use vstd::prelude::*;

verus! {

/// A series of steps leads from one state to the other without discarding
/// messages; in it the channel takes over the messages `accepted`, and
/// receivers get the messages `handed`.
pub open spec fn leads<T>(
    s: ChannelState<T>,
    steps: Seq<Step<T>>,
    t: ChannelState<T>,
    accepted: Seq<T>,
    handed: Seq<T>,
) -> bool {
    &&& run_enabled(s, steps)
    &&& run_keeps(s, steps)
    &&& run(s, steps) == t
    &&& run_accepted(s, steps) == accepted
    &&& run_handed(s, steps) == handed
}

/// The message that the channel takes over in a poll of a send, if any.
pub open spec fn offered<T>(before: (Progress<T>, ChannelState<T>)) -> Seq<T> {
    match before.0 {
        Progress::New(data) => if before.1.recv_count > 0 {
            seq![data]
        } else {
            Seq::empty()
        },
        _ => Seq::empty(),
    }
}

/// The message that a receiver gets in a poll of a receive, if any.
pub open spec fn fetched<T>(progress: Progress<()>, r: Poll<Result<T, ReceiveError>>) -> Seq<T> {
    match progress {
        Progress::New(_) => match r {
            Poll::Ready(Ok(data)) => seq![data],
            _ => Seq::empty(),
        },
        _ => Seq::empty(),
    }
}

/// Every poll of a send is a series of steps, or none. The channel takes over
/// the message at the first poll, unless the receiving side is gone, and at no
/// other.
pub proof fn law_send_poll_is_steps<T>(
    before: (Progress<T>, ChannelState<T>),
    waker: Waker,
    r: Poll<Result<(), SendError<T>>>,
    after: (Progress<T>, ChannelState<T>),
)
    requires
        before.1.inv(),
        is_sender(before.0, before.1),
        sender_alive(before.1),
        send_polled(before, waker, r, after),
    ensures
        exists|steps: Seq<Step<T>>, handed: Seq<T>|
            leads(before.1, steps, after.1, offered(before), handed),
{
    let s = before.1;
    match before.0 {
        Progress::New(data) => {
            let step = match s.try_send(data).1 {
                Err(SendTimeoutError::Timeout(_)) => Step::SenderWaits(
                    after.0->Shared_0,
                    data,
                    waker,
                ),
                _ => Step::TrySend(data),
            };
            lemma_one_step(s, step);
            assert(step.apply(s) == after.1);
            assert(step.accepted(s) =~= offered(before));
            assert(leads(s, seq![step], after.1, offered(before), step.handed(s)));
        },
        Progress::Shared(p) => {
            lemma_poll_of_shared(s, p, waker);
            assert(offered(before) =~= Seq::<T>::empty());
            if s.signals[p].state != FutureState::Pending {
                assert(leads(
                    s,
                    seq![Step::Release(p)],
                    after.1,
                    offered(before),
                    Seq::<T>::empty(),
                ));
            } else if after.1 == s {
                assert(leads(s, Seq::empty(), after.1, offered(before), Seq::<T>::empty()));
            } else {
                assert(leads(
                    s,
                    seq![Step::UpdateWaker(p, waker)],
                    after.1,
                    offered(before),
                    Seq::<T>::empty(),
                ));
            }
        },
        Progress::Done => {},
    }
}

/// Every poll of a receive is a series of steps, or none. A message that the
/// first poll gives is taken from the channel in it; one that a later poll
/// gives was handed out before.
pub proof fn law_recv_poll_is_steps<T>(
    before: (Progress<()>, ChannelState<T>),
    waker: Waker,
    r: Poll<Result<T, ReceiveError>>,
    after: (Progress<()>, ChannelState<T>),
)
    requires
        before.1.inv(),
        is_receiver(before.0, before.1),
        recv_polled(before, waker, r, after),
    ensures
        exists|steps: Seq<Step<T>>|
            leads(before.1, steps, after.1, Seq::<T>::empty(), fetched(before.0, r)),
{
    let s = before.1;
    match before.0 {
        Progress::New(_) => {
            let step = match s.try_recv().1 {
                Ok(None) => Step::ReceiverWaits(after.0->Shared_0, waker),
                _ => Step::TryRecv,
            };
            if s.try_recv().1 == Ok::<Option<T>, ReceiveError>(None) {
                assert(s.pending().len() == 0);
            }
            lemma_one_step(s, step);
            assert(step.apply(s) == after.1);
            assert(step.handed(s) =~= fetched(before.0, r));
            assert(step.accepted(s) =~= Seq::<T>::empty());
            assert(leads(s, seq![step], after.1, Seq::<T>::empty(), fetched(before.0, r)));
        },
        Progress::Shared(p) => {
            lemma_poll_of_shared(s, p, waker);
            assert(fetched(before.0, r) =~= Seq::<T>::empty());
            if s.signals[p].state != FutureState::Pending {
                assert(leads(
                    s,
                    seq![Step::Release(p)],
                    after.1,
                    Seq::<T>::empty(),
                    fetched(before.0, r),
                ));
            } else if after.1 == s {
                assert(leads(s, Seq::empty(), after.1, Seq::<T>::empty(), fetched(before.0, r)));
            } else {
                assert(leads(
                    s,
                    seq![Step::UpdateWaker(p, waker)],
                    after.1,
                    Seq::<T>::empty(),
                    fetched(before.0, r),
                ));
            }
        },
        Progress::Done => {},
    }
}

/// The messages that the channel takes over in a poll of a send of many: those
/// that were left before it and are not any more, unless the send fails.
pub open spec fn taken_over<T>(
    before: Seq<T>,
    r: Poll<Result<(), SendError<T>>>,
    after: Seq<T>,
) -> Seq<T> {
    match r {
        Poll::Ready(Err(_)) => Seq::empty(),
        _ => before.take(before.len() - after.len()),
    }
}

/// Every poll of a send of many is a series of steps, or none. The channel
/// takes over messages from the front of those that are left, in order; those
/// that it does not take over stay, but for the one that is handed back when
/// the receiving side is gone.
pub proof fn law_send_many_poll_is_steps<T>(
    before: (Progress<()>, ChannelState<T>, Seq<T>),
    waker: Waker,
    r: Poll<Result<(), SendError<T>>>,
    after: (Progress<()>, ChannelState<T>, Seq<T>),
)
    requires
        before.1.inv(),
        is_sender(before.0, before.1),
        sender_alive(before.1),
        send_many_polled(before, waker, r, after),
    ensures
        exists|steps: Seq<Step<T>>, handed: Seq<T>|
            leads(before.1, steps, after.1, taken_over(before.2, r, after.2), handed),
        match r {
            Poll::Ready(Err(SendError(data))) => before.2 == after.2 || before.2 == seq![data]
                + after.2,
            _ => before.2 == taken_over(before.2, r, after.2) + after.2,
        },
{
    let (progress, s, elements) = before;
    let taken = taken_over(before.2, r, after.2);
    lemma_no_step(s);
    match progress {
        Progress::New(_) => {
            let (steps, accepted, handed) = lemma_rest_sent_steps(s, elements, waker, r, after);
            assert(accepted =~= taken);
            assert(leads(s, steps, after.1, taken, handed));
        },
        Progress::Shared(p) => {
            lemma_poll_of_shared(s, p, waker);
            if s.signals[p].state == FutureState::Success {
                s.lemma_released_inv(p);
                let mid = s.released(p);
                let (b, accepted, handed) = lemma_rest_sent_steps(mid, elements, waker, r, after);
                let a = choose|a: Seq<Step<T>>|
                    leads(s, a, mid, Seq::<T>::empty(), Seq::<T>::empty());
                lemma_steps_joined(
                    s,
                    a,
                    mid,
                    Seq::<T>::empty(),
                    Seq::<T>::empty(),
                    b,
                    after.1,
                    accepted,
                    handed,
                );
                assert(Seq::<T>::empty() + accepted =~= accepted);
                assert(Seq::<T>::empty() + handed =~= handed);
                assert(accepted =~= taken);
                assert(leads(s, a + b, after.1, taken, handed));
            } else {
                let none = Seq::<T>::empty();
                assert(taken =~= none);
                assert(elements =~= none + elements);
                if s.signals[p].state != FutureState::Pending {
                    assert(leads(s, seq![Step::Release(p)], after.1, taken, none));
                } else if after.1 == s {
                    assert(leads(s, Seq::empty(), after.1, taken, none));
                } else {
                    assert(leads(s, seq![Step::UpdateWaker(p, waker)], after.1, taken, none));
                }
            }
        },
        Progress::Done => {},
    }
}

/// One poll of a send of many.
pub struct SendManyPoll<T> {
    /// The progress, the channel and the messages that are left, before.
    pub before: (Progress<()>, ChannelState<T>, Seq<T>),
    /// The waker of the task that polls.
    pub waker: Waker,
    /// What the poll gives.
    pub r: Poll<Result<(), SendError<T>>>,
    /// The progress, the channel and the messages that are left, after.
    pub after: (Progress<()>, ChannelState<T>, Seq<T>),
}

impl<T> SendManyPoll<T> {
    /// The poll is one that a send of many can make.
    pub open spec fn valid(self) -> bool {
        &&& self.before.1.inv()
        &&& is_sender(self.before.0, self.before.1)
        &&& sender_alive(self.before.1)
        &&& send_many_polled(self.before, self.waker, self.r, self.after)
    }

    /// The messages that the channel takes over in the poll.
    pub open spec fn taken(self) -> Seq<T> {
        taken_over(self.before.2, self.r, self.after.2)
    }

    /// The poll is a series of steps in which the channel takes these over.
    pub open spec fn is_steps(self) -> bool {
        exists|steps: Seq<Step<T>>, handed: Seq<T>|
            leads(self.before.1, steps, self.after.1, self.taken(), handed)
    }

    /// What becomes of the messages that were left: they are taken over or left
    /// still, but for one that is handed back.
    spec fn shares(self) -> bool {
        match self.r {
            Poll::Ready(Err(SendError(data))) => self.before.2 == self.after.2 || self.before.2
                == seq![data] + self.after.2,
            Poll::Ready(Ok(_)) => self.before.2 == self.taken() && self.after.2.len() == 0,
            Poll::Pending => self.before.2 == self.taken() + self.after.2,
        }
    }
}

/// The polls of one send of many, from the first on. Between two of them
/// others may do with the channel what they like.
pub open spec fn polls_of_one<T>(polls: Seq<SendManyPoll<T>>) -> bool {
    &&& polls.len() > 0
    &&& polls[0].before.0 is New
    &&& forall|i: int| 0 <= i < polls.len() ==> (#[trigger] polls[i]).valid()
    &&& forall|i: int|
        0 < i < polls.len() ==> {
            let before = polls[i - 1];
            &&& before.r is Pending
            &&& (#[trigger] polls[i]).before.0 == before.after.0
            &&& polls[i].before.2 == before.after.2
        }
}

/// The messages that the channel takes over in a series of polls, in order.
pub open spec fn all_taken<T>(polls: Seq<SendManyPoll<T>>) -> Seq<T>
    decreases polls.len(),
{
    if polls.len() == 0 {
        Seq::empty()
    } else {
        all_taken(polls.drop_last()) + polls.last().taken()
    }
}

/// Over all polls of a send of many, whatever others do in between, the channel
/// takes over the messages in their order, each once, and each poll takes over
/// its share in steps. When the send succeeds, these are all messages, and none
/// is left. When it fails, none is lost either: the one that is handed back and
/// those that are left follow those that were taken over, or the one that is
/// handed back is among these.
pub proof fn law_send_many_takes_over_all<T>(polls: Seq<SendManyPoll<T>>)
    requires
        polls_of_one(polls),
    ensures
        forall|i: int| 0 <= i < polls.len() ==> (#[trigger] polls[i]).is_steps(),
        ({
            let messages = polls[0].before.2;
            let left = polls.last().after.2;
            match polls.last().r {
                Poll::Pending => messages == all_taken(polls) + left,
                Poll::Ready(Ok(_)) => messages == all_taken(polls) && left.len() == 0,
                Poll::Ready(Err(SendError(data))) => messages == all_taken(polls) + left || messages
                    == all_taken(polls) + seq![data] + left,
            }
        }),
{
    assert forall|i: int| 0 <= i < polls.len() implies (#[trigger] polls[i]).is_steps()
        && polls[i].shares() by {
        lemma_poll_shares(polls[i]);
    }
    lemma_shares_add_up(polls);
    if polls.last().r matches Poll::Ready(Ok(_)) {
        assert(all_taken(polls) + polls.last().after.2 =~= all_taken(polls));
    }
}

proof fn lemma_poll_shares<T>(poll: SendManyPoll<T>)
    requires
        poll.valid(),
    ensures
        poll.is_steps(),
        poll.shares(),
{
    let taken = taken_over(poll.before.2, poll.r, poll.after.2);
    law_send_many_poll_is_steps(poll.before, poll.waker, poll.r, poll.after);
    let (steps, handed) = choose|steps: Seq<Step<T>>, handed: Seq<T>|
        leads(poll.before.1, steps, poll.after.1, taken, handed);
    assert(leads(poll.before.1, steps, poll.after.1, poll.taken(), handed));
    if poll.r matches Poll::Ready(Ok(_)) {
        assert(taken + poll.after.2 =~= taken);
    }
}

proof fn lemma_shares_add_up<T>(polls: Seq<SendManyPoll<T>>)
    requires
        polls.len() > 0,
        forall|i: int| 0 <= i < polls.len() ==> (#[trigger] polls[i]).shares(),
        forall|i: int|
            0 < i < polls.len() ==> polls[i - 1].r is Pending && (#[trigger] polls[i]).before.2
                == polls[i - 1].after.2,
    ensures
        ({
            let messages = polls[0].before.2;
            let left = polls.last().after.2;
            match polls.last().r {
                Poll::Ready(Err(SendError(data))) => messages == all_taken(polls) + left || messages
                    == all_taken(polls) + seq![data] + left,
                _ => messages == all_taken(polls) + left,
            }
        }),
    decreases polls.len(),
{
    let last = polls.last();
    let left = last.after.2;
    let earlier = polls.drop_last();
    let so_far = all_taken(earlier);
    let messages = polls[0].before.2;
    if polls.len() > 1 {
        let n = polls.len() - 1;
        assert forall|i: int| 0 < i < earlier.len() implies earlier[i - 1].r is Pending
            && (#[trigger] earlier[i]).before.2 == earlier[i - 1].after.2 by {
            assert(polls[i].before.2 == polls[i - 1].after.2);
        }
        lemma_shares_add_up(earlier);
        assert(polls[n].before.2 == polls[n - 1].after.2);
        assert(earlier.last() == polls[n - 1]);
    } else {
        assert(so_far =~= Seq::<T>::empty());
        assert(last == polls[0]);
        assert(messages =~= so_far + last.before.2);
    }
    assert(messages == so_far + last.before.2);
    assert(last.shares());
    match last.r {
        Poll::Ready(Err(SendError(data))) => {
            assert(all_taken(polls) =~= so_far);
            if last.before.2 != left {
                assert(messages =~= all_taken(polls) + seq![data] + left);
            }
        },
        _ => {
            assert(messages =~= all_taken(polls) + left);
        },
    }
}

proof fn lemma_no_step<T>(s: ChannelState<T>)
    ensures
        leads(s, Seq::<Step<T>>::empty(), s, Seq::<T>::empty(), Seq::<T>::empty()),
{
}

proof fn lemma_one_step<T>(s: ChannelState<T>, step: Step<T>)
    requires
        step.enabled(s),
        !step.discards(s),
    ensures
        leads(s, seq![step], step.apply(s), step.accepted(s), step.handed(s)),
{
    let steps = seq![step];
    let none = Seq::<Step<T>>::empty();
    assert(steps.drop_last() =~= none);
    assert(steps.last() == step);
    assert(run(s, none) == s);
    assert(run_enabled(s, none) && run_keeps(s, none));
    assert(run_accepted(s, none) =~= Seq::<T>::empty());
    assert(run_handed(s, none) =~= Seq::<T>::empty());
    assert(run_accepted(s, steps) == run_accepted(s, none) + step.accepted(s));
    assert(run_handed(s, steps) == run_handed(s, none) + step.handed(s));
    assert(run_accepted(s, steps) =~= step.accepted(s));
    assert(run_handed(s, steps) =~= step.handed(s));
}

/// What the poll of a future with a signal in the channel may do to it.
proof fn lemma_poll_of_shared<T>(s: ChannelState<T>, p: DynamicSignal, waker: Waker)
    requires
        s.inv(),
        s.signals.dom().contains(p),
    ensures
        s.signals[p].state != FutureState::Pending ==> leads(
            s,
            seq![Step::Release(p)],
            s.released(p),
            Seq::<T>::empty(),
            Seq::<T>::empty(),
        ),
        leads(
            s,
            seq![Step::UpdateWaker(p, waker)],
            s.waker_updated(p, waker),
            Seq::<T>::empty(),
            Seq::<T>::empty(),
        ),
        leads(s, Seq::<Step<T>>::empty(), s, Seq::<T>::empty(), Seq::<T>::empty()),
{
    lemma_no_step(s);
    if s.signals[p].state != FutureState::Pending {
        lemma_ended_not_in_line(s, p);
        lemma_one_step(s, Step::Release(p));
    }
    lemma_one_step(s, Step::UpdateWaker(p, waker));
}

proof fn lemma_run_joined<T>(s: ChannelState<T>, a: Seq<Step<T>>, b: Seq<Step<T>>)
    requires
        run_enabled(s, a),
        run_enabled(run(s, a), b),
        run_keeps(s, a),
        run_keeps(run(s, a), b),
    ensures
        run_enabled(s, a + b),
        run_keeps(s, a + b),
        run(s, a + b) == run(run(s, a), b),
        run_accepted(s, a + b) == run_accepted(s, a) + run_accepted(run(s, a), b),
        run_handed(s, a + b) == run_handed(s, a) + run_handed(run(s, a), b),
    decreases b.len(),
{
    if b.len() == 0 {
        assert(a + b =~= a);
        assert(run_accepted(s, a) =~= run_accepted(s, a) + Seq::<T>::empty());
        assert(run_handed(s, a) =~= run_handed(s, a) + Seq::<T>::empty());
    } else {
        let t = run(s, a);
        let c = b.drop_last();
        lemma_run_joined(s, a, c);
        assert((a + b).drop_last() =~= a + c);
        assert((a + b).last() == b.last());
        assert(run_accepted(s, a + b) =~= run_accepted(s, a) + run_accepted(t, b));
        assert(run_handed(s, a + b) =~= run_handed(s, a) + run_handed(t, b));
    }
}

proof fn lemma_steps_joined<T>(
    s: ChannelState<T>,
    a: Seq<Step<T>>,
    t: ChannelState<T>,
    accepted_a: Seq<T>,
    handed_a: Seq<T>,
    b: Seq<Step<T>>,
    u: ChannelState<T>,
    accepted_b: Seq<T>,
    handed_b: Seq<T>,
)
    requires
        leads(s, a, t, accepted_a, handed_a),
        leads(t, b, u, accepted_b, handed_b),
    ensures
        leads(s, a + b, u, accepted_a + accepted_b, handed_a + handed_b),
{
    lemma_run_joined(s, a, b);
}

proof fn lemma_send_all_steps<T>(s: ChannelState<T>, data: Seq<T>) -> (r: (
    Seq<Step<T>>,
    Seq<T>,
    Seq<T>,
))
    ensures
        leads(s, r.0, s.send_all(data).0, r.1, r.2),
        data == r.1 + s.send_all(data).1,
    decreases data.len(),
{
    if data.len() > 0 && s.accepts() {
        let mid = s.try_send(data[0]).0;
        let step = Step::TrySend(data[0]);
        lemma_one_step(s, step);
        let (steps, accepted, handed) = lemma_send_all_steps(mid, data.drop_first());
        lemma_steps_joined(
            s,
            seq![step],
            mid,
            step.accepted(s),
            step.handed(s),
            steps,
            s.send_all(data).0,
            accepted,
            handed,
        );
        assert(data =~= seq![data[0]] + data.drop_first());
        assert(data =~= (step.accepted(s) + accepted) + s.send_all(data).1);
        (seq![step] + steps, step.accepted(s) + accepted, step.handed(s) + handed)
    } else {
        lemma_no_step(s);
        assert(data =~= Seq::<T>::empty() + data);
        (Seq::empty(), Seq::empty(), Seq::empty())
    }
}

proof fn lemma_rest_sent_steps<T>(
    s: ChannelState<T>,
    elements: Seq<T>,
    waker: Waker,
    r: Poll<Result<(), SendError<T>>>,
    after: (Progress<()>, ChannelState<T>, Seq<T>),
) -> (witness: (Seq<Step<T>>, Seq<T>, Seq<T>))
    requires
        s.inv(),
        sender_alive(s),
        rest_sent(s, elements, waker, r, after),
    ensures
        leads(s, witness.0, after.1, witness.1, witness.2),
        match r {
            Poll::Ready(Err(SendError(data))) => {
                &&& witness.1.len() == 0
                &&& elements == seq![data] + after.2
            },
            _ => elements == witness.1 + after.2,
        },
{
    let (next, rest) = s.send_all(elements);
    let (steps, accepted, handed) = lemma_send_all_steps(s, elements);
    s.lemma_send_all_counts(elements);
    if rest.len() > 0 && s.recv_count > 0 {
        let p = after.0->Shared_0;
        let step = Step::SenderWaits(p, rest[0], waker);
        lemma_one_step(next, step);
        lemma_steps_joined(
            s,
            steps,
            next,
            accepted,
            handed,
            seq![step],
            after.1,
            step.accepted(next),
            step.handed(next),
        );
        assert(rest =~= seq![rest[0]] + rest.drop_first());
        assert(elements =~= (accepted + step.accepted(next)) + after.2);
        (steps + seq![step], accepted + step.accepted(next), handed + step.handed(next))
    } else {
        if rest.len() > 0 {
            assert(rest == elements);
            assert(accepted.len() == 0);
            assert(elements =~= seq![rest[0]] + rest.drop_first());
        }
        (steps, accepted, handed)
    }
}

} // verus!
