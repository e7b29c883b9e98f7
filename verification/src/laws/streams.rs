//! What a stream gives: the messages of the channel one after the other, until
//! none can come.

use crate::error::ReceiveError;
use crate::future::{
    keeps_waiting, recv_polled, stream_polled, FutureState, Poll, Progress,
};
use crate::laws::exchange::{
    happens, lemma_event_keeps_sound, lemma_sound_at_first, lemma_sound_facts, received_at_once,
    receiving, settled, sound, Event, Exchange, Receiving, Sending,
};
use crate::laws::receiving::{law_first_poll_of_a_receive, law_later_poll_of_a_receive};
use crate::signal::{DynamicSignal, SignalView};
use crate::state::ChannelState;
use core::task::Waker;
use vstd::prelude::*;

verus! {

/// A stream at its end stays there, and leaves the channel alone.
pub proof fn law_stream_at_its_end<T>(
    progress: Progress<()>,
    s: ChannelState<T>,
    waker: Waker,
    r: Poll<Option<T>>,
    after: (Progress<()>, bool, ChannelState<T>),
)
    requires
        stream_polled((progress, true, s), waker, r, after),
    ensures
        r == Poll::<Option<T>>::Ready(None),
        after == (progress, true, s),
{
}

/// A poll of a stream with no receive in line. As long as some receiver is alive
/// it gives the oldest pending message if there is one, also when the sending
/// side is gone, and does to the channel what a receive without waiting does.
/// The stream ends exactly if a receive would fail: no receiver is left, or no
/// sender and no message. Else a receive of it goes to the end of the line.
pub proof fn law_stream_with_no_receive_in_line<T>(
    s: ChannelState<T>,
    waker: Waker,
    r: Poll<Option<T>>,
    after: (Progress<()>, bool, ChannelState<T>),
)
    requires
        s.inv(),
        stream_polled((Progress::New(()), false, s), waker, r, after),
    ensures
        s.recv_count > 0 && s.pending().len() > 0 ==> {
            &&& r == Poll::<Option<T>>::Ready(Some(s.pending()[0]))
            &&& after == (Progress::New(()), false, s.try_recv().0)
        },
        s.recv_count > 0 && s.queue.len() > 0 ==> r == Poll::<Option<T>>::Ready(
            Some(s.queue[0]),
        ),
        s.recv_count > 0 && s.queue.len() == 0 && s.senders.len() > 0 ==> r == Poll::<
            Option<T>,
        >::Ready(Some(s.signals[s.senders[0]].data->0)),
        r == Poll::<Option<T>>::Ready(None) <==> s.recv_count == 0 || (s.send_count == 0
            && s.queue.len() == 0 && s.senders.len() == 0),
        r == Poll::<Option<T>>::Ready(None) <==> s.try_recv().1 is Err,
        r == Poll::<Option<T>>::Ready(None) ==> after == (Progress::<()>::Done, true, s),
        r is Pending <==> s.recv_count > 0 && s.send_count > 0 && s.queue.len() == 0
            && s.senders.len() == 0,
        r is Pending ==> {
            &&& !after.1
            &&& after.0 matches Progress::Shared(p)
            &&& !s.signals.dom().contains(p)
            &&& after.2 == (ChannelState {
                receivers: s.receivers + seq![p],
                signals: s.signals.insert(
                    p,
                    SignalView { state: FutureState::Pending, data: None, waker: Some(waker) },
                ),
                ..s
            })
        },
{
    let (x, progress) = lemma_stream_poll_is_receive(Progress::New(()), s, waker, r, after);
    law_first_poll_of_a_receive(s, waker, x, (progress, after.2));
}

/// A poll of a stream whose receive has its signal in the channel. It gives the
/// message that was given to the receive if there is one, whatever has become of
/// the channel meanwhile, and is then ready for the next. The stream ends
/// exactly if that receive has failed, and goes on waiting otherwise.
pub proof fn law_stream_with_a_receive_in_line<T>(
    s: ChannelState<T>,
    p: DynamicSignal,
    waker: Waker,
    r: Poll<Option<T>>,
    after: (Progress<()>, bool, ChannelState<T>),
)
    requires
        s.inv(),
        s.signals.dom().contains(p),
        s.signals[p].of_receiver(),
        stream_polled((Progress::Shared(p), false, s), waker, r, after),
    ensures
        s.signals[p].state == FutureState::Success ==> {
            &&& r == Poll::<Option<T>>::Ready(Some(s.signals[p].data->0))
            &&& after == (
                Progress::New(()),
                false,
                (ChannelState { signals: s.signals.remove(p), ..s }),
            )
        },
        s.signals[p].state == FutureState::Failure <==> r == Poll::<Option<T>>::Ready(None),
        s.signals[p].state == FutureState::Failure ==> after == (
            Progress::<()>::Done,
            true,
            (ChannelState { signals: s.signals.remove(p), ..s }),
        ),
        s.signals[p].state == FutureState::Pending <==> r is Pending,
        r is Pending ==> {
            &&& after.0 == Progress::<()>::Shared(p)
            &&& !after.1
            &&& keeps_waiting(s, after.2, p, waker)
        },
{
    let (x, progress) = lemma_stream_poll_is_receive(Progress::Shared(p), s, waker, r, after);
    law_later_poll_of_a_receive(s, p, waker, x, (progress, after.2));
}

/// The poll of the receive that a poll of a stream makes.
proof fn lemma_stream_poll_is_receive<T>(
    progress: Progress<()>,
    s: ChannelState<T>,
    waker: Waker,
    r: Poll<Option<T>>,
    after: (Progress<()>, bool, ChannelState<T>),
) -> (receive: (Poll<Result<T, ReceiveError>>, Progress<()>))
    requires
        stream_polled((progress, false, s), waker, r, after),
    ensures
        recv_polled((progress, s), waker, receive.0, (receive.1, after.2)),
        match r {
            Poll::Ready(Some(data)) => {
                &&& receive == (
                    Poll::<Result<T, ReceiveError>>::Ready(Ok(data)),
                    Progress::<()>::Done,
                )
                &&& after.0 == Progress::New(())
                &&& !after.1
            },
            Poll::Ready(None) => {
                &&& receive == (
                    Poll::<Result<T, ReceiveError>>::Ready(Err(ReceiveError())),
                    Progress::<()>::Done,
                )
                &&& after.1
            },
            Poll::Pending => {
                &&& receive == (Poll::<Result<T, ReceiveError>>::Pending, after.0)
                &&& !after.1
            },
        },
{
    match r {
        Poll::Ready(Some(data)) => (Poll::Ready(Ok(data)), Progress::Done),
        Poll::Ready(None) => (Poll::Ready(Err(ReceiveError())), Progress::Done),
        Poll::Pending => (Poll::Pending, after.0),
    }
}

/// A channel, all who send, and a stream by which everything is received.
pub struct Streaming<T> {
    /// The channel.
    pub channel: ChannelState<T>,
    /// The sends, first begun first.
    pub sends: Seq<Sending<T>>,
    /// The messages of the sends, in the order in which the channel took them
    /// over.
    pub sent: Seq<T>,
    /// The messages that the stream has given.
    pub given: Seq<T>,
    /// How far the receive of the next message has come.
    pub progress: Progress<()>,
    /// Whether the stream is at its end.
    pub terminated: bool,
}

/// What is done with a channel by those who send, and by the stream.
pub enum StreamEvent<T> {
    /// A poll of the stream.
    Poll(Waker, Poll<Option<T>>),
    /// What others do.
    Other(Event<T>),
}

impl<T> Streaming<T> {
    /// A new channel that nobody has used yet.
    pub open spec fn initial(capacity: nat) -> Streaming<T> {
        Streaming {
            channel: ChannelState::initial(capacity),
            sends: Seq::empty(),
            sent: Seq::empty(),
            given: Seq::empty(),
            progress: Progress::New(()),
            terminated: false,
        }
    }

    /// The receives of the stream, first begun first: those that have given a
    /// message, and the one that is in line or has failed, if any.
    pub open spec fn receives(self) -> Seq<Receiving<T>> {
        received_at_once(self.given) + if self.terminated {
            seq![Receiving::Ended(Err(ReceiveError()))]
        } else {
            match self.progress {
                Progress::Shared(p) => seq![Receiving::Shared(p)],
                _ => Seq::empty(),
            }
        }
    }

    /// The stream as one who receives.
    pub open spec fn exchange(self) -> Exchange<T> {
        Exchange {
            channel: self.channel,
            sends: self.sends,
            receives: self.receives(),
            sent: self.sent,
        }
    }
}

/// What an event makes of a channel, of those who send and of the stream. Others
/// do not receive.
pub open spec fn streams<T>(
    before: Streaming<T>,
    event: StreamEvent<T>,
    after: Streaming<T>,
) -> bool {
    match event {
        StreamEvent::Poll(waker, r) => {
            &&& stream_polled(
                (before.progress, before.terminated, before.channel),
                waker,
                r,
                (after.progress, after.terminated, after.channel),
            )
            &&& after.sends == before.sends
            &&& after.sent == before.sent
            &&& after.given == match r {
                Poll::Ready(Some(data)) => before.given.push(data),
                _ => before.given,
            }
        },
        StreamEvent::Other(e) => {
            &&& happens(before.exchange(), e, after.exchange())
            &&& after.given == before.given
            &&& after.progress == before.progress
            &&& after.terminated == before.terminated
        },
    }
}

/// A series of events from a new channel on, during which it is never closed,
/// the receiving side does not go, no send is given up, and everything is
/// received by one stream. The sending side may go.
pub open spec fn streamed<T>(
    capacity: nat,
    events: Seq<StreamEvent<T>>,
    states: Seq<Streaming<T>>,
) -> bool {
    &&& states.len() == events.len() + 1
    &&& states[0] == Streaming::<T>::initial(capacity)
    &&& forall|i: int| 0 <= i < states.len() ==> (#[trigger] states[i]).channel.recv_count > 0
    &&& forall|i: int|
        0 <= i < events.len() ==> streams(states[i], #[trigger] events[i], states[i + 1])
}

/// The stream is at its end exactly if its progress says that it is done.
spec fn in_step<T>(x: Streaming<T>) -> bool {
    &&& sound(x.exchange())
    &&& x.terminated <==> x.progress is Done
}

proof fn lemma_stream_event<T>(
    before: Streaming<T>,
    event: StreamEvent<T>,
    after: Streaming<T>,
)
    requires
        in_step(before),
        streams(before, event, after),
        after.channel.recv_count > 0,
    ensures
        in_step(after),
{
    match event {
        StreamEvent::Poll(waker, r) => {
            if before.terminated {
                assert(after.exchange() == before.exchange());
            } else {
                let n = before.given.len() as int;
                let (x, progress) = lemma_stream_poll_is_receive(
                    before.progress,
                    before.channel,
                    waker,
                    r,
                    (after.progress, after.terminated, after.channel),
                );
                let e = match before.progress {
                    Progress::Shared(_) => Event::RecvAgain(n, waker, x, progress),
                    _ => Event::Recv(waker, x, progress),
                };
                let now = receiving(x, progress);
                match before.progress {
                    Progress::Shared(p) => {
                        assert(before.receives()[n] == Receiving::<T>::Shared(p));
                        assert(after.receives() =~= before.receives().update(n, now));
                    },
                    _ => {
                        assert(after.receives() =~= before.receives().push(now));
                    },
                }
                assert(happens(before.exchange(), e, after.exchange()));
                lemma_event_keeps_sound(before.exchange(), e, after.exchange());
            }
        },
        StreamEvent::Other(e) => {
            lemma_event_keeps_sound(before.exchange(), e, after.exchange());
        },
    }
}

proof fn lemma_always_in_step<T>(
    capacity: nat,
    events: Seq<StreamEvent<T>>,
    states: Seq<Streaming<T>>,
    i: int,
)
    requires
        streamed(capacity, events, states),
        0 <= i < states.len(),
    ensures
        in_step(states[i]),
    decreases i,
{
    if i == 0 {
        let x = Streaming::<T>::initial(capacity);
        lemma_sound_at_first::<T>(capacity);
        assert(x.receives() =~= Seq::<Receiving<T>>::empty());
        assert(x.exchange() == Exchange::<T>::initial(capacity));
    } else {
        lemma_always_in_step(capacity, events, states, i - 1);
        assert(states[i].channel.recv_count > 0);
        assert(streams(states[i - 1], events[i - 1], states[i]));
        lemma_stream_event(states[i - 1], events[i - 1], states[i]);
    }
}

/// A stream by which everything is received gives the messages that were sent,
/// in order and each once, and nothing else. Its next poll gives the next
/// message as soon as that was sent, also when the sending side is gone. It ends
/// exactly when the sending side is gone and all messages have been given, and
/// waits as long as more can come.
pub proof fn law_stream_gives_what_is_sent<T>(
    capacity: nat,
    events: Seq<StreamEvent<T>>,
    states: Seq<Streaming<T>>,
    waker: Waker,
    r: Poll<Option<T>>,
    after: (Progress<()>, bool, ChannelState<T>),
)
    requires
        streamed(capacity, events, states),
        stream_polled(
            (states.last().progress, states.last().terminated, states.last().channel),
            waker,
            r,
            after,
        ),
    ensures
        ({
            let x = states.last();
            let n = x.given.len() as int;
            &&& n <= x.sent.len()
            &&& x.given == x.sent.subrange(0, n)
            &&& x.terminated ==> x.given == x.sent && x.channel.send_count == 0
            &&& n < x.sent.len() ==> r == Poll::<Option<T>>::Ready(Some(x.sent[n]))
            &&& n == x.sent.len() && x.channel.send_count == 0 ==> r == Poll::<
                Option<T>,
            >::Ready(None)
            &&& n == x.sent.len() && x.channel.send_count > 0 ==> r is Pending
        }),
{
    let x = states.last();
    let n = x.given.len() as int;
    let receives = x.receives();
    lemma_always_in_step(capacity, events, states, states.len() - 1);
    lemma_sound_facts(x.exchange());
    assert forall|k: int| 0 <= k < n implies k < x.sent.len() && #[trigger] x.given[k]
        == x.sent[k] by {
        assert(receives[k] == Receiving::<T>::Ended(Ok(x.given[k])));
        assert(settled(x.channel, receives[k], k, x.sent));
    }
    if n > 0 {
        assert(x.given[n - 1] == x.sent[n - 1]);
    }
    assert(x.given =~= x.sent.subrange(0, n));
    if x.terminated {
        assert(receives[n] == Receiving::<T>::Ended(Err(ReceiveError())));
        assert(settled(x.channel, receives[n], n, x.sent));
        assert(x.given =~= x.sent);
    } else {
        match x.progress {
            Progress::Shared(p) => {
                assert(receives[n] == Receiving::<T>::Shared(p));
                assert(settled(x.channel, receives[n], n, x.sent));
                law_stream_with_a_receive_in_line(x.channel, p, waker, r, after);
            },
            Progress::Done => {},
            Progress::New(unit) => {
                assert(unit == ());
                assert(receives.len() == n);
                assert(x.channel.recv_count > 0);
                assert(x.channel.pending() == x.sent.skip(n));
                law_stream_with_no_receive_in_line(x.channel, waker, r, after);
            },
        }
    }
}

} // verus!
