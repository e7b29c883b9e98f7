//! Sends and receives that may wait. Each is polled until it is ready, with
//! access to the channel's state and the waker of the task that polls. One that
//! was polled and is no longer wanted is given up with `drop`, so that nobody
//! waits for it in the channel.

use crate::error::{ReceiveError, SendError, SendTimeoutError};
use crate::internal::ChannelInternal;
use crate::signal::{AsyncSignal, DynamicSignal};
use crate::state::ChannelState;
use crate::{AsyncReceiver, AsyncSender};
use core::marker::PhantomData;
use core::task::Waker;
use std::collections::VecDeque;
use vstd::prelude::*;

verus! {

/// How far a send or a receive that may wait has come.
#[derive(Debug, Clone, Copy, PartialEq, Eq, Structural)]
pub enum FutureState {
    /// It has not been tried yet.
    Unregistered,
    /// It waits.
    Pending,
    /// The message has changed hands.
    Success,
    /// The channel was closed on it.
    Failure,
    /// Its outcome was handed out.
    Done,
}

/// What a poll gives.
#[derive(Debug, PartialEq, Eq)]
pub enum Poll<R> {
    /// The outcome.
    Ready(R),
    /// No outcome yet: the task is woken when there is one.
    Pending,
}

/// How far a future has come, as its caller sees it.
pub enum Progress<D> {
    /// It was not polled yet, and holds what it was made with.
    New(D),
    /// It has a signal in the channel: it waits, or its wait has ended.
    Shared(DynamicSignal),
    /// Its outcome was handed out.
    Done,
}

/// Where the signal of a future is.
enum FutureSignal<T> {
    /// In the future itself.
    Local(AsyncSignal<T>),
    /// In the channel.
    Shared(DynamicSignal),
}

/// A signal whose outcome was handed out.
fn done_signal<T>() -> (r: FutureSignal<T>)
    ensures
        r matches FutureSignal::Local(sig) && sig@.state == FutureState::Done,
{
    let mut sig = AsyncSignal::new_send_finished();
    sig.set_state(FutureState::Done);
    FutureSignal::Local(sig)
}

/// The progress does not concern the channel, or names a sender's signal in it.
pub open spec fn is_sender<D, T>(progress: Progress<D>, channel: ChannelState<T>) -> bool {
    progress matches Progress::Shared(p) ==> channel.signals.dom().contains(p)
        && channel.signals[p].of_sender()
}

/// The progress does not concern the channel, or names a receiver's signal in
/// it.
pub open spec fn is_receiver<D, T>(progress: Progress<D>, channel: ChannelState<T>) -> bool {
    progress matches Progress::Shared(p) ==> channel.signals.dom().contains(p)
        && channel.signals[p].of_receiver()
}

/// Some sender is alive, or the channel was closed. Whoever holds a sender
/// knows this.
pub open spec fn sender_alive<T>(channel: ChannelState<T>) -> bool {
    channel.recv_count > 0 ==> channel.send_count > 0
}

/// The channel after the future has given its signal up, if it had one.
pub open spec fn given_up<D, T>(
    progress: Progress<D>,
    channel: ChannelState<T>,
) -> ChannelState<T> {
    match progress {
        Progress::Shared(p) => channel.released(p),
        _ => channel,
    }
}

/// What a poll of a waiting future leaves: nothing has changed but the waker.
/// The one before is there if `Waker::will_wake` says that it wakes the same
/// task as that of this poll, else that of this poll.
pub open spec fn keeps_waiting<T>(
    before: ChannelState<T>,
    after: ChannelState<T>,
    p: DynamicSignal,
    waker: Waker,
) -> bool {
    match before.signals[p].waker {
        Some(own) => exists|same: bool|
            {
                &&& #[trigger] call_ensures(Waker::will_wake, (&own, &waker), same)
                &&& after == if same {
                    before
                } else {
                    before.waker_updated(p, waker)
                }
            },
        None => after == before.waker_updated(p, waker),
    }
}

/// What a poll of a send does.
///
/// At first the message is offered to the channel. It is taken, or handed back
/// if the receiving side is gone, or the sender gets in line with it. Later the
/// wait has ended with the message taken, or with the message handed back, or
/// it goes on.
pub open spec fn send_polled<T>(
    before: (Progress<T>, ChannelState<T>),
    waker: Waker,
    r: Poll<Result<(), SendError<T>>>,
    after: (Progress<T>, ChannelState<T>),
) -> bool {
    let channel = before.1;
    match before.0 {
        Progress::New(data) => match channel.try_send(data) {
            (next, Ok(())) => {
                &&& r == Poll::<Result<(), SendError<T>>>::Ready(Ok(()))
                &&& after == (Progress::<T>::Done, next)
            },
            (next, Err(SendTimeoutError::Closed(data))) => {
                &&& r == Poll::<Result<(), SendError<T>>>::Ready(Err(SendError(data)))
                &&& after == (Progress::<T>::Done, next)
            },
            (next, Err(SendTimeoutError::Timeout(data))) => {
                &&& r == Poll::<Result<(), SendError<T>>>::Pending
                &&& after.0 matches Progress::Shared(p)
                &&& !channel.signals.dom().contains(p)
                &&& after.1 == next.sender_waiting(p, data, waker)
            },
        },
        Progress::Shared(p) => match channel.signals[p].state {
            FutureState::Success => {
                &&& r == Poll::<Result<(), SendError<T>>>::Ready(Ok(()))
                &&& after == (Progress::<T>::Done, channel.released(p))
            },
            FutureState::Failure => {
                &&& r == Poll::<Result<(), SendError<T>>>::Ready(
                    Err(SendError(channel.signals[p].data->0)),
                )
                &&& after == (Progress::<T>::Done, channel.released(p))
            },
            _ => {
                &&& r == Poll::<Result<(), SendError<T>>>::Pending
                &&& after.0 == before.0
                &&& keeps_waiting(channel, after.1, p, waker)
            },
        },
        Progress::Done => false,
    }
}

/// A send that may wait.
pub struct SendFuture<'a, T> {
    sender: PhantomData<&'a AsyncSender<T>>,
    sig: FutureSignal<T>,
}

impl<'a, T> View for SendFuture<'a, T> {
    type V = Progress<T>;

    closed spec fn view(&self) -> Progress<T> {
        match self.sig {
            FutureSignal::Local(sig) => if sig@.state == FutureState::Unregistered {
                Progress::New(sig@.data->0)
            } else {
                Progress::Done
            },
            FutureSignal::Shared(p) => Progress::Shared(p),
        }
    }
}

impl<'a, T> SendFuture<'a, T> {
    /// A future that is yet to be tried holds its message.
    pub closed spec fn wf(self) -> bool {
        self.sig matches FutureSignal::Local(sig) ==> {
            ||| sig@.state == FutureState::Unregistered && sig@.data is Some
            ||| sig@.state == FutureState::Done
        }
    }

    /// A send of `data` that was not tried yet. The sender lives as long.
    pub fn new(_sender: &'a AsyncSender<T>, data: T) -> (r: SendFuture<'a, T>)
        ensures
            r.wf(),
            r@ == Progress::New(data),
    {
        SendFuture { sender: PhantomData, sig: FutureSignal::Local(AsyncSignal::new_send(data)) }
    }

    /// Tries to send, or looks whether the wait has ended. Not to be called
    /// again after an outcome.
    pub fn poll(&mut self, internal: &mut ChannelInternal<T>, waker: Waker) -> (r: Poll<
        Result<(), SendError<T>>,
    >)
        requires
            old(self).wf(),
            old(internal).wf(),
            old(self)@ !is Done,
            is_sender(old(self)@, old(internal)@),
            sender_alive(old(internal)@),
        ensures
            final(self).wf(),
            final(internal).wf(),
            is_sender(final(self)@, final(internal)@),
            send_polled(
                (old(self)@, old(internal)@),
                waker,
                r,
                (final(self)@, final(internal)@),
            ),
    {
        let mut taken = done_signal();
        core::mem::swap(&mut self.sig, &mut taken);
        match taken {
            FutureSignal::Local(mut sig) => {
                let data = sig.assume_init();
                match internal.try_send(data) {
                    Ok(()) => Poll::Ready(Ok(())),
                    Err(SendTimeoutError::Closed(data)) => Poll::Ready(Err(SendError(data))),
                    Err(SendTimeoutError::Timeout(data)) => {
                        sig.reset_send(data);
                        sig.update_waker(waker);
                        let p = internal.push_send(sig);
                        self.sig = FutureSignal::Shared(p);
                        Poll::Pending
                    },
                }
            },
            FutureSignal::Shared(p) => match internal.signal_state(p) {
                FutureState::Success => {
                    let _ = internal.release_send(p);
                    Poll::Ready(Ok(()))
                },
                FutureState::Failure => {
                    let mut sig = internal.release_send(p);
                    Poll::Ready(Err(SendError(sig.assume_init())))
                },
                _ => {
                    internal.refresh_waker(p, waker);
                    self.sig = FutureSignal::Shared(p);
                    Poll::Pending
                },
            },
        }
    }

    /// Gives the send up. A message that was not taken is dropped.
    pub fn drop(self, internal: &mut ChannelInternal<T>)
        requires
            self.wf(),
            old(internal).wf(),
            is_sender(self@, old(internal)@),
        ensures
            final(internal).wf(),
            final(internal)@ == given_up(self@, old(internal)@),
    {
        if let FutureSignal::Shared(p) = self.sig {
            let mut sig = internal.release_send(p);
            sig.drop_data();
        }
    }
}

/// What a poll of a receive does.
///
/// At first a message is taken from the channel if one is there. If none will
/// come, that is the outcome, else the receiver gets in line. Later the wait
/// has ended with a message, or without one, or it goes on.
pub open spec fn recv_polled<T>(
    before: (Progress<()>, ChannelState<T>),
    waker: Waker,
    r: Poll<Result<T, ReceiveError>>,
    after: (Progress<()>, ChannelState<T>),
) -> bool {
    let channel = before.1;
    match before.0 {
        Progress::New(_) => match channel.try_recv() {
            (next, Ok(Some(data))) => {
                &&& r == Poll::<Result<T, ReceiveError>>::Ready(Ok(data))
                &&& after == (Progress::<()>::Done, next)
            },
            (next, Err(e)) => {
                &&& r == Poll::<Result<T, ReceiveError>>::Ready(Err(e))
                &&& after == (Progress::<()>::Done, next)
            },
            (next, Ok(None)) => {
                &&& r == Poll::<Result<T, ReceiveError>>::Pending
                &&& after.0 matches Progress::Shared(p)
                &&& !channel.signals.dom().contains(p)
                &&& after.1 == next.receiver_waiting(p, waker)
            },
        },
        Progress::Shared(p) => match channel.signals[p].state {
            FutureState::Success => {
                &&& r == Poll::<Result<T, ReceiveError>>::Ready(Ok(channel.signals[p].data->0))
                &&& after == (Progress::<()>::Done, channel.released(p))
            },
            FutureState::Failure => {
                &&& r == Poll::<Result<T, ReceiveError>>::Ready(Err(ReceiveError()))
                &&& after == (Progress::<()>::Done, channel.released(p))
            },
            _ => {
                &&& r == Poll::<Result<T, ReceiveError>>::Pending
                &&& after.0 == before.0
                &&& keeps_waiting(channel, after.1, p, waker)
            },
        },
        Progress::Done => false,
    }
}

/// A receive that may wait.
pub struct ReceiveFuture<'a, T> {
    receiver: PhantomData<&'a AsyncReceiver<T>>,
    sig: FutureSignal<T>,
}

impl<'a, T> View for ReceiveFuture<'a, T> {
    type V = Progress<()>;

    closed spec fn view(&self) -> Progress<()> {
        match self.sig {
            FutureSignal::Local(sig) => if sig@.state == FutureState::Unregistered {
                Progress::New(())
            } else {
                Progress::Done
            },
            FutureSignal::Shared(p) => Progress::Shared(p),
        }
    }
}

impl<'a, T> ReceiveFuture<'a, T> {
    /// The future is yet to be tried, has its signal in the channel, or is
    /// done.
    pub closed spec fn wf(self) -> bool {
        self.sig matches FutureSignal::Local(sig) ==> {
            ||| sig@.state == FutureState::Unregistered && sig@.data is None
            ||| sig@.state == FutureState::Done
        }
    }

    /// A receive that was not tried yet. The receiver lives as long.
    pub fn new_ref(_receiver: &'a AsyncReceiver<T>) -> (r: ReceiveFuture<'a, T>)
        ensures
            r.wf(),
            r@ == Progress::New(()),
    {
        ReceiveFuture { receiver: PhantomData, sig: FutureSignal::Local(AsyncSignal::new_recv()) }
    }

    /// Tries to receive, or looks whether the wait has ended. Not to be called
    /// again after an outcome.
    pub fn poll(&mut self, internal: &mut ChannelInternal<T>, waker: Waker) -> (r: Poll<
        Result<T, ReceiveError>,
    >)
        requires
            old(self).wf(),
            old(internal).wf(),
            old(self)@ !is Done,
            is_receiver(old(self)@, old(internal)@),
        ensures
            final(self).wf(),
            final(internal).wf(),
            is_receiver(final(self)@, final(internal)@),
            recv_polled(
                (old(self)@, old(internal)@),
                waker,
                r,
                (final(self)@, final(internal)@),
            ),
    {
        let mut taken = done_signal();
        core::mem::swap(&mut self.sig, &mut taken);
        match taken {
            FutureSignal::Local(mut sig) => match internal.try_recv() {
                Ok(Some(data)) => Poll::Ready(Ok(data)),
                Err(e) => Poll::Ready(Err(e)),
                Ok(None) => {
                    sig.set_state(FutureState::Pending);
                    sig.update_waker(waker);
                    let p = internal.push_recv(sig);
                    self.sig = FutureSignal::Shared(p);
                    Poll::Pending
                },
            },
            FutureSignal::Shared(p) => match internal.signal_state(p) {
                FutureState::Success => {
                    let mut sig = internal.release_recv(p);
                    Poll::Ready(Ok(sig.assume_init()))
                },
                FutureState::Failure => {
                    let _ = internal.release_recv(p);
                    Poll::Ready(Err(ReceiveError()))
                },
                _ => {
                    internal.refresh_waker(p, waker);
                    self.sig = FutureSignal::Shared(p);
                    Poll::Pending
                },
            },
        }
    }

    /// Gives the receive up. A message that was given to it already is dropped.
    pub fn drop(self, internal: &mut ChannelInternal<T>)
        requires
            self.wf(),
            old(internal).wf(),
            is_receiver(self@, old(internal)@),
        ensures
            final(internal).wf(),
            final(internal)@ == given_up(self@, old(internal)@),
    {
        if let FutureSignal::Shared(p) = self.sig {
            let mut sig = internal.release_recv(p);
            sig.drop_data();
        }
    }
}

/// What a poll of a send of many does to the channel and to the messages that
/// are left.
///
/// As long as a message of it waits, nothing else is sent. Then the messages
/// are sent one after the other until none is left, or the receiving side is
/// gone, or one has to wait. A message that cannot be sent is handed back, and
/// those behind it stay where they are.
pub open spec fn send_many_polled<T>(
    before: (Progress<()>, ChannelState<T>, Seq<T>),
    waker: Waker,
    r: Poll<Result<(), SendError<T>>>,
    after: (Progress<()>, ChannelState<T>, Seq<T>),
) -> bool {
    let (progress, channel, elements) = before;
    match progress {
        Progress::New(_) => rest_sent(channel, elements, waker, r, after),
        Progress::Shared(p) => match channel.signals[p].state {
            FutureState::Success => rest_sent(channel.released(p), elements, waker, r, after),
            FutureState::Failure => {
                &&& r == Poll::<Result<(), SendError<T>>>::Ready(
                    Err(SendError(channel.signals[p].data->0)),
                )
                &&& after == (Progress::<()>::Done, channel.released(p), elements)
            },
            _ => {
                &&& r == Poll::<Result<(), SendError<T>>>::Pending
                &&& after.0 == progress
                &&& keeps_waiting(channel, after.1, p, waker)
                &&& after.2 == elements
            },
        },
        Progress::Done => false,
    }
}

/// What a poll of a send of many does when no message of it waits.
pub open spec fn rest_sent<T>(
    channel: ChannelState<T>,
    elements: Seq<T>,
    waker: Waker,
    r: Poll<Result<(), SendError<T>>>,
    after: (Progress<()>, ChannelState<T>, Seq<T>),
) -> bool {
    let (next, rest) = channel.send_all(elements);
    if rest.len() == 0 {
        &&& r == Poll::<Result<(), SendError<T>>>::Ready(Ok(()))
        &&& after == (Progress::<()>::Done, next, rest)
    } else if channel.recv_count == 0 {
        &&& r == Poll::<Result<(), SendError<T>>>::Ready(Err(SendError(rest[0])))
        &&& after == (Progress::<()>::Done, next, rest.drop_first())
    } else {
        &&& r == Poll::<Result<(), SendError<T>>>::Pending
        &&& after.0 matches Progress::Shared(p)
        &&& !next.signals.dom().contains(p)
        &&& after.1 == next.sender_waiting(p, rest[0], waker)
        &&& after.2 == rest.drop_first()
    }
}

/// The message of a send of many that waits, if any.
pub struct CurrentSend<T> {
    sig: FutureSignal<T>,
}

impl<T> View for CurrentSend<T> {
    type V = Progress<()>;

    closed spec fn view(&self) -> Progress<()> {
        match self.sig {
            FutureSignal::Local(sig) => if sig@.state == FutureState::Success {
                Progress::New(())
            } else {
                Progress::Done
            },
            FutureSignal::Shared(p) => Progress::Shared(p),
        }
    }
}

/// A send of many messages that may wait. The messages that are left are in the
/// caller's deque.
pub struct SendManyFuture<'a, 'b, T> {
    /// The sender, which lives as long.
    pub sender: PhantomData<&'a AsyncSender<T>>,
    /// The message that waits.
    pub current: CurrentSend<T>,
    /// The messages that are left and do not wait.
    pub elements: &'b mut VecDeque<T>,
}

impl<'a, 'b, T> View for SendManyFuture<'a, 'b, T> {
    type V = Progress<()>;

    open spec fn view(&self) -> Progress<()> {
        self.current@
    }
}

impl<'a, 'b, T> SendManyFuture<'a, 'b, T> {
    /// A send of all of `elements`, of which none was tried yet. The sender
    /// lives as long.
    pub fn new(_sender: &'a AsyncSender<T>, elements: &'b mut VecDeque<T>) -> (r: SendManyFuture<
        'a,
        'b,
        T,
    >)
        ensures
            r@ == Progress::New(()),
            r.elements@ == old(elements)@,
            *final(r.elements) == *final(elements),
    {
        SendManyFuture {
            sender: PhantomData,
            current: CurrentSend { sig: FutureSignal::Local(AsyncSignal::new_send_finished()) },
            elements,
        }
    }

    /// Sends as many messages as can be sent now. Not to be called again after
    /// an outcome.
    pub fn poll(&mut self, internal: &mut ChannelInternal<T>, waker: Waker) -> (r: Poll<
        Result<(), SendError<T>>,
    >)
        requires
            old(internal).wf(),
            old(self)@ !is Done,
            is_sender(old(self)@, old(internal)@),
            sender_alive(old(internal)@),
        ensures
            final(internal).wf(),
            is_sender(final(self)@, final(internal)@),
            *final(final(self).elements) == *final(old(self).elements),
            send_many_polled(
                (old(self)@, old(internal)@, old(self).elements@),
                waker,
                r,
                (final(self)@, final(internal)@, final(self).elements@),
            ),
    {
        let mut taken = done_signal();
        core::mem::swap(&mut self.current.sig, &mut taken);
        let mut sig = match taken {
            FutureSignal::Local(sig) => sig,
            FutureSignal::Shared(p) => match internal.signal_state(p) {
                FutureState::Success => internal.release_send(p),
                FutureState::Failure => {
                    let mut sig = internal.release_send(p);
                    return Poll::Ready(Err(SendError(sig.assume_init())));
                },
                _ => {
                    internal.refresh_waker(p, waker);
                    self.current.sig = FutureSignal::Shared(p);
                    return Poll::Pending;
                },
            },
        };
        let ghost channel = internal@;
        let ghost elements = self.elements@;
        proof {
            channel.lemma_send_all_counts(elements);
        }
        internal.send_all(self.elements);
        let ghost rest = self.elements@;
        match self.elements.pop_front() {
            Some(data) => {
                assert(self.elements@ =~= rest.drop_first());
                if internal.recv_count() == 0 {
                    return Poll::Ready(Err(SendError(data)));
                }
                sig.reset_send(data);
                sig.update_waker(waker);
                let p = internal.push_send(sig);
                self.current.sig = FutureSignal::Shared(p);
                Poll::Pending
            },
            None => Poll::Ready(Ok(())),
        }
    }

    /// Gives the send up. A message that waits is dropped; those that are left
    /// stay in the deque.
    pub fn drop(self, internal: &mut ChannelInternal<T>)
        requires
            old(internal).wf(),
            is_sender(self@, old(internal)@),
        ensures
            final(internal).wf(),
            final(internal)@ == given_up(self@, old(internal)@),
            *final(self.elements) == *old(self.elements),
    {
        if let FutureSignal::Shared(p) = self.current.sig {
            let mut sig = internal.release_send(p);
            sig.drop_data();
        }
    }
}

/// What a poll of a stream does: one receive after the other, until one fails;
/// from then on the stream is at its end and leaves the channel alone.
pub open spec fn stream_polled<T>(
    before: (Progress<()>, bool, ChannelState<T>),
    waker: Waker,
    r: Poll<Option<T>>,
    after: (Progress<()>, bool, ChannelState<T>),
) -> bool {
    let (progress, terminated, channel) = before;
    if terminated {
        r == Poll::<Option<T>>::Ready(None) && after == before
    } else {
        match r {
            Poll::Ready(Some(data)) => {
                &&& recv_polled(
                    (progress, channel),
                    waker,
                    Poll::Ready(Ok(data)),
                    (Progress::Done, after.2),
                )
                &&& after.0 == Progress::New(())
                &&& !after.1
            },
            Poll::Ready(None) => {
                &&& recv_polled(
                    (progress, channel),
                    waker,
                    Poll::Ready(Err(ReceiveError())),
                    (Progress::Done, after.2),
                )
                &&& after.0 == Progress::<()>::Done
                &&& after.1
            },
            Poll::Pending => {
                &&& recv_polled((progress, channel), waker, Poll::Pending, (after.0, after.2))
                &&& !after.1
            },
        }
    }
}

/// The messages of a channel as a stream.
pub struct ReceiveStream<'a, T> {
    future: ReceiveFuture<'a, T>,
    terminated: bool,
    receiver: &'a AsyncReceiver<T>,
}

impl<'a, T> View for ReceiveStream<'a, T> {
    type V = (Progress<()>, bool);

    /// How far the receive of the next message has come, and whether the stream
    /// is at its end.
    closed spec fn view(&self) -> (Progress<()>, bool) {
        (self.future@, self.terminated)
    }
}

impl<'a, T> ReceiveStream<'a, T> {
    /// Until the end there is a receive that is not done.
    pub closed spec fn wf(self) -> bool {
        &&& self.future.wf()
        &&& self.future@ is Done <==> self.terminated
    }

    /// The stream of all that `receiver` receives while it is borrowed.
    pub fn new_borrowed(receiver: &'a AsyncReceiver<T>) -> (r: ReceiveStream<'a, T>)
        ensures
            r.wf(),
            r@ == (Progress::New(()), false),
    {
        ReceiveStream { future: ReceiveFuture::new_ref(receiver), terminated: false, receiver }
    }

    /// The next message, or `None` at the end.
    pub fn poll_next(&mut self, internal: &mut ChannelInternal<T>, waker: Waker) -> (r: Poll<
        Option<T>,
    >)
        requires
            old(self).wf(),
            old(internal).wf(),
            is_receiver(old(self)@.0, old(internal)@),
        ensures
            final(self).wf(),
            final(internal).wf(),
            is_receiver(final(self)@.0, final(internal)@),
            stream_polled(
                (old(self)@.0, old(self)@.1, old(internal)@),
                waker,
                r,
                (final(self)@.0, final(self)@.1, final(internal)@),
            ),
    {
        if self.terminated {
            return Poll::Ready(None);
        }
        match self.future.poll(internal, waker) {
            Poll::Ready(Ok(data)) => {
                self.future = ReceiveFuture::new_ref(self.receiver);
                Poll::Ready(Some(data))
            },
            Poll::Ready(Err(_)) => {
                self.terminated = true;
                Poll::Ready(None)
            },
            Poll::Pending => Poll::Pending,
        }
    }

    /// Whether the stream is at its end.
    pub fn is_terminated(&self) -> (r: bool)
        ensures
            r == self@.1,
    {
        self.terminated
    }

    /// Gives the stream up. A message that was given to it already and was not
    /// collected is dropped.
    pub fn drop(self, internal: &mut ChannelInternal<T>)
        requires
            self.wf(),
            old(internal).wf(),
            is_receiver(self@.0, old(internal)@),
        ensures
            final(internal).wf(),
            final(internal)@ == given_up(self@.0, old(internal)@),
    {
        self.future.drop(internal);
    }
}

} // verus!
