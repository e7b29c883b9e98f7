//! An asynchronous channel between any number of senders and receivers.
//!
//! A channel has a queue of messages, bounded or not. A send that finds the
//! queue full waits, and so does a receive that finds it empty. The state that
//! all handles of a channel share is a [`ChannelInternal`](internal); whoever
//! calls an operation passes it in, and wakes the tasks that the operation has
//! noted to be woken. Handles are counted in it: more of them are made with
//! `clone`, and they are given up with `drop`.

pub mod backoff;
pub mod error;
pub mod future;
mod hint;
pub mod internal;
pub mod laws;
mod local_atomic;
pub mod signal;
pub mod state;
pub mod store;

use crate::error::{CloseError, ReceiveError, SendTimeoutError};
use crate::future::{Progress, ReceiveFuture, ReceiveStream, SendFuture, SendManyFuture};
use crate::internal::{ChannelInternal, Internal};
use crate::state::ChannelState;
use core::marker::PhantomData;
use std::collections::VecDeque;
use vstd::prelude::*;

verus! {

/// The sending side of a channel.
pub struct AsyncSender<T> {
    internal: Internal,
    marker: PhantomData<T>,
}

impl<T> AsyncSender<T> {
    /// How many messages the queue of the channel may hold.
    pub closed spec fn spec_capacity(self) -> usize {
        self.internal.spec_capacity()
    }

    /// A send of `data`, which may wait. Nothing is sent before the first poll.
    pub fn send(&self, data: T) -> (r: SendFuture<'_, T>)
        ensures
            r.wf(),
            r@ == Progress::New(data),
    {
        SendFuture::new(self, data)
    }

    /// A send of all messages of `elements`, from the front, which may wait. It
    /// is complete when the deque is empty or the receiving side is gone.
    /// Nothing is sent before the first poll.
    pub fn send_many<'a, 'b>(&'a self, elements: &'b mut VecDeque<T>) -> (r: SendManyFuture<
        'a,
        'b,
        T,
    >)
        ensures
            r@ == Progress::New(()),
            r.elements@ == old(elements)@,
            *final(r.elements) == *final(elements),
    {
        SendManyFuture::new(self, elements)
    }

    /// Sends without waiting. If the message cannot be taken at once it is
    /// handed back.
    pub fn try_send(&self, internal: &mut ChannelInternal<T>, data: T) -> (r: Result<
        (),
        SendTimeoutError<T>,
    >)
        requires
            old(internal).wf(),
        ensures
            final(internal).wf(),
            (final(internal)@, r) == old(internal)@.try_send(data),
    {
        internal.try_send(data)
    }

    /// Sends without waiting, not even for access to the state. Without access
    /// the message is handed back.
    pub fn try_send_realtime(&self, internal: Option<&mut ChannelInternal<T>>, data: T) -> (r:
        Result<(), SendTimeoutError<T>>)
        requires
            internal matches Some(state) ==> (*state).wf(),
        ensures
            match internal {
                Some(state) => {
                    &&& final(state).wf()
                    &&& (final(state)@, r) == (*state)@.try_send(data)
                },
                None => r == Err::<(), SendTimeoutError<T>>(SendTimeoutError::Timeout(data)),
            },
    {
        if let Some(internal) = internal {
            return internal.try_send(data);
        }
        Err(SendTimeoutError::Timeout(data))
    }

    /// Whether the receiving side is gone.
    pub fn is_disconnected(&self, internal: &ChannelInternal<T>) -> (r: bool)
        ensures
            r == (internal@.recv_count == 0),
    {
        internal.recv_count() == 0
    }

    /// One more sender of the channel.
    pub fn clone(&self, internal: &mut ChannelInternal<T>) -> (r: AsyncSender<T>)
        requires
            old(internal).wf(),
            old(internal)@.send_count < u32::MAX,
        ensures
            final(internal).wf(),
            final(internal)@ == old(internal)@.sender_cloned(),
            r.spec_capacity() == self.spec_capacity(),
    {
        internal.clone_send();
        AsyncSender { internal: self.internal.clone_unchecked(), marker: PhantomData }
    }

    /// Gives this sender up. With the last one every wait is ended.
    pub fn drop(self, internal: &mut ChannelInternal<T>)
        requires
            old(internal).wf(),
        ensures
            final(internal).wf(),
            final(internal)@ == old(internal)@.sender_dropped(),
    {
        internal.drop_send();
    }

    /// How the sender is printed for debugging.
    pub fn debug_text(&self) -> (r: String)
        ensures
            r@ == "AsyncSender { .. }"@,
    {
        "AsyncSender { .. }".to_owned()
    }

    /// Whether the channel is bounded.
    pub fn is_bounded(&self) -> (r: bool)
        ensures
            r == (self.spec_capacity() != usize::MAX),
    {
        self.internal.capacity() != usize::MAX
    }

    /// How many messages are in the queue.
    pub fn len(&self, internal: &ChannelInternal<T>) -> (r: usize)
        ensures
            r == internal@.queue.len(),
    {
        internal.len()
    }

    /// Whether the queue is empty.
    pub fn is_empty(&self, internal: &ChannelInternal<T>) -> (r: bool)
        ensures
            r == (internal@.queue.len() == 0),
    {
        internal.len() == 0
    }

    /// Whether the queue is full. A queue for no messages is always full.
    pub fn is_full(&self, internal: &ChannelInternal<T>) -> (r: bool)
        ensures
            r == (internal@.queue.len() == internal@.capacity),
    {
        internal.capacity() == internal.len()
    }

    /// How many messages the queue may hold; `usize::MAX` for a channel without
    /// bound.
    pub fn capacity(&self) -> (r: usize)
        ensures
            r == self.spec_capacity(),
    {
        self.internal.capacity()
    }

    /// How many receivers are alive.
    pub fn receiver_count(&self, internal: &ChannelInternal<T>) -> (r: usize)
        ensures
            r == internal@.recv_count,
    {
        internal.recv_count() as usize
    }

    /// How many senders are alive.
    pub fn sender_count(&self, internal: &ChannelInternal<T>) -> (r: usize)
        ensures
            r == internal@.send_count,
    {
        internal.send_count() as usize
    }

    /// Closes the channel on both sides: every wait is ended and the queue is
    /// emptied. Fails if both sides were gone already.
    pub fn close(&self, internal: &mut ChannelInternal<T>) -> (r: Result<(), CloseError>)
        requires
            old(internal).wf(),
        ensures
            final(internal).wf(),
            (final(internal)@, r) == old(internal)@.close(),
    {
        internal.close()
    }

    /// Whether both sides of the channel are gone.
    pub fn is_closed(&self, internal: &ChannelInternal<T>) -> (r: bool)
        ensures
            r == internal@.is_closed(),
    {
        internal.send_count() == 0 && internal.recv_count() == 0
    }
}

/// The receiving side of a channel.
pub struct AsyncReceiver<T> {
    internal: Internal,
    marker: PhantomData<T>,
}

impl<T> AsyncReceiver<T> {
    /// How many messages the queue of the channel may hold.
    pub closed spec fn spec_capacity(self) -> usize {
        self.internal.spec_capacity()
    }

    /// A receive, which may wait. Nothing is received before the first poll.
    ///
    /// Once it was polled, a message may be given to it at any time. If it is
    /// given up after that and before it is polled again, that message is lost.
    pub fn recv(&self) -> (r: ReceiveFuture<'_, T>)
        ensures
            r.wf(),
            r@ == Progress::New(()),
    {
        ReceiveFuture::new_ref(self)
    }

    /// The messages of the channel as a stream, which borrows the receiver.
    pub fn stream(&self) -> (r: ReceiveStream<'_, T>)
        ensures
            r.wf(),
            r@ == (Progress::New(()), false),
    {
        ReceiveStream::new_borrowed(self)
    }

    /// Receives without waiting: `Ok(None)` if there is nothing to receive now,
    /// an error if there never will be.
    pub fn try_recv(&self, internal: &mut ChannelInternal<T>) -> (r: Result<
        Option<T>,
        ReceiveError,
    >)
        requires
            old(internal).wf(),
        ensures
            final(internal).wf(),
            (final(internal)@, r) == old(internal)@.try_recv(),
    {
        internal.try_recv()
    }

    /// Receives without waiting, not even for access to the state. Without
    /// access there is nothing to receive now.
    pub fn try_recv_realtime(&self, internal: Option<&mut ChannelInternal<T>>) -> (r: Result<
        Option<T>,
        ReceiveError,
    >)
        requires
            internal matches Some(state) ==> (*state).wf(),
        ensures
            match internal {
                Some(state) => {
                    &&& final(state).wf()
                    &&& (final(state)@, r) == (*state)@.try_recv()
                },
                None => r == Ok::<Option<T>, ReceiveError>(None),
            },
    {
        if let Some(internal) = internal {
            return internal.try_recv();
        }
        Ok(None)
    }

    /// Receives all that can be received without waiting, oldest first, appends
    /// it to `vec`, and returns the number of messages.
    pub fn drain_into(&self, internal: &mut ChannelInternal<T>, vec: &mut Vec<T>) -> (r: Result<
        usize,
        ReceiveError,
    >)
        requires
            old(internal).wf(),
            old(vec)@.len() + old(internal)@.pending().len() <= usize::MAX,
        ensures
            final(internal).wf(),
            old(internal)@.recv_count == 0 ==> {
                &&& r == Err::<usize, ReceiveError>(ReceiveError())
                &&& final(internal)@ == old(internal)@
                &&& final(vec)@ == old(vec)@
            },
            old(internal)@.recv_count > 0 ==> {
                &&& r == Ok::<usize, ReceiveError>(old(internal)@.pending().len() as usize)
                &&& final(internal)@ == old(internal)@.drained()
                &&& final(vec)@ == old(vec)@ + old(internal)@.pending()
            },
    {
        internal.drain_into(vec)
    }

    /// Whether the sending side is gone.
    pub fn is_disconnected(&self, internal: &ChannelInternal<T>) -> (r: bool)
        ensures
            r == (internal@.send_count == 0),
    {
        internal.send_count() == 0
    }

    /// Whether nothing can be received from now on.
    pub fn is_terminated(&self, internal: &ChannelInternal<T>) -> (r: bool)
        ensures
            r == (internal@.send_count == 0 && internal@.queue.len() == 0),
    {
        internal.send_count() == 0 && internal.len() == 0
    }

    /// One more receiver of the channel.
    pub fn clone(&self, internal: &mut ChannelInternal<T>) -> (r: AsyncReceiver<T>)
        requires
            old(internal).wf(),
            old(internal)@.recv_count < u32::MAX,
        ensures
            final(internal).wf(),
            final(internal)@ == old(internal)@.receiver_cloned(),
            r.spec_capacity() == self.spec_capacity(),
    {
        internal.clone_recv();
        AsyncReceiver { internal: self.internal.clone_unchecked(), marker: PhantomData }
    }

    /// Gives this receiver up. With the last one every wait is ended.
    pub fn drop(self, internal: &mut ChannelInternal<T>)
        requires
            old(internal).wf(),
        ensures
            final(internal).wf(),
            final(internal)@ == old(internal)@.receiver_dropped(),
    {
        internal.drop_recv();
    }

    /// How the receiver is printed for debugging.
    pub fn debug_text(&self) -> (r: String)
        ensures
            r@ == "AsyncReceiver { .. }"@,
    {
        "AsyncReceiver { .. }".to_owned()
    }

    /// Whether the channel is bounded.
    pub fn is_bounded(&self) -> (r: bool)
        ensures
            r == (self.spec_capacity() != usize::MAX),
    {
        self.internal.capacity() != usize::MAX
    }

    /// How many messages are in the queue.
    pub fn len(&self, internal: &ChannelInternal<T>) -> (r: usize)
        ensures
            r == internal@.queue.len(),
    {
        internal.len()
    }

    /// Whether the queue is empty.
    pub fn is_empty(&self, internal: &ChannelInternal<T>) -> (r: bool)
        ensures
            r == (internal@.queue.len() == 0),
    {
        internal.len() == 0
    }

    /// Whether the queue is full. A queue for no messages is always full.
    pub fn is_full(&self, internal: &ChannelInternal<T>) -> (r: bool)
        ensures
            r == (internal@.queue.len() == internal@.capacity),
    {
        internal.capacity() == internal.len()
    }

    /// How many messages the queue may hold; `usize::MAX` for a channel without
    /// bound.
    pub fn capacity(&self) -> (r: usize)
        ensures
            r == self.spec_capacity(),
    {
        self.internal.capacity()
    }

    /// How many receivers are alive.
    pub fn receiver_count(&self, internal: &ChannelInternal<T>) -> (r: usize)
        ensures
            r == internal@.recv_count,
    {
        internal.recv_count() as usize
    }

    /// How many senders are alive.
    pub fn sender_count(&self, internal: &ChannelInternal<T>) -> (r: usize)
        ensures
            r == internal@.send_count,
    {
        internal.send_count() as usize
    }

    /// Closes the channel on both sides: every wait is ended and the queue is
    /// emptied. Fails if both sides were gone already.
    pub fn close(&self, internal: &mut ChannelInternal<T>) -> (r: Result<(), CloseError>)
        requires
            old(internal).wf(),
        ensures
            final(internal).wf(),
            (final(internal)@, r) == old(internal)@.close(),
    {
        internal.close()
    }

    /// Whether both sides of the channel are gone.
    pub fn is_closed(&self, internal: &ChannelInternal<T>) -> (r: bool)
        ensures
            r == internal@.is_closed(),
    {
        internal.send_count() == 0 && internal.recv_count() == 0
    }
}

/// A new channel whose queue may hold `size` messages: its first sender, its
/// first receiver, and its state. With a queue for no messages, every message
/// goes from a sender to a receiver directly.
pub fn bounded_async<T>(size: usize) -> (r: (AsyncSender<T>, AsyncReceiver<T>, ChannelInternal<T>))
    ensures
        r.0.spec_capacity() == size,
        r.1.spec_capacity() == size,
        r.2.wf(),
        r.2@ == ChannelState::<T>::initial(size as nat),
{
    let state = ChannelInternal::new(true, size);
    let internal = Internal::of(&state);
    (
        AsyncSender { internal: internal.clone_unchecked(), marker: PhantomData },
        AsyncReceiver { internal, marker: PhantomData },
        state,
    )
}

/// How many messages the queue of a channel without bound has room for at
/// first. Other queues start with no more room than that.
pub const UNBOUNDED_STARTING_SIZE: usize = 32;

/// A new channel without bound: its first sender, its first receiver, and its
/// state. The queue grows with the messages in it and does not shrink.
pub fn unbounded_async<T>() -> (r: (AsyncSender<T>, AsyncReceiver<T>, ChannelInternal<T>))
    ensures
        r.0.spec_capacity() == usize::MAX,
        r.1.spec_capacity() == usize::MAX,
        r.2.wf(),
        r.2@ == ChannelState::<T>::initial(usize::MAX as nat),
{
    let state = ChannelInternal::new(false, UNBOUNDED_STARTING_SIZE);
    let internal = Internal::of(&state);
    (
        AsyncSender { internal: internal.clone_unchecked(), marker: PhantomData },
        AsyncReceiver { internal, marker: PhantomData },
        state,
    )
}

} // verus!
