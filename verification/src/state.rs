//! The state of a channel as a mathematical value, and what each operation
//! makes of it.

use crate::error::{CloseError, ReceiveError, SendTimeoutError};
use crate::future::FutureState;
use crate::signal::{DynamicSignal, SignalView};
use core::task::Waker;
use vstd::prelude::*;

verus! {

/// The state of a channel.
#[verifier::ext_equal]
pub struct ChannelState<T> {
    /// How many messages the queue may hold.
    pub capacity: nat,
    /// The messages that were sent and not received, oldest first.
    pub queue: Seq<T>,
    /// The senders that wait, longest first.
    pub senders: Seq<DynamicSignal>,
    /// The receivers that wait, longest first.
    pub receivers: Seq<DynamicSignal>,
    /// The shared signals: those of the senders and receivers that wait, and
    /// those whose wait has ended and whose outcome was not collected yet.
    pub signals: Map<DynamicSignal, SignalView<T>>,
    /// How many senders are alive.
    pub send_count: nat,
    /// How many receivers are alive.
    pub recv_count: nat,
    /// The wakers of the tasks whose wait has ended and that are to be woken,
    /// each by a clone of its waker, first ended first.
    pub wakes: Seq<Waker>,
}

/// The wakers to be woken, with one more if there is one.
pub open spec fn woken(wakes: Seq<Waker>, waker: Option<Waker>) -> Seq<Waker> {
    match waker {
        Some(w) => wakes.push(w),
        None => wakes,
    }
}

/// The signals after `f` was applied to those in `ps`.
pub open spec fn changed_signals<T>(
    signals: Map<DynamicSignal, SignalView<T>>,
    ps: Seq<DynamicSignal>,
    f: spec_fn(SignalView<T>) -> SignalView<T>,
) -> Map<DynamicSignal, SignalView<T>> {
    Map::new(
        |p: DynamicSignal| signals.dom().contains(p),
        |p: DynamicSignal|
            if ps.contains(p) {
                f(signals[p])
            } else {
                signals[p]
            },
    )
}

impl<T> ChannelState<T> {
    /// What holds of a channel at every time.
    ///
    /// The queue keeps to its capacity. Senders wait only while the queue is
    /// full, receivers only while it is empty, and nobody waits once either
    /// side is gone. Every signal that waits is in line exactly once, and with
    /// a waker to be woken by.
    pub open spec fn inv(self) -> bool {
        &&& self.queue.len() <= self.capacity
        &&& self.senders.len() > 0 ==> self.queue.len() == self.capacity
        &&& self.receivers.len() > 0 ==> self.queue.len() == 0
        &&& self.senders.len() == 0 || self.receivers.len() == 0
        &&& self.send_count == 0 || self.recv_count == 0 ==> self.senders.len() == 0
            && self.receivers.len() == 0
        &&& self.senders.no_duplicates()
        &&& self.receivers.no_duplicates()
        &&& forall|i: int|
            0 <= i < self.senders.len() ==> self.sender_waits(#[trigger] self.senders[i])
        &&& forall|i: int|
            0 <= i < self.receivers.len() ==> self.receiver_waits(#[trigger] self.receivers[i])
        &&& forall|p: DynamicSignal| #[trigger]
            self.signals.dom().contains(p) ==> self.signals[p].of_sender()
                || self.signals[p].of_receiver()
        &&& forall|p: DynamicSignal| #[trigger]
            self.signals.dom().contains(p) && self.signals[p].state == FutureState::Pending
                ==> self.senders.contains(p) || self.receivers.contains(p)
    }

    /// The signal of a sender whose wait has not ended.
    pub open spec fn sender_waits(self, p: DynamicSignal) -> bool {
        &&& self.signals.dom().contains(p)
        &&& self.signals[p].of_sender()
        &&& self.signals[p].state == FutureState::Pending
    }

    /// The signal of a receiver whose wait has not ended.
    pub open spec fn receiver_waits(self, p: DynamicSignal) -> bool {
        &&& self.signals.dom().contains(p)
        &&& self.signals[p].of_receiver()
        &&& self.signals[p].state == FutureState::Pending
    }

    /// A new channel, with one sender and one receiver.
    pub open spec fn initial(capacity: nat) -> ChannelState<T> {
        ChannelState {
            capacity,
            queue: Seq::empty(),
            senders: Seq::empty(),
            receivers: Seq::empty(),
            signals: Map::empty(),
            send_count: 1,
            recv_count: 1,
            wakes: Seq::empty(),
        }
    }

    /// The messages of the senders that wait, in their order.
    pub open spec fn waiting_data(self) -> Seq<T> {
        self.senders.map_values(|p: DynamicSignal| self.signals[p].data->0)
    }

    /// All messages that were sent, or are being sent, and that no receiver has
    /// got yet, in the order in which receivers get them.
    pub open spec fn pending(self) -> Seq<T> {
        self.queue + self.waiting_data()
    }

    /// Both sides are gone.
    pub open spec fn is_closed(self) -> bool {
        self.send_count == 0 && self.recv_count == 0
    }

    /// A message that is sent now need not wait.
    pub open spec fn accepts(self) -> bool {
        self.recv_count > 0 && (self.receivers.len() > 0 || self.queue.len() < self.capacity)
    }

    /// The first sender in line has had its message taken.
    pub open spec fn sender_taken(self) -> ChannelState<T> {
        let p = self.senders[0];
        ChannelState {
            senders: self.senders.drop_first(),
            signals: self.signals.insert(p, self.signals[p].taken()),
            wakes: woken(self.wakes, self.signals[p].waker),
            ..self
        }
    }

    /// The first receiver in line has been given a message.
    pub open spec fn receiver_given(self, data: T) -> ChannelState<T> {
        let p = self.receivers[0];
        ChannelState {
            receivers: self.receivers.drop_first(),
            signals: self.signals.insert(p, self.signals[p].given(data)),
            wakes: woken(self.wakes, self.signals[p].waker),
            ..self
        }
    }

    /// A message has been put in the queue.
    pub open spec fn queued(self, data: T) -> ChannelState<T> {
        ChannelState { queue: self.queue.push(data), ..self }
    }

    /// Sending without waiting: the message goes to the first receiver in line,
    /// else into the queue if there is room, else back.
    pub open spec fn try_send(self, data: T) -> (ChannelState<T>, Result<
        (),
        SendTimeoutError<T>,
    >) {
        if self.recv_count == 0 {
            (self, Err(SendTimeoutError::Closed(data)))
        } else if self.receivers.len() > 0 {
            (self.receiver_given(data), Ok(()))
        } else if self.queue.len() < self.capacity {
            (self.queued(data), Ok(()))
        } else {
            (self, Err(SendTimeoutError::Timeout(data)))
        }
    }

    /// Sending one message after the other as long as none has to wait: the
    /// state after that, and the messages that are left.
    pub open spec fn send_all(self, data: Seq<T>) -> (ChannelState<T>, Seq<T>)
        decreases data.len(),
    {
        if data.len() > 0 && self.accepts() {
            self.try_send(data[0]).0.send_all(data.drop_first())
        } else {
            (self, data)
        }
    }

    /// The oldest message has left the queue, and the message of the first
    /// sender in line, if any, has taken the room.
    pub open spec fn dequeued(self) -> ChannelState<T> {
        let rest = ChannelState { queue: self.queue.drop_first(), ..self };
        if self.senders.len() > 0 {
            rest.sender_taken().queued(self.waiting_data()[0])
        } else {
            rest
        }
    }

    /// Receiving without waiting: the oldest message in the queue, else the
    /// message of the first sender in line, else nothing.
    pub open spec fn try_recv(self) -> (ChannelState<T>, Result<Option<T>, ReceiveError>) {
        if self.recv_count == 0 {
            (self, Err(ReceiveError()))
        } else if self.queue.len() > 0 {
            (self.dequeued(), Ok(Some(self.queue[0])))
        } else if self.senders.len() > 0 {
            (self.sender_taken(), Ok(Some(self.waiting_data()[0])))
        } else if self.send_count == 0 {
            (self, Err(ReceiveError()))
        } else {
            (self, Ok(None))
        }
    }

    /// The wakers of signals that wait, in the given order.
    pub open spec fn wakers_of(self, ps: Seq<DynamicSignal>) -> Seq<Waker> {
        ps.map_values(|p: DynamicSignal| self.signals[p].waker->0)
    }

    /// Every pending message has been taken.
    pub open spec fn drained(self) -> ChannelState<T> {
        ChannelState {
            queue: Seq::empty(),
            senders: Seq::empty(),
            signals: changed_signals(self.signals, self.senders, |v: SignalView<T>| v.taken()),
            wakes: self.wakes + self.wakers_of(self.senders),
            ..self
        }
    }

    /// All who wait, in line.
    pub open spec fn waiting(self) -> Seq<DynamicSignal> {
        self.senders + self.receivers
    }

    /// Every wait has been ended without a message changing hands.
    pub open spec fn terminated(self) -> ChannelState<T> {
        ChannelState {
            senders: Seq::empty(),
            receivers: Seq::empty(),
            signals: changed_signals(
                self.signals,
                self.waiting(),
                |v: SignalView<T>| v.terminated(),
            ),
            wakes: self.wakes + self.wakers_of(self.waiting()),
            ..self
        }
    }

    /// Closing: both sides are gone, every wait is ended, and the queue is
    /// emptied. It fails if both sides were gone before.
    pub open spec fn close(self) -> (ChannelState<T>, Result<(), CloseError>) {
        if self.is_closed() {
            (self, Err(CloseError()))
        } else {
            (
                ChannelState {
                    send_count: 0,
                    recv_count: 0,
                    queue: Seq::empty(),
                    ..self.terminated()
                },
                Ok(()),
            )
        }
    }

    /// One more sender. A side that is gone does not come back.
    pub open spec fn sender_cloned(self) -> ChannelState<T> {
        if self.send_count > 0 {
            ChannelState { send_count: self.send_count + 1, ..self }
        } else {
            self
        }
    }

    /// One more receiver. A side that is gone does not come back.
    pub open spec fn receiver_cloned(self) -> ChannelState<T> {
        if self.recv_count > 0 {
            ChannelState { recv_count: self.recv_count + 1, ..self }
        } else {
            self
        }
    }

    /// One sender less. When the last one goes, every wait is ended; the queue
    /// stays.
    pub open spec fn sender_dropped(self) -> ChannelState<T> {
        if self.send_count > 1 {
            ChannelState { send_count: (self.send_count - 1) as nat, ..self }
        } else if self.send_count == 1 {
            ChannelState { send_count: 0, ..self.terminated() }
        } else {
            self
        }
    }

    /// One receiver less. When the last one goes, every wait is ended; the
    /// queue stays.
    pub open spec fn receiver_dropped(self) -> ChannelState<T> {
        if self.recv_count > 1 {
            ChannelState { recv_count: (self.recv_count - 1) as nat, ..self }
        } else if self.recv_count == 1 {
            ChannelState { recv_count: 0, ..self.terminated() }
        } else {
            self
        }
    }

    /// A sender has got in line with its message.
    pub open spec fn sender_waiting(
        self,
        p: DynamicSignal,
        data: T,
        waker: Waker,
    ) -> ChannelState<T> {
        ChannelState {
            senders: self.senders.push(p),
            signals: self.signals.insert(p, SignalView::waiting(Some(data), waker)),
            ..self
        }
    }

    /// A receiver has got in line.
    pub open spec fn receiver_waiting(self, p: DynamicSignal, waker: Waker) -> ChannelState<T> {
        ChannelState {
            receivers: self.receivers.push(p),
            signals: self.signals.insert(p, SignalView::waiting(None, waker)),
            ..self
        }
    }

    /// A signal has been given up: it is no longer in line, and no longer
    /// shared.
    pub open spec fn released(self, p: DynamicSignal) -> ChannelState<T> {
        ChannelState {
            senders: without(self.senders, p),
            receivers: without(self.receivers, p),
            signals: self.signals.remove(p),
            ..self
        }
    }

    /// A signal that waits has got another waker.
    pub open spec fn waker_updated(self, p: DynamicSignal, waker: Waker) -> ChannelState<T> {
        ChannelState {
            signals: self.signals.insert(p, self.signals[p].with_waker(waker)),
            ..self
        }
    }

    /// The wakers to be woken have been handed out.
    pub open spec fn wakes_taken(self) -> ChannelState<T> {
        ChannelState { wakes: Seq::empty(), ..self }
    }
}

/// A line after `p` has left it.
pub open spec fn without(line: Seq<DynamicSignal>, p: DynamicSignal) -> Seq<DynamicSignal> {
    if line.contains(p) {
        line.remove(line.index_of(p))
    } else {
        line
    }
}

/// Who is left in a line after `p` has left it.
pub proof fn lemma_without(line: Seq<DynamicSignal>, p: DynamicSignal)
    requires
        line.no_duplicates(),
    ensures
        without(line, p).no_duplicates(),
        !without(line, p).contains(p),
        forall|q: DynamicSignal| q != p ==> (without(line, p).contains(q) <==> line.contains(q)),
        without(line, p).len() <= line.len(),
{
    let rest = without(line, p);
    if line.contains(p) {
        let i = line.index_of(p);
        assert(0 <= i < line.len() && line[i] == p);
        assert(rest =~= line.remove(i));
        assert forall|q: DynamicSignal| q != p && line.contains(q) implies rest.contains(q) by {
            let j = line.index_of(q);
            assert(line[j] == q);
            if j < i {
                assert(rest[j] == q);
            } else {
                assert(rest[j - 1] == q);
            }
        }
        assert forall|q: DynamicSignal| rest.contains(q) implies line.contains(q) && q != p by {
            let j = rest.index_of(q);
            assert(rest[j] == q);
            if j < i {
                assert(line[j] == q);
            } else {
                assert(line[j + 1] == q);
            }
        }
    }
}

impl<T> ChannelState<T> {
    pub(crate) proof fn lemma_initial_inv(capacity: nat)
        ensures
            Self::initial(capacity).inv(),
    {
    }

    pub(crate) proof fn lemma_sender_taken_inv(self)
        requires
            self.inv(),
            self.senders.len() > 0,
        ensures
            self.sender_taken().inv(),
    {
        let next = self.sender_taken();
        let p = self.senders[0];
        assert forall|i: int| 0 <= i < next.senders.len() implies next.sender_waits(
            #[trigger] next.senders[i],
        ) by {
            assert(self.sender_waits(self.senders[i + 1]));
        }
        assert forall|q: DynamicSignal| #[trigger]
            next.signals.dom().contains(q) && next.signals[q].state
                == FutureState::Pending implies next.senders.contains(q) || next.receivers.contains(
            q,
        ) by {
            assert(q != p);
            let j = self.senders.index_of(q);
            assert(self.senders.contains(q));
            assert(next.senders[j - 1] == q);
        }
    }

    pub(crate) proof fn lemma_receiver_given_inv(self, data: T)
        requires
            self.inv(),
            self.receivers.len() > 0,
        ensures
            self.receiver_given(data).inv(),
    {
        let next = self.receiver_given(data);
        let p = self.receivers[0];
        assert forall|i: int| 0 <= i < next.receivers.len() implies next.receiver_waits(
            #[trigger] next.receivers[i],
        ) by {
            assert(self.receiver_waits(self.receivers[i + 1]));
        }
        assert forall|q: DynamicSignal| #[trigger]
            next.signals.dom().contains(q) && next.signals[q].state
                == FutureState::Pending implies next.senders.contains(q) || next.receivers.contains(
            q,
        ) by {
            assert(q != p);
            let j = self.receivers.index_of(q);
            assert(self.receivers.contains(q));
            assert(next.receivers[j - 1] == q);
        }
    }

    pub(crate) proof fn lemma_try_send_inv(self, data: T)
        requires
            self.inv(),
        ensures
            self.try_send(data).0.inv(),
    {
        if self.recv_count > 0 && self.receivers.len() > 0 {
            self.lemma_receiver_given_inv(data);
        }
    }

    pub(crate) proof fn lemma_dequeued_inv(self)
        requires
            self.inv(),
            self.queue.len() > 0,
        ensures
            self.dequeued().inv(),
    {
        if self.senders.len() > 0 {
            self.lemma_sender_taken_inv();
            let taken = self.sender_taken();
            let next = self.dequeued();
            assert(next.senders == taken.senders);
            assert(next.signals == taken.signals);
            assert forall|i: int| 0 <= i < next.senders.len() implies next.sender_waits(
                #[trigger] next.senders[i],
            ) by {
                assert(taken.sender_waits(taken.senders[i]));
            }
        } else {
            let next = self.dequeued();
            assert(next.signals == self.signals);
        }
    }

    pub(crate) proof fn lemma_try_recv_inv(self)
        requires
            self.inv(),
        ensures
            self.try_recv().0.inv(),
    {
        if self.recv_count > 0 {
            if self.queue.len() > 0 {
                self.lemma_dequeued_inv();
            } else if self.senders.len() > 0 {
                self.lemma_sender_taken_inv();
            }
        }
    }

    pub(crate) proof fn lemma_drained_inv(self)
        requires
            self.inv(),
        ensures
            self.drained().inv(),
    {
        let next = self.drained();
        assert forall|p: DynamicSignal| #[trigger]
            next.signals.dom().contains(p) && next.signals[p].state
                == FutureState::Pending implies next.senders.contains(p) || next.receivers.contains(
            p,
        ) by {
            assert(self.signals.dom().contains(p));
        }
        assert forall|i: int| 0 <= i < next.receivers.len() implies next.receiver_waits(
            #[trigger] next.receivers[i],
        ) by {
            assert(self.receiver_waits(self.receivers[i]));
        }
        assert forall|p: DynamicSignal| #[trigger]
            next.signals.dom().contains(p) implies next.signals[p].of_sender()
            || next.signals[p].of_receiver() by {
            assert(self.signals.dom().contains(p));
        }
    }

    pub(crate) proof fn lemma_terminated_inv(self)
        requires
            self.inv(),
        ensures
            self.terminated().inv(),
    {
        let next = self.terminated();
        let line = self.waiting();
        assert forall|p: DynamicSignal| self.senders.contains(p) || self.receivers.contains(
            p,
        ) implies #[trigger] line.contains(p) by {
            if self.senders.contains(p) {
                assert(line[self.senders.index_of(p)] == p);
            } else {
                assert(line[self.senders.len() + self.receivers.index_of(p)] == p);
            }
        }
        assert forall|p: DynamicSignal| #[trigger] next.signals.dom().contains(p) implies (
        next.signals[p].of_sender() || next.signals[p].of_receiver()) && next.signals[p].state
            != FutureState::Pending by {
            assert(self.signals.dom().contains(p));
            if line.contains(p) {
                let i = line.index_of(p);
                if i < self.senders.len() {
                    assert(self.sender_waits(self.senders[i]));
                } else {
                    assert(self.receiver_waits(self.receivers[i - self.senders.len()]));
                }
            }
        }
    }

    pub(crate) proof fn lemma_close_inv(self)
        requires
            self.inv(),
        ensures
            self.close().0.inv(),
    {
        self.lemma_terminated_inv();
    }

    pub(crate) proof fn lemma_count_inv(self)
        requires
            self.inv(),
        ensures
            self.sender_cloned().inv(),
            self.receiver_cloned().inv(),
            self.sender_dropped().inv(),
            self.receiver_dropped().inv(),
    {
        self.lemma_terminated_inv();
    }

    pub(crate) proof fn lemma_sender_waiting_inv(self, p: DynamicSignal, data: T, waker: Waker)
        requires
            self.inv(),
            !self.accepts(),
            self.send_count > 0,
            self.recv_count > 0,
            !self.signals.dom().contains(p),
        ensures
            self.sender_waiting(p, data, waker).inv(),
    {
        let next = self.sender_waiting(p, data, waker);
        assert forall|i: int| 0 <= i < self.senders.len() implies #[trigger] self.senders[i]
            != p by {
            assert(self.sender_waits(self.senders[i]));
        }
        assert forall|i: int| 0 <= i < next.senders.len() implies next.sender_waits(
            #[trigger] next.senders[i],
        ) by {
            if i < self.senders.len() {
                assert(self.sender_waits(self.senders[i]));
            }
        }
        assert forall|q: DynamicSignal| #[trigger]
            next.signals.dom().contains(q) && next.signals[q].state
                == FutureState::Pending implies next.senders.contains(q) || next.receivers.contains(
            q,
        ) by {
            if q == p {
                assert(next.senders[self.senders.len() as int] == p);
            } else {
                assert(self.signals.dom().contains(q));
                let j = self.senders.index_of(q);
                assert(self.senders.contains(q));
                assert(next.senders[j] == q);
            }
        }
    }

    pub(crate) proof fn lemma_receiver_waiting_inv(self, p: DynamicSignal, waker: Waker)
        requires
            self.inv(),
            self.pending().len() == 0,
            self.send_count > 0,
            self.recv_count > 0,
            !self.signals.dom().contains(p),
        ensures
            self.receiver_waiting(p, waker).inv(),
    {
        let next = self.receiver_waiting(p, waker);
        assert forall|i: int| 0 <= i < self.receivers.len() implies #[trigger] self.receivers[i]
            != p by {
            assert(self.receiver_waits(self.receivers[i]));
        }
        assert forall|i: int| 0 <= i < next.receivers.len() implies next.receiver_waits(
            #[trigger] next.receivers[i],
        ) by {
            if i < self.receivers.len() {
                assert(self.receiver_waits(self.receivers[i]));
            }
        }
        assert forall|q: DynamicSignal| #[trigger]
            next.signals.dom().contains(q) && next.signals[q].state
                == FutureState::Pending implies next.senders.contains(q) || next.receivers.contains(
            q,
        ) by {
            if q == p {
                assert(next.receivers[self.receivers.len() as int] == p);
            } else {
                assert(self.signals.dom().contains(q));
                let j = self.receivers.index_of(q);
                assert(self.receivers.contains(q));
                assert(next.receivers[j] == q);
            }
        }
    }

    pub(crate) proof fn lemma_released_inv(self, p: DynamicSignal)
        requires
            self.inv(),
        ensures
            self.released(p).inv(),
    {
        let next = self.released(p);
        lemma_without(self.senders, p);
        lemma_without(self.receivers, p);
        assert forall|i: int| 0 <= i < next.senders.len() implies next.sender_waits(
            #[trigger] next.senders[i],
        ) by {
            let q = next.senders[i];
            assert(next.senders.contains(q));
            assert(q != p && self.senders.contains(q));
            assert(self.sender_waits(self.senders[self.senders.index_of(q)]));
        }
        assert forall|i: int| 0 <= i < next.receivers.len() implies next.receiver_waits(
            #[trigger] next.receivers[i],
        ) by {
            let q = next.receivers[i];
            assert(next.receivers.contains(q));
            assert(q != p && self.receivers.contains(q));
            assert(self.receiver_waits(self.receivers[self.receivers.index_of(q)]));
        }
        assert forall|q: DynamicSignal| #[trigger]
            next.signals.dom().contains(q) && next.signals[q].state
                == FutureState::Pending implies next.senders.contains(q) || next.receivers.contains(
            q,
        ) by {
            assert(self.signals.dom().contains(q));
        }
    }

    pub(crate) proof fn lemma_waker_updated_inv(self, p: DynamicSignal, waker: Waker)
        requires
            self.inv(),
            self.signals.dom().contains(p),
        ensures
            self.waker_updated(p, waker).inv(),
    {
        let next = self.waker_updated(p, waker);
        assert forall|i: int| 0 <= i < next.senders.len() implies next.sender_waits(
            #[trigger] next.senders[i],
        ) by {
            assert(self.sender_waits(self.senders[i]));
        }
        assert forall|i: int| 0 <= i < next.receivers.len() implies next.receiver_waits(
            #[trigger] next.receivers[i],
        ) by {
            assert(self.receiver_waits(self.receivers[i]));
        }
        assert forall|q: DynamicSignal| #[trigger]
            next.signals.dom().contains(q) && next.signals[q].state
                == FutureState::Pending implies next.senders.contains(q) || next.receivers.contains(
            q,
        ) by {
            assert(self.signals.dom().contains(q));
        }
    }

    /// A signal stands in the line of its own kind only.
    pub(crate) proof fn lemma_not_in_line(self, p: DynamicSignal)
        requires
            self.inv(),
            self.signals.dom().contains(p),
        ensures
            self.signals[p].of_sender() ==> !self.receivers.contains(p),
            self.signals[p].of_receiver() ==> !self.senders.contains(p),
    {
        if self.receivers.contains(p) {
            assert(self.receiver_waits(self.receivers[self.receivers.index_of(p)]));
        }
        if self.senders.contains(p) {
            assert(self.sender_waits(self.senders[self.senders.index_of(p)]));
        }
    }

    /// What sending many leaves as it is, and when it stops.
    pub(crate) proof fn lemma_send_all_counts(self, data: Seq<T>)
        ensures
            self.send_all(data).0.send_count == self.send_count,
            self.send_all(data).0.recv_count == self.recv_count,
            self.send_all(data).0.capacity == self.capacity,
            self.send_all(data).1.len() > 0 ==> !self.send_all(data).0.accepts(),
        decreases data.len(),
    {
        if data.len() > 0 && self.accepts() {
            self.try_send(data[0]).0.lemma_send_all_counts(data.drop_first());
        }
    }
}

} // verus!
