//! The shared part of a channel.

use crate::error::{CloseError, ReceiveError, SendTimeoutError};
use crate::future::{keeps_waiting, FutureState};
use crate::signal::{waker_cloned, AsyncSignal, DynamicSignal, SignalView};
use crate::state::{changed_signals, without, woken, ChannelState};
use crate::store::SignalStore;
use crate::UNBOUNDED_STARTING_SIZE;
use branches::unlikely;
use core::task::Waker;
use std::collections::VecDeque;
use vstd::prelude::*;

verus! {

/// What a handle knows of its channel without access to the state.
pub struct Internal {
    capacity: usize,
}

impl Internal {
    /// How many messages the queue may hold.
    pub closed spec fn spec_capacity(self) -> usize {
        self.capacity
    }

    /// What a handle of the given channel knows.
    pub fn of<T>(internal: &ChannelInternal<T>) -> (r: Internal)
        ensures
            r.spec_capacity() == internal@.capacity,
    {
        Internal { capacity: internal.capacity() }
    }

    /// The same for another handle of the channel.
    pub fn clone_unchecked(&self) -> (r: Internal)
        ensures
            r == *self,
    {
        Internal { capacity: self.capacity }
    }

    /// How many messages the queue may hold.
    pub fn capacity(&self) -> (r: usize)
        ensures
            r == self.spec_capacity(),
    {
        self.capacity
    }
}

/// Each of `clones` is a clone of the waker at the same place.
pub open spec fn are_clones(wakers: Seq<Waker>, clones: Seq<Waker>) -> bool {
    &&& clones.len() == wakers.len()
    &&& forall|i: int|
        0 <= i < clones.len() ==> call_ensures(Waker::clone, (&wakers[i],), #[trigger] clones[i])
}

/// What the handles of a channel share and may change. Whoever calls an
/// operation has access to it at that time, and nobody else has.
pub struct ChannelInternal<T> {
    capacity: usize,
    queue: VecDeque<T>,
    /// Whether those in `wait_list` are receivers.
    recv_blocking: bool,
    wait_list: VecDeque<DynamicSignal>,
    signals: SignalStore<T>,
    recv_count: u32,
    send_count: u32,
    wakes: Vec<Waker>,
    /// The wakers that those in `wakes` are clones of.
    owners: Ghost<Seq<Waker>>,
}

impl<T> View for ChannelInternal<T> {
    type V = ChannelState<T>;

    closed spec fn view(&self) -> ChannelState<T> {
        ChannelState {
            capacity: self.capacity as nat,
            queue: self.queue@,
            senders: if self.recv_blocking {
                Seq::empty()
            } else {
                self.wait_list@
            },
            receivers: if self.recv_blocking {
                self.wait_list@
            } else {
                Seq::empty()
            },
            signals: self.signals@,
            send_count: self.send_count as nat,
            recv_count: self.recv_count as nat,
            wakes: self.owners@,
        }
    }
}

impl<T> ChannelInternal<T> {
    /// The state is one that a channel can be in.
    pub closed spec fn wf(self) -> bool {
        &&& self.parts_wf()
        &&& self@.inv()
    }

    /// The signals are kept in order, and for each waker in the state there is
    /// a clone of it to be woken.
    spec fn parts_wf(self) -> bool {
        &&& self.signals.wf()
        &&& are_clones(self.owners@, self.wakes@)
    }

    /// What `wf` says of the state: it keeps to the invariant, and its numbers
    /// to their limits.
    pub proof fn law_state_is_valid(&self)
        requires
            self.wf(),
        ensures
            self@.inv(),
            self@.capacity <= usize::MAX,
            self@.send_count <= u32::MAX,
            self@.recv_count <= u32::MAX,
    {
    }

    /// A new channel with one sender and one receiver. The queue of a bounded
    /// channel may hold `size` messages, that of another as many as can be
    /// counted.
    pub(crate) fn new(bounded: bool, size: usize) -> (r: ChannelInternal<T>)
        ensures
            r.wf(),
            bounded ==> r@ == ChannelState::<T>::initial(size as nat),
            !bounded ==> r@ == ChannelState::<T>::initial(usize::MAX as nat),
    {
        let room: usize = if size < UNBOUNDED_STARTING_SIZE {
            size
        } else {
            UNBOUNDED_STARTING_SIZE
        };
        let r = ChannelInternal {
            capacity: if bounded {
                size
            } else {
                usize::MAX
            },
            queue: VecDeque::with_capacity(room),
            recv_blocking: false,
            wait_list: VecDeque::new(),
            signals: SignalStore::new(),
            recv_count: 1,
            send_count: 1,
            wakes: Vec::new(),
            owners: Ghost(Seq::empty()),
        };
        assert(r.queue@ =~= Seq::<T>::empty());
        assert(r.wait_list@ =~= Seq::<DynamicSignal>::empty());
        r
    }

    /// Notes a task that is to be woken, by a clone of its waker `own`.
    fn wake(&mut self, waker: Option<Waker>, Ghost(own): Ghost<Option<Waker>>)
        requires
            old(self).parts_wf(),
            waker_cloned(own, waker),
        ensures
            final(self).parts_wf(),
            final(self).recv_blocking == old(self).recv_blocking,
            final(self)@ == (ChannelState { wakes: woken(old(self)@.wakes, own), ..old(self)@ }),
    {
        if let Some(w) = waker {
            self.wakes.push(w);
            proof {
                self.owners@ = self.owners@.push(own->0);
            }
        }
    }

    /// Takes the first sender in line.
    fn next_send(&mut self) -> (r: Option<DynamicSignal>)
        requires
            old(self).parts_wf(),
        ensures
            final(self).parts_wf(),
            old(self)@.senders.len() > 0 ==> {
                &&& r == Some(old(self)@.senders[0])
                &&& final(self)@ == (ChannelState {
                    senders: old(self)@.senders.drop_first(),
                    ..old(self)@
                })
            },
            old(self)@.senders.len() == 0 ==> r is None && final(self)@ == old(self)@,
    {
        if self.recv_blocking {
            return None;
        }
        match self.wait_list.pop_front() {
            Some(sig) => Some(sig),
            None => {
                self.recv_blocking = true;
                None
            },
        }
    }

    /// Takes the first receiver in line.
    fn next_recv(&mut self) -> (r: Option<DynamicSignal>)
        requires
            old(self).parts_wf(),
        ensures
            final(self).parts_wf(),
            old(self)@.receivers.len() > 0 ==> {
                &&& r == Some(old(self)@.receivers[0])
                &&& final(self)@ == (ChannelState {
                    receivers: old(self)@.receivers.drop_first(),
                    ..old(self)@
                })
            },
            old(self)@.receivers.len() == 0 ==> r is None && final(self)@ == old(self)@,
    {
        if !self.recv_blocking {
            return None;
        }
        match self.wait_list.pop_front() {
            Some(sig) => Some(sig),
            None => {
                self.recv_blocking = false;
                None
            },
        }
    }

    /// Sends without waiting.
    pub(crate) fn try_send(&mut self, data: T) -> (r: Result<(), SendTimeoutError<T>>)
        requires
            old(self).wf(),
        ensures
            final(self).wf(),
            (final(self)@, r) == old(self)@.try_send(data),
    {
        proof {
            old(self)@.lemma_try_send_inv(data);
        }
        if unlikely(self.recv_count == 0) {
            return Err(SendTimeoutError::Closed(data));
        }
        assert(old(self)@.receivers.len() > 0 ==> old(self)@.receiver_waits(
            old(self)@.receivers[0],
        ));
        if let Some(first) = self.next_recv() {
            let ghost own = self.signals@[first].waker;
            let waker = first.send(&mut self.signals, data);
            self.wake(waker, Ghost(own));
            return Ok(());
        }
        if self.capacity > 0 && self.queue.len() < self.capacity {
            self.queue.push_back(data);
            return Ok(());
        }
        Err(SendTimeoutError::Timeout(data))
    }

    /// Sends from the front of `elements` as long as no message has to wait.
    pub(crate) fn send_all(&mut self, elements: &mut VecDeque<T>)
        requires
            old(self).wf(),
        ensures
            final(self).wf(),
            (final(self)@, final(elements)@) == old(self)@.send_all(old(elements)@),
    {
        let ghost outcome = self@.send_all(elements@);
        loop
            invariant_except_break
                self.wf(),
                self@.send_all(elements@) == outcome,
            ensures
                self.wf(),
                (self@, elements@) == outcome,
            decreases elements@.len(),
        {
            let ghost left = elements@;
            match elements.pop_front() {
                Some(data) => {
                    assert(elements@ =~= left.drop_first());
                    match self.try_send(data) {
                        Ok(()) => {},
                        Err(SendTimeoutError::Closed(data)) => {
                            elements.push_front(data);
                            assert(elements@ =~= left);
                            break;
                        },
                        Err(SendTimeoutError::Timeout(data)) => {
                            elements.push_front(data);
                            assert(elements@ =~= left);
                            break;
                        },
                    }
                },
                None => {
                    break;
                },
            }
        }
    }

    /// Takes the message of the first sender in line.
    fn take_sender(&mut self) -> (r: Option<T>)
        requires
            old(self).parts_wf(),
            old(self)@.senders.len() > 0 ==> old(self)@.sender_waits(old(self)@.senders[0]),
        ensures
            final(self).parts_wf(),
            old(self)@.senders.len() > 0 ==> {
                &&& r == Some(old(self)@.waiting_data()[0])
                &&& final(self)@ == old(self)@.sender_taken()
            },
            old(self)@.senders.len() == 0 ==> r is None && final(self)@ == old(self)@,
    {
        match self.next_send() {
            Some(p) => {
                let ghost own = self.signals@[p].waker;
                let (data, waker) = p.recv(&mut self.signals);
                self.wake(waker, Ghost(own));
                Some(data)
            },
            None => None,
        }
    }

    /// Receives without waiting.
    pub(crate) fn try_recv(&mut self) -> (r: Result<Option<T>, ReceiveError>)
        requires
            old(self).wf(),
        ensures
            final(self).wf(),
            (final(self)@, r) == old(self)@.try_recv(),
    {
        proof {
            old(self)@.lemma_try_recv_inv();
        }
        if unlikely(self.recv_count == 0) {
            return Err(ReceiveError());
        }
        assert(old(self)@.senders.len() > 0 ==> old(self)@.sender_waits(old(self)@.senders[0]));
        if self.capacity > 0 {
            if let Some(v) = self.queue.pop_front() {
                // the room goes to the first sender in line
                if let Some(data) = self.take_sender() {
                    self.queue.push_back(data);
                }
                return Ok(Some(v));
            }
        }
        if let Some(data) = self.take_sender() {
            return Ok(Some(data));
        }
        if unlikely(self.send_count == 0) {
            return Err(ReceiveError());
        }
        Ok(None)
    }

    /// How many messages can be received at once.
    pub fn available(&self) -> (r: Option<usize>)
        requires
            self.wf(),
        ensures
            self@.pending().len() <= usize::MAX ==> r == Some(self@.pending().len() as usize),
            self@.pending().len() > usize::MAX ==> r is None,
    {
        let waiting: usize = if self.recv_blocking {
            0
        } else {
            self.wait_list.len()
        };
        self.queue.len().checked_add(waiting)
    }

    /// Receives all that can be received without waiting, oldest first, and
    /// appends it to `vec`. The result is the number of messages.
    pub(crate) fn drain_into(&mut self, vec: &mut Vec<T>) -> (r: Result<usize, ReceiveError>)
        requires
            old(self).wf(),
            old(vec)@.len() + old(self)@.pending().len() <= usize::MAX,
        ensures
            final(self).wf(),
            old(self)@.recv_count == 0 ==> {
                &&& r == Err::<usize, ReceiveError>(ReceiveError())
                &&& final(self)@ == old(self)@
                &&& final(vec)@ == old(vec)@
            },
            old(self)@.recv_count > 0 ==> {
                &&& r == Ok::<usize, ReceiveError>(old(self)@.pending().len() as usize)
                &&& final(self)@ == old(self)@.drained()
                &&& final(vec)@ == old(vec)@ + old(self)@.pending()
            },
    {
        let ghost before = self@;
        let ghost got = vec@;
        proof {
            before.lemma_drained_inv();
        }
        if unlikely(self.recv_count == 0) {
            return Err(ReceiveError());
        }
        let required_cap: usize = self.queue.len() + if self.recv_blocking {
            0
        } else {
            self.wait_list.len()
        };
        vec.reserve(required_cap);
        while self.queue.len() > 0
            invariant
                self.parts_wf(),
                self@ == (ChannelState { queue: self@.queue, ..before }),
                vec@ + self@.queue == got + before.queue,
            decreases self.queue@.len(),
        {
            let ghost queue = self@.queue;
            let ghost so_far = vec@;
            if let Some(v) = self.queue.pop_front() {
                vec.push(v);
                assert(vec@ + self@.queue =~= so_far + queue);
            }
        }
        assert(self@.queue =~= Seq::<T>::empty());
        assert(vec@ =~= got + before.queue);
        let ghost line = before.senders;
        let ghost data = before.waiting_data();
        let ghost mut n: int = 0;
        proof {
            assert(line.take(0) =~= Seq::<DynamicSignal>::empty());
            assert(self@.signals =~= changed_signals(
                before.signals,
                line.take(0),
                |v: SignalView<T>| v.taken(),
            ));
            assert(self@.wakes =~= before.wakes + before.wakers_of(line.take(0)));
            assert(vec@ =~= got + before.queue + data.take(0));
            assert(self@.senders =~= line.skip(0));
        }
        loop
            invariant
                before.inv(),
                line == before.senders,
                data == before.waiting_data(),
                0 <= n <= line.len(),
                self.parts_wf(),
                self@ == (ChannelState {
                    queue: Seq::empty(),
                    senders: line.skip(n),
                    signals: changed_signals(
                        before.signals,
                        line.take(n),
                        |v: SignalView<T>| v.taken(),
                    ),
                    wakes: before.wakes + before.wakers_of(line.take(n)),
                    ..before
                }),
                vec@ == got + before.queue + data.take(n),
            ensures
                n == line.len(),
            decreases line.len() - n,
        {
            let ghost now = self@;
            proof {
                if n < line.len() {
                    let p = line[n];
                    assert(line.skip(n)[0] == p);
                    assert(before.sender_waits(before.senders[n]));
                    assert(!line.take(n).contains(p));
                    assert(now.signals[p] == before.signals[p]);
                    assert(now.sender_waits(now.senders[0]));
                }
            }
            match self.take_sender() {
                Some(v) => {
                    vec.push(v);
                    proof {
                        let p = line[n];
                        let m = n + 1;
                        assert(line.take(m) =~= line.take(n).push(p));
                        assert(line.skip(n).drop_first() =~= line.skip(m));
                        assert forall|q: DynamicSignal| line.take(m).contains(q) <==> line.take(
                            n,
                        ).contains(q) || q == p by {
                            if line.take(n).contains(q) {
                                let j = line.take(n).index_of(q);
                                assert(line.take(m)[j] == q);
                            }
                            if q == p {
                                assert(line.take(m)[n] == p);
                            }
                        }
                        assert(self@.signals =~= changed_signals(
                            before.signals,
                            line.take(m),
                            |v: SignalView<T>| v.taken(),
                        ));
                        assert(self@.wakes =~= before.wakes + before.wakers_of(line.take(m)));
                        assert(vec@ =~= got + before.queue + data.take(m));
                        n = m;
                    }
                },
                None => {
                    break;
                },
            }
        }
        proof {
            assert(line.take(n) =~= line);
            assert(data.take(n) =~= data);
            assert(self@ =~= before.drained());
            assert(vec@ =~= got + before.pending());
        }
        Ok(required_cap)
    }

    /// Ends every wait without a message changing hands.
    fn terminate_signals(&mut self)
        requires
            old(self).wf(),
        ensures
            final(self).wf(),
            final(self)@ == old(self)@.terminated(),
    {
        let ghost before = self@;
        let ghost line = self.wait_list@;
        let ghost mut n: int = 0;
        proof {
            before.lemma_terminated_inv();
            assert(before.waiting() =~= line);
            assert(line.take(0) =~= Seq::<DynamicSignal>::empty());
            assert(self.signals@ =~= changed_signals(
                before.signals,
                line.take(0),
                |v: SignalView<T>| v.terminated(),
            ));
            assert(self.owners@ =~= before.wakes + before.wakers_of(line.take(0)));
            assert(line.skip(0) =~= line);
        }
        loop
            invariant
                before.inv(),
                line == before.waiting(),
                line == if self.recv_blocking {
                    before.receivers
                } else {
                    before.senders
                },
                0 <= n <= line.len(),
                self.parts_wf(),
                self.capacity == before.capacity,
                self.queue@ == before.queue,
                self.send_count == before.send_count,
                self.recv_count == before.recv_count,
                self.wait_list@ == line.skip(n),
                self.signals@ == changed_signals(
                    before.signals,
                    line.take(n),
                    |v: SignalView<T>| v.terminated(),
                ),
                self.owners@ == before.wakes + before.wakers_of(line.take(n)),
            ensures
                n == line.len(),
            decreases line.len() - n,
        {
            match self.wait_list.pop_front() {
                Some(t) => {
                    proof {
                        assert(t == line[n]);
                        if self.recv_blocking {
                            assert(before.receiver_waits(before.receivers[n]));
                        } else {
                            assert(before.sender_waits(before.senders[n]));
                        }
                        assert(!line.take(n).contains(t));
                    }
                    let ghost own = self.signals@[t].waker;
                    let waker = t.terminate(&mut self.signals);
                    self.wake(waker, Ghost(own));
                    proof {
                        let m = n + 1;
                        assert(line.take(m) =~= line.take(n).push(t));
                        assert(self.wait_list@ =~= line.skip(m));
                        assert forall|q: DynamicSignal| line.take(m).contains(q) <==> line.take(
                            n,
                        ).contains(q) || q == t by {
                            if line.take(n).contains(q) {
                                let j = line.take(n).index_of(q);
                                assert(line.take(m)[j] == q);
                            }
                            if q == t {
                                assert(line.take(m)[n] == t);
                            }
                        }
                        assert(self.signals@ =~= changed_signals(
                            before.signals,
                            line.take(m),
                            |v: SignalView<T>| v.terminated(),
                        ));
                        assert(self.owners@ =~= before.wakes + before.wakers_of(line.take(m)));
                        n = m;
                    }
                },
                None => {
                    break;
                },
            }
        }
        proof {
            assert(line.take(n) =~= line);
            assert(self@ =~= before.terminated());
        }
    }

    /// Closes the channel on both sides and ends every wait.
    pub(crate) fn close(&mut self) -> (r: Result<(), CloseError>)
        requires
            old(self).wf(),
        ensures
            final(self).wf(),
            (final(self)@, r) == old(self)@.close(),
    {
        proof {
            old(self)@.lemma_close_inv();
        }
        if unlikely(self.recv_count == 0 && self.send_count == 0) {
            return Err(CloseError());
        }
        self.terminate_signals();
        self.recv_count = 0;
        self.send_count = 0;
        self.queue.clear();
        Ok(())
    }

    /// Counts one more sender, unless there are none left.
    pub(crate) fn clone_send(&mut self)
        requires
            old(self).wf(),
            old(self)@.send_count < u32::MAX,
        ensures
            final(self).wf(),
            final(self)@ == old(self)@.sender_cloned(),
    {
        proof {
            old(self)@.lemma_count_inv();
        }
        if self.send_count > 0 {
            self.send_count = self.send_count + 1;
        }
    }

    /// Counts one more receiver, unless there are none left.
    pub(crate) fn clone_recv(&mut self)
        requires
            old(self).wf(),
            old(self)@.recv_count < u32::MAX,
        ensures
            final(self).wf(),
            final(self)@ == old(self)@.receiver_cloned(),
    {
        proof {
            old(self)@.lemma_count_inv();
        }
        if self.recv_count > 0 {
            self.recv_count = self.recv_count + 1;
        }
    }

    /// Counts one sender less. The last one ends every wait.
    pub(crate) fn drop_send(&mut self)
        requires
            old(self).wf(),
        ensures
            final(self).wf(),
            final(self)@ == old(self)@.sender_dropped(),
    {
        proof {
            old(self)@.lemma_count_inv();
        }
        if self.send_count == 1 {
            self.terminate_signals();
        }
        if self.send_count > 0 {
            self.send_count = self.send_count - 1;
        }
    }

    /// Counts one receiver less. The last one ends every wait.
    pub(crate) fn drop_recv(&mut self)
        requires
            old(self).wf(),
        ensures
            final(self).wf(),
            final(self)@ == old(self)@.receiver_dropped(),
    {
        proof {
            old(self)@.lemma_count_inv();
        }
        if self.recv_count == 1 {
            self.terminate_signals();
        }
        if self.recv_count > 0 {
            self.recv_count = self.recv_count - 1;
        }
    }

    /// Puts a sender in line. The result is the reference to its signal.
    pub(crate) fn push_send(&mut self, sig: AsyncSignal<T>) -> (r: DynamicSignal)
        requires
            old(self).wf(),
            sig@.of_sender(),
            sig@.state == FutureState::Pending,
            !old(self)@.accepts(),
            old(self)@.send_count > 0,
            old(self)@.recv_count > 0,
        ensures
            final(self).wf(),
            !old(self)@.signals.dom().contains(r),
            final(self)@ == old(self)@.sender_waiting(r, sig@.data->0, sig@.waker->0),
    {
        let ghost view = sig@;
        let p = self.signals.insert(sig);
        self.recv_blocking = false;
        self.wait_list.push_back(p);
        proof {
            old(self)@.lemma_sender_waiting_inv(p, view.data->0, view.waker->0);
            assert(self@ =~= old(self)@.sender_waiting(p, view.data->0, view.waker->0));
        }
        p
    }

    /// Puts a receiver in line. The result is the reference to its signal.
    pub(crate) fn push_recv(&mut self, sig: AsyncSignal<T>) -> (r: DynamicSignal)
        requires
            old(self).wf(),
            sig@.of_receiver(),
            sig@.state == FutureState::Pending,
            old(self)@.pending().len() == 0,
            old(self)@.send_count > 0,
            old(self)@.recv_count > 0,
        ensures
            final(self).wf(),
            !old(self)@.signals.dom().contains(r),
            final(self)@ == old(self)@.receiver_waiting(r, sig@.waker->0),
    {
        let ghost view = sig@;
        let p = self.signals.insert(sig);
        self.recv_blocking = true;
        self.wait_list.push_back(p);
        proof {
            old(self)@.lemma_receiver_waiting_inv(p, view.waker->0);
            assert(self@ =~= old(self)@.receiver_waiting(p, view.waker->0));
        }
        p
    }

    /// Where in line a signal is.
    fn position(&self, ptr: DynamicSignal) -> (r: Option<usize>)
        requires
            self.wait_list@.no_duplicates(),
        ensures
            r is None ==> !self.wait_list@.contains(ptr),
            r matches Some(i) ==> {
                &&& self.wait_list@.contains(ptr)
                &&& i == self.wait_list@.index_of(ptr)
                &&& i < self.wait_list@.len()
            },
    {
        let mut i: usize = 0;
        while i < self.wait_list.len()
            invariant
                i <= self.wait_list@.len(),
                self.wait_list@.no_duplicates(),
                forall|k: int| 0 <= k < i ==> self.wait_list@[k] != ptr,
            decreases self.wait_list@.len() - i,
        {
            let other: DynamicSignal = self.wait_list[i];
            if other.eq_ptr(ptr.as_tagged_ptr()) {
                broadcast use crate::signal::lemma_one_reference_per_address;

                assert(self.wait_list@[i as int] == ptr);
                return Some(i);
            }
            i = i + 1;
        }
        None
    }

    /// Takes a sender out of line and drops its waker. The result says whether
    /// it was in line.
    fn cancel_send_signal(&mut self, ptr: DynamicSignal) -> (r: bool)
        requires
            old(self).wf(),
        ensures
            r == old(self)@.senders.contains(ptr),
            final(self).parts_wf(),
            final(self)@ == (ChannelState {
                senders: without(old(self)@.senders, ptr),
                signals: if r {
                    old(self)@.signals.insert(
                        ptr,
                        (SignalView { waker: None, ..old(self)@.signals[ptr] }),
                    )
                } else {
                    old(self)@.signals
                },
                ..old(self)@
            }),
    {
        if self.recv_blocking {
            assert(self@.senders =~= Seq::<DynamicSignal>::empty());
            return false;
        }
        match self.position(ptr) {
            Some(i) => {
                assert(old(self)@.sender_waits(old(self)@.senders[i as int]));
                let _ = self.wait_list.remove(i);
                ptr.cancel(&mut self.signals);
                true
            },
            None => false,
        }
    }

    /// Takes a receiver out of line and drops its waker. The result says
    /// whether it was in line.
    fn cancel_recv_signal(&mut self, ptr: DynamicSignal) -> (r: bool)
        requires
            old(self).wf(),
        ensures
            r == old(self)@.receivers.contains(ptr),
            final(self).parts_wf(),
            final(self)@ == (ChannelState {
                receivers: without(old(self)@.receivers, ptr),
                signals: if r {
                    old(self)@.signals.insert(
                        ptr,
                        (SignalView { waker: None, ..old(self)@.signals[ptr] }),
                    )
                } else {
                    old(self)@.signals
                },
                ..old(self)@
            }),
    {
        if !self.recv_blocking {
            assert(self@.receivers =~= Seq::<DynamicSignal>::empty());
            return false;
        }
        match self.position(ptr) {
            Some(i) => {
                assert(old(self)@.receiver_waits(old(self)@.receivers[i as int]));
                let _ = self.wait_list.remove(i);
                ptr.cancel(&mut self.signals);
                true
            },
            None => false,
        }
    }

    /// Gives up a sender's signal, in line or not, and takes it back.
    pub(crate) fn release_send(&mut self, ptr: DynamicSignal) -> (r: AsyncSignal<T>)
        requires
            old(self).wf(),
            old(self)@.signals.dom().contains(ptr),
            old(self)@.signals[ptr].of_sender(),
        ensures
            final(self).wf(),
            final(self)@ == old(self)@.released(ptr),
            r@.state == old(self)@.signals[ptr].state,
            r@.data == old(self)@.signals[ptr].data,
    {
        let _ = self.cancel_send_signal(ptr);
        proof {
            old(self)@.lemma_released_inv(ptr);
            old(self)@.lemma_not_in_line(ptr);
        }
        let sig = self.signals.remove(ptr);
        assert(self@ =~= old(self)@.released(ptr));
        sig
    }

    /// Gives up a receiver's signal, in line or not, and takes it back.
    pub(crate) fn release_recv(&mut self, ptr: DynamicSignal) -> (r: AsyncSignal<T>)
        requires
            old(self).wf(),
            old(self)@.signals.dom().contains(ptr),
            old(self)@.signals[ptr].of_receiver(),
        ensures
            final(self).wf(),
            final(self)@ == old(self)@.released(ptr),
            r@.state == old(self)@.signals[ptr].state,
            r@.data == old(self)@.signals[ptr].data,
    {
        let _ = self.cancel_recv_signal(ptr);
        proof {
            old(self)@.lemma_released_inv(ptr);
            old(self)@.lemma_not_in_line(ptr);
        }
        let sig = self.signals.remove(ptr);
        assert(self@ =~= old(self)@.released(ptr));
        sig
    }

    /// How far the wait of a shared signal has come.
    pub(crate) fn signal_state(&self, ptr: DynamicSignal) -> (r: FutureState)
        requires
            self.wf(),
            self@.signals.dom().contains(ptr),
        ensures
            r == self@.signals[ptr].state,
    {
        ptr.resolve(&self.signals).state()
    }

    /// Puts another waker in a shared signal.
    pub(crate) fn update_waker(&mut self, ptr: DynamicSignal, waker: Waker)
        requires
            old(self).wf(),
            old(self)@.signals.dom().contains(ptr),
        ensures
            final(self).wf(),
            final(self)@ == old(self)@.waker_updated(ptr, waker),
    {
        proof {
            old(self)@.lemma_waker_updated_inv(ptr, waker);
        }
        self.signals.get_mut(ptr).update_waker(waker);
    }

    /// Puts the waker of the latest poll in a shared signal, unless the one
    /// that is there wakes the same task.
    pub fn replace_waker(&mut self, ptr: DynamicSignal, waker: Waker, same_task: bool)
        requires
            old(self).wf(),
            old(self)@.signals.dom().contains(ptr),
        ensures
            final(self).wf(),
            same_task ==> final(self)@ == old(self)@,
            !same_task ==> final(self)@ == old(self)@.waker_updated(ptr, waker),
    {
        if !same_task {
            self.update_waker(ptr, waker);
        }
    }

    /// Looks whether the waker in a shared signal is known to wake the same task
    /// as that of the latest poll, and otherwise replaces it. A signal without a
    /// waker gets that of the poll.
    pub(crate) fn refresh_waker(&mut self, ptr: DynamicSignal, waker: Waker)
        requires
            old(self).wf(),
            old(self)@.signals.dom().contains(ptr),
        ensures
            final(self).wf(),
            keeps_waiting(old(self)@, final(self)@, ptr, waker),
    {
        let same_task = ptr.resolve(&self.signals).will_wake(&waker);
        self.replace_waker(ptr, waker, same_task);
    }

    /// Hands out clones of the wakers of the tasks that are to be woken, in
    /// order.
    pub fn take_wakes(&mut self) -> (r: Vec<Waker>)
        requires
            old(self).wf(),
        ensures
            final(self).wf(),
            are_clones(old(self)@.wakes, r@),
            final(self)@ == old(self)@.wakes_taken(),
    {
        let mut wakes: Vec<Waker> = Vec::new();
        core::mem::swap(&mut self.wakes, &mut wakes);
        proof {
            self.owners@ = Seq::empty();
        }
        wakes
    }

    /// How many messages the queue may hold.
    pub fn capacity(&self) -> (r: usize)
        ensures
            r == self@.capacity,
    {
        self.capacity
    }

    /// How many messages the queue holds.
    pub fn len(&self) -> (r: usize)
        ensures
            r == self@.queue.len(),
    {
        self.queue.len()
    }

    /// How many senders are alive.
    pub fn send_count(&self) -> (r: u32)
        ensures
            r == self@.send_count,
    {
        self.send_count
    }

    /// How many receivers are alive.
    pub fn recv_count(&self) -> (r: u32)
        ensures
            r == self@.recv_count,
    {
        self.recv_count
    }
}

} // verus!
