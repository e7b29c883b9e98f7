//! Signals: how a waiting task and the task that ends its wait exchange a
//! message.

use crate::backoff::{WaitAction, WaitSchedule};
use crate::future::FutureState;
use crate::local_atomic::usize_cell_compare_exchange_local;
use crate::store::SignalStore;
use branches::likely;
use core::task::Waker;
use vstd::prelude::*;

verus! {

/// `core::task::Waker`, the handle by which a waiting task is woken. A waker
/// is only carried: it is put in with a waiting task and comes out when that
/// task is to be woken.
#[verifier::external_type_specification]
#[verifier::external_body]
pub struct ExWaker(Waker);

/// `Waker::will_wake`: whether both wakers are known to wake the same task.
/// Nothing is promised of the result: it rests on addresses, and may be false
/// for two wakers of one task. That both wake one task if it is true is left
/// unsaid, as a waker is opaque here and the task behind it has no name.
pub assume_specification[ Waker::will_wake ](waker: &Waker, other: &Waker) -> bool;

/// `Waker::clone`: another waker of the same task. Nothing is promised of the
/// result: a clone may hold other addresses than the waker, and that both wake
/// one task is left unsaid, as a waker is opaque here and the task behind it
/// has no name.
pub assume_specification[ <Waker as Clone>::clone ](waker: &Waker) -> Waker;

/// `r` is a clone of the waker, if there is one.
pub open spec fn waker_cloned(own: Option<Waker>, r: Option<Waker>) -> bool {
    match own {
        Some(own) => r matches Some(w) && call_ensures(Waker::clone, (&own,), w),
        None => r is None,
    }
}

/// The signal is not shared yet.
pub const UNINIT: usize = 0;

/// The signal is shared, and its wait has not ended.
pub const LOCKED: usize = UNINIT + 1;

/// As `LOCKED`, with a waiter that was passed over for long.
pub const LOCKED_STARVATION: usize = UNINIT + 2;

/// The wait was ended by the channel closing.
pub const TERMINATED: usize = usize::MAX - 1;

/// The wait was ended by the message changing hands.
pub const UNLOCKED: usize = usize::MAX;

/// The outcome was collected.
pub const DONE: usize = usize::MAX / 2;

/// The number that stands for a state.
pub open spec fn state_code(state: FutureState) -> usize {
    match state {
        FutureState::Success => UNLOCKED,
        FutureState::Unregistered => UNINIT,
        FutureState::Pending => LOCKED,
        FutureState::Failure => TERMINATED,
        FutureState::Done => DONE,
    }
}

/// The state that a number stands for. Numbers without a meaning of their own
/// stand for `Done`.
pub open spec fn code_state(code: usize) -> FutureState {
    if code == UNLOCKED {
        FutureState::Success
    } else if code == UNINIT {
        FutureState::Unregistered
    } else if code == LOCKED {
        FutureState::Pending
    } else if code == TERMINATED {
        FutureState::Failure
    } else {
        FutureState::Done
    }
}

/// Every state comes back from its number.
pub proof fn law_state_round_trip(state: FutureState)
    ensures
        code_state(state_code(state)) == state,
{
    lemma_codes_differ();
}

/// A number comes back from its state exactly if it is one of the numbers that
/// stand for a state.
pub proof fn law_code_round_trip(code: usize)
    ensures
        state_code(code_state(code)) == code <==> {
            ||| code == UNLOCKED
            ||| code == UNINIT
            ||| code == LOCKED
            ||| code == TERMINATED
            ||| code == DONE
        },
{
    lemma_codes_differ();
}

/// The numbers of the states. The smallest ones stand for a wait that has not
/// ended, the greatest for its end, the very greatest for success.
pub proof fn law_numbers_of_states(code: usize)
    ensures
        code_state(code) == FutureState::Unregistered <==> code == 0,
        code_state(code) == FutureState::Pending <==> code == 1,
        code_state(code) == FutureState::Failure <==> code == usize::MAX - 1,
        code_state(code) == FutureState::Success <==> code == usize::MAX,
        code_state(code) == FutureState::Done <==> 2 <= code < usize::MAX - 1,
        state_code(FutureState::Unregistered) == 0,
        state_code(FutureState::Pending) == 1,
        state_code(FutureState::Failure) == usize::MAX - 1,
        state_code(FutureState::Success) == usize::MAX,
        state_code(FutureState::Done) == usize::MAX / 2,
        LOCKED_STARVATION == 2,
        UNLOCKED == usize::MAX,
{
    lemma_codes_differ();
}

/// Different states have different numbers.
pub proof fn law_state_codes_differ(a: FutureState, b: FutureState)
    ensures
        state_code(a) == state_code(b) <==> a == b,
{
    lemma_codes_differ();
}

proof fn lemma_codes_differ()
    ensures
        UNINIT < LOCKED < LOCKED_STARVATION < DONE < TERMINATED < UNLOCKED,
{
}

/// What a signal holds.
pub struct SignalView<T> {
    /// How far the wait has come.
    pub state: FutureState,
    /// The message: of a sender until it is taken, of a receiver once it was
    /// given.
    pub data: Option<T>,
    /// The waker of the waiting task.
    pub waker: Option<Waker>,
}

impl<T> SignalView<T> {
    /// A sender or a receiver that waits.
    pub open spec fn waiting(data: Option<T>, waker: Waker) -> SignalView<T> {
        SignalView { state: FutureState::Pending, data, waker: Some(waker) }
    }

    /// The signal after a message was written to it.
    pub open spec fn given(self, data: T) -> SignalView<T> {
        SignalView { state: FutureState::Success, data: Some(data), waker: self.waker }
    }

    /// The signal after its message was read.
    pub open spec fn taken(self) -> SignalView<T> {
        SignalView { state: FutureState::Success, data: None, waker: self.waker }
    }

    /// The signal after its wait was ended without the message changing hands.
    pub open spec fn terminated(self) -> SignalView<T> {
        SignalView { state: FutureState::Failure, data: self.data, waker: self.waker }
    }

    /// The signal with another waker.
    pub open spec fn with_waker(self, waker: Waker) -> SignalView<T> {
        SignalView { state: self.state, data: self.data, waker: Some(waker) }
    }

    /// A shared signal of a sender: the message is there until it is taken.
    pub open spec fn of_sender(self) -> bool {
        match self.state {
            FutureState::Pending => self.data is Some && self.waker is Some,
            FutureState::Success => self.data is None,
            FutureState::Failure => self.data is Some,
            _ => false,
        }
    }

    /// A shared signal of a receiver: the message is there once it was given.
    pub open spec fn of_receiver(self) -> bool {
        match self.state {
            FutureState::Pending => self.data is None && self.waker is Some,
            FutureState::Success => self.data is Some,
            FutureState::Failure => self.data is None,
            _ => false,
        }
    }
}

/// A reference to a shared signal.
#[derive(Debug, Clone, Copy, PartialEq, Eq, Structural)]
pub struct DynamicSignal {
    ptr: usize,
}

impl DynamicSignal {
    /// Where the signal is kept.
    pub closed spec fn address(self) -> usize {
        self.ptr
    }

    /// The reference to the signal that is kept at `ptr`.
    pub fn new_async(ptr: usize) -> (r: DynamicSignal)
        ensures
            r.address() == ptr,
    {
        DynamicSignal { ptr }
    }

    /// Where the signal is kept.
    pub fn as_tagged_ptr(self) -> (r: usize)
        ensures
            r == self.address(),
    {
        self.ptr
    }

    /// Whether this is the reference to the signal that is kept at `ptr`.
    pub fn eq_ptr(&self, ptr: usize) -> (r: bool)
        ensures
            r == (self.address() == ptr),
    {
        self.ptr == ptr
    }

    /// The signal.
    pub fn resolve<T>(self, signals: &SignalStore<T>) -> (r: &AsyncSignal<T>)
        requires
            signals.wf(),
            signals@.dom().contains(self),
        ensures
            r@ == signals@[self],
    {
        signals.get(self)
    }

    /// Gives the waiting receiver its message. The result is a clone of
    /// the waker, to be woken.
    pub fn send<T>(self, signals: &mut SignalStore<T>, data: T) -> (r: Option<Waker>)
        requires
            old(signals).wf(),
            old(signals)@.dom().contains(self),
        ensures
            final(signals).wf(),
            waker_cloned(old(signals)@[self].waker, r),
            final(signals)@ == old(signals)@.insert(self, old(signals)@[self].given(data)),
    {
        signals.get_mut(self).write_data(data)
    }

    /// Takes the message of the waiting sender. The result is the message and
    /// a clone of the waker, to be woken.
    pub fn recv<T>(self, signals: &mut SignalStore<T>) -> (r: (T, Option<Waker>))
        requires
            old(signals).wf(),
            old(signals)@.dom().contains(self),
            old(signals)@[self].data is Some,
        ensures
            final(signals).wf(),
            Some(r.0) == old(signals)@[self].data,
            waker_cloned(old(signals)@[self].waker, r.1),
            final(signals)@ == old(signals)@.insert(self, old(signals)@[self].taken()),
    {
        signals.get_mut(self).read_data()
    }

    /// Ends the wait without the message changing hands. The result is a
    /// clone of the waker, to be woken.
    pub fn terminate<T>(self, signals: &mut SignalStore<T>) -> (r: Option<Waker>)
        requires
            old(signals).wf(),
            old(signals)@.dom().contains(self),
        ensures
            final(signals).wf(),
            waker_cloned(old(signals)@[self].waker, r),
            final(signals)@ == old(signals)@.insert(self, old(signals)@[self].terminated()),
    {
        signals.get_mut(self).terminate()
    }

    /// Drops the waker without waking.
    pub fn cancel<T>(self, signals: &mut SignalStore<T>)
        requires
            old(signals).wf(),
            old(signals)@.dom().contains(self),
        ensures
            final(signals).wf(),
            final(signals)@ == old(signals)@.insert(
                self,
                (SignalView { waker: None, ..old(signals)@[self] }),
            ),
    {
        signals.get_mut(self).cancel();
    }
}

/// References to one place are equal.
pub broadcast proof fn lemma_one_reference_per_address(a: DynamicSignal, b: DynamicSignal)
    ensures
        #[trigger] a.address() == #[trigger] b.address() ==> a == b,
{
}

/// The waker that wakes nobody.
pub fn no_op_waker() -> (r: Option<Waker>)
    ensures
        r is None,
{
    None
}

/// The state of one wait, and the message that it is about.
pub struct AsyncSignal<T> {
    state: usize,
    data: Option<T>,
    waker: Option<Waker>,
}

impl<T> View for AsyncSignal<T> {
    type V = SignalView<T>;

    closed spec fn view(&self) -> SignalView<T> {
        SignalView { state: code_state(self.state), data: self.data, waker: self.waker }
    }
}

impl<T> AsyncSignal<T> {
    /// The number that the signal holds for its state.
    pub closed spec fn code(self) -> usize {
        self.state
    }

    /// The state of a signal is the one that its number stands for.
    pub proof fn law_state_is_that_of_the_code(&self)
        ensures
            self@.state == code_state(self.code()),
    {
    }

    /// A wait on the spot is over exactly if the signal is neither yet to be
    /// shared nor waiting nor marked as passed over, and then with success
    /// exactly if the message has changed hands.
    pub proof fn law_when_a_wait_is_over(&self)
        ensures
            self@.state == FutureState::Success <==> self.code() == UNLOCKED,
            self@.state == FutureState::Success ==> self.code() > LOCKED_STARVATION,
            self@.state == FutureState::Failure ==> self.code() > LOCKED_STARVATION,
            self@.state == FutureState::Pending ==> self.code() <= LOCKED_STARVATION,
            self@.state == FutureState::Unregistered ==> self.code() <= LOCKED_STARVATION,
            self@.state == FutureState::Done && self.code() != LOCKED_STARVATION ==> self.code()
                > LOCKED_STARVATION,
    {
        law_numbers_of_states(self.code());
    }

    /// A receiver's signal, not shared yet.
    pub fn new_recv() -> (r: AsyncSignal<T>)
        ensures
            r@ == (SignalView::<T> { state: FutureState::Unregistered, data: None, waker: None }),
            r.code() == state_code(FutureState::Unregistered),
    {
        AsyncSignal {
            state: Self::state_to_usize(FutureState::Unregistered),
            data: None,
            waker: no_op_waker(),
        }
    }

    /// A sender's signal with its message, not shared yet.
    pub fn new_send(data: T) -> (r: AsyncSignal<T>)
        ensures
            r@ == (SignalView { state: FutureState::Unregistered, data: Some(data), waker: None }),
            r.code() == state_code(FutureState::Unregistered),
    {
        AsyncSignal {
            state: Self::state_to_usize(FutureState::Unregistered),
            data: Some(data),
            waker: no_op_waker(),
        }
    }

    /// Puts a message in, for a wait that is to begin. The signal must not be
    /// shared: either it never was, or its wait has ended.
    pub fn reset_send(&mut self, data: T)
        ensures
            final(self)@ == (SignalView {
                state: FutureState::Pending,
                data: Some(data),
                waker: old(self)@.waker,
            }),
            final(self).code() == state_code(FutureState::Pending),
    {
        self.data = Some(data);
        self.state = Self::state_to_usize(FutureState::Pending);
    }

    /// A sender's signal without a message, as after a successful send.
    pub fn new_send_finished() -> (r: AsyncSignal<T>)
        ensures
            r@ == (SignalView::<T> { state: FutureState::Success, data: None, waker: None }),
            r.code() == state_code(FutureState::Success),
    {
        AsyncSignal {
            state: Self::state_to_usize(FutureState::Success),
            data: None,
            waker: no_op_waker(),
        }
    }

    /// The number that stands for a state.
    pub fn state_to_usize(state: FutureState) -> (r: usize)
        ensures
            r == state_code(state),
    {
        match state {
            FutureState::Success => UNLOCKED,
            FutureState::Unregistered => UNINIT,
            FutureState::Pending => LOCKED,
            FutureState::Failure => TERMINATED,
            _ => DONE,
        }
    }

    /// The state that a number stands for.
    pub fn usize_to_state(val: usize) -> (r: FutureState)
        ensures
            r == code_state(val),
    {
        if val == UNLOCKED {
            FutureState::Success
        } else if val == UNINIT {
            FutureState::Unregistered
        } else if val == LOCKED {
            FutureState::Pending
        } else if val == TERMINATED {
            FutureState::Failure
        } else {
            FutureState::Done
        }
    }

    /// How far the wait has come.
    pub fn state(&self) -> (r: FutureState)
        ensures
            r == self@.state,
    {
        Self::usize_to_state(self.state)
    }

    /// Sets the state.
    pub fn set_state(&mut self, state: FutureState)
        ensures
            final(self)@ == (SignalView { state, ..old(self)@ }),
            final(self).code() == state_code(state),
    {
        self.state = Self::state_to_usize(state);
    }

    /// Sets the state where nobody else can look at it. The signal is borrowed
    /// for writing in either case, so this is `set_state`.
    pub fn set_state_relaxed(&mut self, state: FutureState)
        ensures
            final(self)@ == (SignalView { state, ..old(self)@ }),
            final(self).code() == state_code(state),
    {
        self.state = Self::state_to_usize(state);
    }

    /// Sets the state to `new` if it is `current`. The result is the state that
    /// the signal is in afterwards: `Ok` if it was set, `Err` if it was left.
    /// States are compared by their numbers.
    pub fn compare_exchange_future_state(
        &mut self,
        current: FutureState,
        new: FutureState,
    ) -> (r: Result<FutureState, FutureState>)
        ensures
            old(self).code() == state_code(current) ==> {
                &&& r == Ok::<FutureState, FutureState>(new)
                &&& final(self)@ == (SignalView { state: new, ..old(self)@ })
                &&& final(self).code() == state_code(new)
            },
            old(self).code() != state_code(current) ==> {
                &&& r == Err::<FutureState, FutureState>(old(self)@.state)
                &&& final(self)@ == old(self)@
                &&& final(self).code() == old(self).code()
            },
    {
        match usize_cell_compare_exchange_local(
            &mut self.state,
            Self::state_to_usize(current),
            Self::state_to_usize(new),
        ) {
            Ok(_) => Ok(new),
            Err(v) => Err(Self::usize_to_state(v)),
        }
    }

    /// Whether the signal's waker is known to wake the same task as `waker`:
    /// the result is what `Waker::will_wake` says of these two. Without a waker
    /// in the signal it is not.
    pub fn will_wake(&self, waker: &Waker) -> (r: bool)
        ensures
            self@.waker is None ==> !r,
            self@.waker matches Some(own) ==> call_ensures(Waker::will_wake, (&own, waker), r),
    {
        match &self.waker {
            Some(own) => own.will_wake(waker),
            None => false,
        }
    }

    /// Puts a waker in, in place of any that is there.
    pub fn update_waker(&mut self, waker: Waker)
        ensures
            final(self)@ == old(self)@.with_waker(waker),
            final(self).code() == old(self).code(),
    {
        self.waker = Some(waker);
    }

    /// A clone of the waker, to be woken.
    pub fn clone_waker(&self) -> (r: Option<Waker>)
        ensures
            waker_cloned(self@.waker, r),
    {
        match &self.waker {
            Some(own) => Some(own.clone()),
            None => None,
        }
    }

    /// Gives a waiting receiver its message. The result is a clone of the
    /// receiver's waker, which is now to be woken; the waker stays.
    pub fn write_data(&mut self, data: T) -> (r: Option<Waker>)
        ensures
            waker_cloned(old(self)@.waker, r),
            final(self)@ == old(self)@.given(data),
            final(self).code() == state_code(FutureState::Success),
    {
        let waker = self.clone_waker();
        self.data = Some(data);
        self.state = UNLOCKED;
        waker
    }

    /// Takes the message of a waiting sender. The result is the message and a
    /// clone of the sender's waker, which is now to be woken; the waker stays.
    pub fn read_data(&mut self) -> (r: (T, Option<Waker>))
        requires
            old(self)@.data is Some,
        ensures
            Some(r.0) == old(self)@.data,
            waker_cloned(old(self)@.waker, r.1),
            final(self)@ == old(self)@.taken(),
            final(self).code() == state_code(FutureState::Success),
    {
        let waker = self.clone_waker();
        let data = self.assume_init();
        self.state = UNLOCKED;
        (data, waker)
    }

    /// Drops the waker without waking.
    pub fn cancel(&mut self)
        ensures
            final(self)@ == (SignalView { waker: None, ..old(self)@ }),
            final(self).code() == old(self).code(),
    {
        self.waker = no_op_waker();
    }

    /// Takes the message out.
    pub fn assume_init(&mut self) -> (r: T)
        requires
            old(self)@.data is Some,
        ensures
            Some(r) == old(self)@.data,
            final(self)@ == (SignalView { data: None, ..old(self)@ }),
            final(self).code() == old(self).code(),
    {
        self.data.take().unwrap()
    }

    /// Ends the wait without the message changing hands. The result is a clone
    /// of the waker, which is now to be woken; the waker stays.
    pub fn terminate(&mut self) -> (r: Option<Waker>)
        ensures
            waker_cloned(old(self)@.waker, r),
            final(self)@ == old(self)@.terminated(),
            final(self).code() == state_code(FutureState::Failure),
    {
        let waker = self.clone_waker();
        self.state = TERMINATED;
        waker
    }

    /// Drops the message.
    pub fn drop_data(&mut self)
        ensures
            final(self)@ == (SignalView { data: None, ..old(self)@ }),
            final(self).code() == old(self).code(),
    {
        self.data = None;
    }

    /// One look of a task that waits on the spot: either the wait is over, and
    /// the result says whether the message changed hands, or the schedule says
    /// how to pause before the next look.
    pub fn blocking_wait(&self, schedule: &mut WaitSchedule) -> (r: WaitAction)
        requires
            old(schedule).wf(),
        ensures
            final(schedule).wf(),
            self.code() > LOCKED_STARVATION ==> {
                &&& r == WaitAction::Finished(self.code() == UNLOCKED)
                &&& final(schedule)@ == old(schedule)@
            },
            self.code() <= LOCKED_STARVATION ==> {
                &&& r == crate::backoff::pause(old(schedule)@)
                &&& final(schedule)@ == crate::backoff::next_round(old(schedule)@)
            },
    {
        let v: usize = self.state;
        if likely(v > LOCKED_STARVATION) {
            return WaitAction::Finished(v == UNLOCKED);
        }
        schedule.next()
    }
}

} // verus!
