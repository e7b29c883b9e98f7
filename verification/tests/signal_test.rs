use kanal::backoff::{WaitAction, WaitSchedule};
use kanal::future::FutureState;
use kanal::signal::{
    no_op_waker, AsyncSignal, DynamicSignal, DONE, LOCKED, LOCKED_STARVATION, TERMINATED, UNINIT,
    UNLOCKED,
};
use kanal::store::SignalStore;
use std::sync::atomic::{AtomicUsize, Ordering};
use std::sync::Arc;
use std::task::{Wake, Waker};

/// Counts how often it was woken.
struct Bell(AtomicUsize);

impl Wake for Bell {
    fn wake(self: Arc<Self>) {
        self.0.fetch_add(1, Ordering::SeqCst);
    }
}

fn bell() -> Arc<Bell> {
    Arc::new(Bell(AtomicUsize::new(0)))
}

const STATES: [(FutureState, usize); 5] = [
    (FutureState::Success, UNLOCKED),
    (FutureState::Unregistered, UNINIT),
    (FutureState::Pending, LOCKED),
    (FutureState::Failure, TERMINATED),
    (FutureState::Done, DONE),
];

#[test]
fn state_numbers() {
    assert_eq!(UNINIT, 0);
    assert_eq!(LOCKED, 1);
    assert_eq!(LOCKED_STARVATION, 2);
    assert_eq!(TERMINATED, !0 - 1);
    assert_eq!(UNLOCKED, !0);
    assert_eq!(DONE, usize::MAX / 2);
}

#[test]
fn states_and_numbers_round_trip() {
    for (state, code) in STATES {
        assert_eq!(AsyncSignal::<u8>::state_to_usize(state), code);
        assert_eq!(AsyncSignal::<u8>::usize_to_state(code), state);
    }
    assert_eq!(
        AsyncSignal::<u8>::usize_to_state(LOCKED_STARVATION),
        FutureState::Done
    );
    assert_eq!(AsyncSignal::<u8>::usize_to_state(77), FutureState::Done);
}

#[test]
fn states_can_be_set() {
    let mut signal = AsyncSignal::<u8>::new_recv();
    assert_eq!(signal.state(), FutureState::Unregistered);
    for (state, _) in STATES {
        signal.set_state(state);
        assert_eq!(signal.state(), state);
    }
    for (state, _) in STATES {
        signal.set_state_relaxed(state);
        assert_eq!(signal.state(), state);
    }
}

#[test]
fn compare_exchange_of_every_pair_of_states() {
    for (held, _) in STATES {
        for (current, _) in STATES {
            for (new, _) in STATES {
                let mut signal = AsyncSignal::<u8>::new_recv();
                signal.set_state(held);
                let r = signal.compare_exchange_future_state(current, new);
                if held == current {
                    assert_eq!(r, Ok(new));
                    assert_eq!(signal.state(), new);
                } else {
                    assert_eq!(r, Err(held));
                    assert_eq!(signal.state(), held);
                }
            }
        }
    }
}

#[test]
fn a_sender_signal_through_its_life() {
    let b = bell();
    let waker = Waker::from(b.clone());
    let mut signal = AsyncSignal::new_send(5);
    assert_eq!(signal.state(), FutureState::Unregistered);
    assert!(signal.clone_waker().is_none());
    let data = signal.assume_init();
    signal.reset_send(data);
    signal.update_waker(waker.clone());
    assert_eq!(signal.state(), FutureState::Pending);
    let (data, clone) = signal.read_data();
    assert_eq!(data, 5);
    assert_eq!(signal.state(), FutureState::Success);
    clone.unwrap().wake();
    assert_eq!(b.0.load(Ordering::SeqCst), 1);
    assert!(signal.will_wake(&waker));
    signal.reset_send(6);
    assert_eq!(signal.state(), FutureState::Pending);
    let clone = signal.terminate();
    assert_eq!(signal.state(), FutureState::Failure);
    clone.unwrap().wake();
    assert_eq!(b.0.load(Ordering::SeqCst), 2);
    assert!(signal.will_wake(&waker));
    assert_eq!(signal.assume_init(), 6);
}

#[test]
fn a_receiver_signal_through_its_life() {
    let b = bell();
    let waker = Waker::from(b.clone());
    let mut signal = AsyncSignal::new_recv();
    signal.update_waker(waker.clone());
    signal.set_state(FutureState::Pending);
    let clone = signal.write_data(8);
    assert_eq!(signal.state(), FutureState::Success);
    clone.unwrap().wake();
    assert_eq!(b.0.load(Ordering::SeqCst), 1);
    assert!(signal.will_wake(&waker));
    signal.clone_waker().unwrap().wake();
    assert_eq!(b.0.load(Ordering::SeqCst), 2);
    assert_eq!(signal.assume_init(), 8);
}

#[test]
fn finished_signals() {
    let mut signal = AsyncSignal::<u8>::new_send_finished();
    assert_eq!(signal.state(), FutureState::Success);
    signal.reset_send(3);
    signal.drop_data();
    assert_eq!(signal.state(), FutureState::Pending);
}

#[test]
fn wakers_are_told_apart() {
    let (a, b) = (bell(), bell());
    let mut signal = AsyncSignal::<u8>::new_recv();
    assert!(no_op_waker().is_none());
    assert!(!signal.will_wake(&Waker::from(a.clone())));
    signal.update_waker(Waker::from(a.clone()));
    assert!(!signal.will_wake(&Waker::from(b.clone())));
    signal.cancel();
    assert!(!signal.will_wake(&Waker::from(a.clone())));
    assert!(signal.clone_waker().is_none());
    assert_eq!(a.0.load(Ordering::SeqCst), 0);
}

#[test]
fn a_waker_is_known_again() {
    let waker = Waker::from(bell());
    let mut signal = AsyncSignal::<u8>::new_recv();
    signal.update_waker(waker.clone());
    assert!(signal.will_wake(&waker));
}

#[test]
fn waiting_on_the_spot() {
    let mut signal = AsyncSignal::<u8>::new_recv();
    let mut schedule = WaitSchedule::new();
    signal.set_state(FutureState::Pending);
    for _ in 0..32 {
        assert_eq!(signal.blocking_wait(&mut schedule), WaitAction::YieldOs);
    }
    for nanos in [
        1024, 2048, 4096, 8192, 16384, 32768, 65536, 131072, 262144, 262144, 262144,
    ] {
        assert_eq!(
            signal.blocking_wait(&mut schedule),
            WaitAction::Sleep(nanos)
        );
    }
    signal.set_state(FutureState::Success);
    assert_eq!(
        signal.blocking_wait(&mut schedule),
        WaitAction::Finished(true)
    );
    signal.set_state(FutureState::Failure);
    assert_eq!(
        signal.blocking_wait(&mut schedule),
        WaitAction::Finished(false)
    );
    signal.set_state(FutureState::Done);
    assert_eq!(
        signal.blocking_wait(&mut schedule),
        WaitAction::Finished(false)
    );
    signal.set_state(FutureState::Pending);
    assert_eq!(
        signal.blocking_wait(&mut schedule),
        WaitAction::Sleep(262144)
    );
}

#[test]
fn references() {
    let p = DynamicSignal::new_async(3);
    assert_eq!(p.as_tagged_ptr(), 3);
    assert!(p.eq_ptr(3));
    assert!(!p.eq_ptr(4));
    assert_eq!(p, DynamicSignal::new_async(3));
}

#[test]
fn what_a_reference_does_is_seen_on_the_spot() {
    let mut store = SignalStore::new();
    let mut schedule = WaitSchedule::new();
    let given = store.insert(AsyncSignal::<u8>::new_recv());
    assert!(given.send(&mut store, 7).is_none());
    let signal = given.resolve(&store);
    assert_eq!(signal.state(), FutureState::Success);
    assert_eq!(
        signal.blocking_wait(&mut schedule),
        WaitAction::Finished(true)
    );
    assert_eq!(store.remove(given).assume_init(), 7);
    let ended = store.insert(AsyncSignal::<u8>::new_send(8));
    assert!(ended.terminate(&mut store).is_none());
    assert_eq!(
        ended.resolve(&store).blocking_wait(&mut schedule),
        WaitAction::Finished(false)
    );
}

#[test]
fn a_store_of_signals() {
    let mut store = SignalStore::new();
    let a = store.insert(AsyncSignal::new_send(1));
    let b = store.insert(AsyncSignal::new_recv());
    assert_ne!(a, b);
    assert!(b.send(&mut store, 2).is_none());
    assert_eq!(b.resolve(&store).state(), FutureState::Success);
    assert_eq!(a.resolve(&store).state(), FutureState::Unregistered);
    let (data, waker) = a.recv(&mut store);
    assert_eq!(data, 1);
    assert!(waker.is_none());
    assert_eq!(store.remove(b).assume_init(), 2);
    let c = store.insert(AsyncSignal::new_send(4));
    assert_eq!(c, b);
    c.cancel(&mut store);
    assert!(c.terminate(&mut store).is_none());
    assert_eq!(store.get(c).state(), FutureState::Failure);
    store.get_mut(c).set_state(FutureState::Done);
    assert_eq!(store.get(c).state(), FutureState::Done);
    assert_eq!(store.remove(a).state(), FutureState::Success);
}
