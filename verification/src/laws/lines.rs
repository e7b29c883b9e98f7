//! What becomes of one signal, and of the line that it stands in.

use crate::future::{given_up, is_receiver, is_sender, FutureState, Progress};
use crate::internal::are_clones;
use crate::signal::{waker_cloned, DynamicSignal, SignalView};
use crate::state::ChannelState;
use core::task::Waker;
use vstd::prelude::*;

verus! {

/// What ends a wait sets the state, gives or takes the message, and leaves the
/// waker where it is.
pub proof fn law_what_ends_a_wait<T>(sig: SignalView<T>, data: T, waker: Waker)
    ensures
        sig.given(data).state == FutureState::Success,
        sig.given(data).data == Some(data),
        sig.given(data).waker == sig.waker,
        sig.taken().state == FutureState::Success,
        sig.taken().data is None,
        sig.taken().waker == sig.waker,
        sig.terminated().state == FutureState::Failure,
        sig.terminated().data == sig.data,
        sig.terminated().waker == sig.waker,
        sig.with_waker(waker).state == sig.state,
        sig.with_waker(waker).data == sig.data,
        sig.with_waker(waker).waker == Some(waker),
{
}

/// The signal of a sender has its message until it is taken, that of a receiver
/// has one once it was given, and each waits with a waker.
pub proof fn law_kinds_of_signals<T>(sig: SignalView<T>)
    ensures
        sig.of_sender() <==> {
            ||| sig.state == FutureState::Pending && sig.data is Some && sig.waker is Some
            ||| sig.state == FutureState::Success && sig.data is None
            ||| sig.state == FutureState::Failure && sig.data is Some
        },
        sig.of_receiver() <==> {
            ||| sig.state == FutureState::Pending && sig.data is None && sig.waker is Some
            ||| sig.state == FutureState::Success && sig.data is Some
            ||| sig.state == FutureState::Failure && sig.data is None
        },
        !(sig.of_sender() && sig.of_receiver()),
{
}

/// A future that has not come to share a signal does not concern the channel;
/// one that has names a signal of its own kind there.
pub proof fn law_whose_signal_it_is<T>(progress: Progress<()>, s: ChannelState<T>)
    ensures
        is_sender(progress, s) <==> {
            ||| progress !is Shared
            ||| s.signals.dom().contains(progress->Shared_0)
                && s.signals[progress->Shared_0].of_sender()
        },
        is_receiver(progress, s) <==> {
            ||| progress !is Shared
            ||| s.signals.dom().contains(progress->Shared_0)
                && s.signals[progress->Shared_0].of_receiver()
        },
{
}

/// The same of a send, which holds its message before it is polled.
pub proof fn law_whose_signal_a_send_has<T>(progress: Progress<T>, s: ChannelState<T>)
    ensures
        is_sender(progress, s) <==> {
            ||| progress !is Shared
            ||| s.signals.dom().contains(progress->Shared_0)
                && s.signals[progress->Shared_0].of_sender()
        },
{
}

/// Who is given up while in line leaves it, and the others keep their order. Its
/// signal is gone, with its message. Nobody is woken, and nothing else changes.
pub proof fn law_who_is_given_up_leaves_the_line<T>(s: ChannelState<T>, p: DynamicSignal, i: int)
    requires
        s.inv(),
    ensures
        0 <= i < s.senders.len() && s.senders[i] == p ==> s.released(p) == (ChannelState {
            senders: s.senders.subrange(0, i) + s.senders.subrange(i + 1, s.senders.len() as int),
            signals: s.signals.remove(p),
            ..s
        }),
        0 <= i < s.receivers.len() && s.receivers[i] == p ==> s.released(p) == (ChannelState {
            receivers: s.receivers.subrange(0, i) + s.receivers.subrange(
                i + 1,
                s.receivers.len() as int,
            ),
            signals: s.signals.remove(p),
            ..s
        }),
        !s.senders.contains(p) && !s.receivers.contains(p) ==> s.released(p) == (ChannelState {
            signals: s.signals.remove(p),
            ..s
        }),
{
    if 0 <= i < s.senders.len() && s.senders[i] == p {
        assert(s.senders.contains(p));
        assert(s.senders.index_of(p) == i);
        assert(s.senders.remove(i) =~= s.senders.subrange(0, i) + s.senders.subrange(
            i + 1,
            s.senders.len() as int,
        ));
        assert(!s.receivers.contains(p));
    }
    if 0 <= i < s.receivers.len() && s.receivers[i] == p {
        assert(s.receivers.contains(p));
        assert(s.receivers.index_of(p) == i);
        assert(s.receivers.remove(i) =~= s.receivers.subrange(0, i) + s.receivers.subrange(
            i + 1,
            s.receivers.len() as int,
        ));
        assert(!s.senders.contains(p));
    }
}

/// A future that is given up gives up its signal if it has one, and else leaves
/// the channel alone.
pub proof fn law_giving_a_future_up<T>(
    s: ChannelState<T>,
    p: DynamicSignal,
    sending: Progress<T>,
    receiving: Progress<()>,
)
    ensures
        sending == Progress::<T>::Shared(p) ==> given_up(sending, s) == s.released(p),
        receiving == Progress::<()>::Shared(p) ==> given_up(receiving, s) == s.released(p),
        sending !is Shared ==> given_up(sending, s) == s,
        receiving !is Shared ==> given_up(receiving, s) == s,
{
}

/// Who gets in line stands at its end, with a signal that waits, and nothing
/// else changes.
pub proof fn law_who_waits_stands_at_the_end<T>(
    s: ChannelState<T>,
    p: DynamicSignal,
    data: T,
    waker: Waker,
)
    ensures
        s.sender_waiting(p, data, waker) == (ChannelState {
            senders: s.senders + seq![p],
            signals: s.signals.insert(
                p,
                SignalView {
                    state: FutureState::Pending,
                    data: Some(data),
                    waker: Some(waker),
                },
            ),
            ..s
        }),
        s.receiver_waiting(p, waker) == (ChannelState {
            receivers: s.receivers + seq![p],
            signals: s.signals.insert(
                p,
                SignalView { state: FutureState::Pending, data: None, waker: Some(waker) },
            ),
            ..s
        }),
        s.waker_updated(p, waker) == (ChannelState {
            signals: s.signals.insert(
                p,
                SignalView {
                    state: s.signals[p].state,
                    data: s.signals[p].data,
                    waker: Some(waker),
                },
            ),
            ..s
        }),
{
    assert(s.senders.push(p) =~= s.senders + seq![p]);
    assert(s.receivers.push(p) =~= s.receivers + seq![p]);
}

/// Whoever is to be woken is woken by what `Waker::clone` made of its waker, and
/// without a waker nobody is.
pub proof fn law_clones_are_woken(
    own: Option<Waker>,
    clone: Option<Waker>,
    wakers: Seq<Waker>,
    clones: Seq<Waker>,
)
    ensures
        waker_cloned(own, clone) ==> {
            &&& own is Some <==> clone is Some
            &&& own is Some ==> call_ensures(Waker::clone, (&own->0,), clone->0)
        },
        are_clones(wakers, clones) ==> {
            &&& clones.len() == wakers.len()
            &&& forall|i: int|
                0 <= i < clones.len() ==> call_ensures(
                    Waker::clone,
                    (&wakers[i],),
                    #[trigger] clones[i],
                )
        },
{
}

} // verus!
