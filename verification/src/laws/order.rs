//! Messages come out in the order in which they went in.

use crate::laws::steps::{
    law_step_keeps_invariant, run, run_accepted, run_enabled, run_handed, run_keeps, Step,
};
use crate::state::ChannelState;
use vstd::prelude::*;

verus! {

/// What follows the message of the first sender in line after it was taken.
proof fn lemma_taken_data<T>(s: ChannelState<T>)
    requires
        s.inv(),
        s.senders.len() > 0,
    ensures
        s.sender_taken().waiting_data() == s.waiting_data().drop_first(),
{
    let next = s.sender_taken();
    assert forall|i: int| 0 <= i < next.senders.len() implies #[trigger] next.waiting_data()[i]
        == s.waiting_data().drop_first()[i] by {
        assert(next.senders[i] == s.senders[i + 1]);
        assert(s.senders[i + 1] != s.senders[0]);
    }
    assert(next.waiting_data() =~= s.waiting_data().drop_first());
}

/// No message is lost, doubled or overtaken in a step: the messages that were
/// pending, followed by those that came in, are those that receivers got,
/// followed by those that are pending now.
pub proof fn law_step_keeps_order<T>(s: ChannelState<T>, step: Step<T>)
    requires
        s.inv(),
        step.enabled(s),
        !step.discards(s),
    ensures
        s.pending() + step.accepted(s) == step.handed(s) + step.apply(s).pending(),
{
    let next = step.apply(s);
    match step {
        Step::TrySend(data) => {
            if s.accepts() {
                assert(s.senders.len() == 0);
                assert(s.waiting_data() =~= Seq::<T>::empty());
                assert(next.waiting_data() =~= Seq::<T>::empty());
                if s.receivers.len() > 0 {
                    assert(s.queue =~= Seq::<T>::empty());
                }
            }
            assert(s.pending() + step.accepted(s) =~= step.handed(s) + next.pending());
        },
        Step::TryRecv => {
            if s.recv_count > 0 && s.senders.len() > 0 {
                lemma_taken_data(s);
                let taken = s.sender_taken();
                assert(next.waiting_data() =~= taken.waiting_data());
                assert(s.waiting_data() =~= seq![s.waiting_data()[0]]
                    + s.waiting_data().drop_first());
            } else {
                assert(next.waiting_data() =~= s.waiting_data());
            }
            assert(s.pending() + step.accepted(s) =~= step.handed(s) + next.pending());
        },
        Step::Drain => {
            assert(next.waiting_data() =~= Seq::<T>::empty());
            assert(s.pending() + step.accepted(s) =~= step.handed(s) + next.pending());
        },
        Step::SenderWaits(p, data, waker) => {
            assert forall|i: int| 0 <= i < s.senders.len() implies s.senders[i] != p by {
                assert(s.sender_waits(s.senders[i]));
            }
            assert(next.waiting_data() =~= s.waiting_data().push(data));
            assert(s.pending() + step.accepted(s) =~= step.handed(s) + next.pending());
        },
        Step::Release(p) => {
            assert forall|i: int| 0 <= i < s.senders.len() implies s.senders[i] != p by {
                assert(s.senders.contains(s.senders[i]));
            }
            assert(next.waiting_data() =~= s.waiting_data());
            assert(s.pending() + step.accepted(s) =~= step.handed(s) + next.pending());
        },
        _ => {
            assert forall|i: int| 0 <= i < s.senders.len() implies s.sender_waits(
                #[trigger] s.senders[i],
            ) by {}
            assert(next.waiting_data() =~= s.waiting_data());
            assert(s.pending() + step.accepted(s) =~= step.handed(s) + next.pending());
        },
    }
}

/// Whatever is done with a channel, as long as nothing is discarded, receivers
/// get the messages in the order in which they were sent, each once: those that
/// receivers got, followed by those that are pending, are those that were
/// pending before, followed by those that were sent.
pub proof fn law_first_in_first_out<T>(s: ChannelState<T>, steps: Seq<Step<T>>)
    requires
        s.inv(),
        run_enabled(s, steps),
        run_keeps(s, steps),
    ensures
        run(s, steps).inv(),
        s.pending() + run_accepted(s, steps) == run_handed(s, steps) + run(s, steps).pending(),
    decreases steps.len(),
{
    if steps.len() == 0 {
        assert(s.pending() + run_accepted(s, steps) =~= run_handed(s, steps) + run(
            s,
            steps,
        ).pending());
    } else {
        let before = steps.drop_last();
        let mid = run(s, before);
        let step = steps.last();
        law_first_in_first_out(s, before);
        law_step_keeps_invariant(mid, step);
        law_step_keeps_order(mid, step);
        let next = step.apply(mid);
        assert(s.pending() + (run_accepted(s, before) + step.accepted(mid)) =~= (s.pending()
            + run_accepted(s, before)) + step.accepted(mid));
        assert((run_handed(s, before) + mid.pending()) + step.accepted(mid) =~= run_handed(
            s,
            before,
        ) + (mid.pending() + step.accepted(mid)));
        assert(run_handed(s, before) + (step.handed(mid) + next.pending()) =~= (run_handed(
            s,
            before,
        ) + step.handed(mid)) + next.pending());
    }
}

/// The items of `a` occur in `b`, in the same order, at the places `at`.
pub open spec fn occurs_at<T>(a: Seq<T>, b: Seq<T>, at: Seq<int>) -> bool {
    &&& at.len() == a.len()
    &&& forall|i: int| 0 <= i < at.len() ==> 0 <= #[trigger] at[i] < b.len() && a[i] == b[at[i]]
    &&& forall|i: int, j: int| 0 <= i < j < at.len() ==> #[trigger] at[i] < #[trigger] at[j]
}

/// `a` is `b` with some items left out.
pub open spec fn is_part_of<T>(a: Seq<T>, b: Seq<T>) -> bool {
    exists|at: Seq<int>| occurs_at(a, b, at)
}

proof fn lemma_part_of_itself<T>(a: Seq<T>)
    ensures
        is_part_of(a, a),
{
    assert(occurs_at(a, a, Seq::new(a.len(), |i: int| i)));
}

proof fn lemma_part_of_part<T>(a: Seq<T>, b: Seq<T>, c: Seq<T>)
    requires
        is_part_of(a, b),
        is_part_of(b, c),
    ensures
        is_part_of(a, c),
{
    let ab = choose|at: Seq<int>| occurs_at(a, b, at);
    let bc = choose|at: Seq<int>| occurs_at(b, c, at);
    let at = Seq::new(a.len(), |i: int| bc[ab[i]]);
    assert forall|i: int| 0 <= i < at.len() implies 0 <= #[trigger] at[i] < c.len() && a[i]
        == c[at[i]] by {
        assert(0 <= ab[i] < b.len());
    }
    assert forall|i: int, j: int| 0 <= i < j < at.len() implies #[trigger] at[i]
        < #[trigger] at[j] by {
        assert(0 <= ab[i] < ab[j] < b.len());
    }
    assert(occurs_at(a, c, at));
}

proof fn lemma_parts_joined<T>(a: Seq<T>, b: Seq<T>, c: Seq<T>, d: Seq<T>)
    requires
        is_part_of(a, b),
        is_part_of(c, d),
    ensures
        is_part_of(a + c, b + d),
{
    let ab = choose|at: Seq<int>| occurs_at(a, b, at);
    let cd = choose|at: Seq<int>| occurs_at(c, d, at);
    let at = Seq::new(
        (a.len() + c.len()) as nat,
        |i: int|
            if i < a.len() {
                ab[i]
            } else {
                b.len() + cd[i - a.len()]
            },
    );
    assert forall|i: int| 0 <= i < at.len() implies 0 <= #[trigger] at[i] < (b + d).len() && (a
        + c)[i] == (b + d)[at[i]] by {
        if i < a.len() {
            assert(0 <= ab[i] < b.len());
        } else {
            assert(0 <= cd[i - a.len()] < d.len());
        }
    }
    assert forall|i: int, j: int| 0 <= i < j < at.len() implies #[trigger] at[i]
        < #[trigger] at[j] by {
        if i < a.len() {
            assert(0 <= ab[i] < b.len());
            if j < a.len() {
                assert(ab[i] < ab[j]);
            } else {
                assert(0 <= cd[j - a.len()]);
            }
        } else {
            assert(cd[i - a.len()] < cd[j - a.len()]);
        }
    }
    assert(occurs_at(a + c, b + d, at));
}

/// A step that discards messages only leaves some out: it brings in none, hands
/// none out, and keeps the order of those that are left.
pub proof fn law_discarding_keeps_order<T>(s: ChannelState<T>, step: Step<T>)
    requires
        s.inv(),
        step.enabled(s),
        step.discards(s),
    ensures
        step.accepted(s).len() == 0,
        step.handed(s).len() == 0,
        is_part_of(step.apply(s).pending(), s.pending()),
{
    let next = step.apply(s);
    match step {
        Step::Release(p) => {
            let k = s.senders.index_of(p);
            assert(next.senders == s.senders.remove(k));
            assert forall|i: int| 0 <= i < s.senders.len() && i != k implies #[trigger] s.senders[i]
                != p by {
                assert(s.senders[k] == p);
            }
            let at = Seq::new(
                (s.pending().len() - 1) as nat,
                |i: int|
                    if i < s.queue.len() + k {
                        i
                    } else {
                        i + 1
                    },
            );
            let now = next.pending();
            assert forall|i: int| 0 <= i < at.len() implies 0 <= #[trigger] at[i]
                < s.pending().len() && now[i] == s.pending()[at[i]] by {
                if i >= s.queue.len() {
                    let j = i - s.queue.len();
                    if j < k {
                        assert(next.senders[j] == s.senders[j]);
                    } else {
                        assert(next.senders[j] == s.senders[j + 1]);
                    }
                }
            }
            assert(occurs_at(now, s.pending(), at));
        },
        Step::Close => {
            assert(next.pending() =~= Seq::<T>::empty());
            assert(occurs_at(next.pending(), s.pending(), Seq::<int>::empty()));
        },
        _ => {
            assert(next.pending() =~= s.queue);
            assert(occurs_at(
                next.pending(),
                s.pending(),
                Seq::new(s.queue.len(), |i: int| i),
            ));
        },
    }
}

/// Whatever is done with a channel, receivers get messages in the order in
/// which they were sent, and none twice: those that receivers got, followed by
/// those that are pending, are those that were pending before, followed by
/// those that were sent, with those left out that were discarded.
pub proof fn law_never_out_of_order<T>(s: ChannelState<T>, steps: Seq<Step<T>>)
    requires
        s.inv(),
        run_enabled(s, steps),
    ensures
        run(s, steps).inv(),
        is_part_of(
            run_handed(s, steps) + run(s, steps).pending(),
            s.pending() + run_accepted(s, steps),
        ),
    decreases steps.len(),
{
    if steps.len() == 0 {
        assert(run_handed(s, steps) + run(s, steps).pending() =~= s.pending() + run_accepted(
            s,
            steps,
        ));
        lemma_part_of_itself(s.pending() + run_accepted(s, steps));
    } else {
        let before = steps.drop_last();
        let mid = run(s, before);
        let step = steps.last();
        let next = step.apply(mid);
        law_never_out_of_order(s, before);
        law_step_keeps_invariant(mid, step);
        let sent = s.pending() + run_accepted(s, before);
        let got = run_handed(s, before);
        if step.discards(mid) {
            law_discarding_keeps_order(mid, step);
            lemma_part_of_itself(got);
            lemma_parts_joined(got, got, next.pending(), mid.pending());
            lemma_part_of_part(got + next.pending(), got + mid.pending(), sent);
            assert(got + step.handed(mid) =~= got);
            assert(s.pending() + (run_accepted(s, before) + step.accepted(mid)) =~= sent);
        } else {
            law_step_keeps_order(mid, step);
            lemma_part_of_itself(step.accepted(mid));
            lemma_parts_joined(
                got + mid.pending(),
                sent,
                step.accepted(mid),
                step.accepted(mid),
            );
            assert(s.pending() + (run_accepted(s, before) + step.accepted(mid)) =~= sent
                + step.accepted(mid));
            assert((got + mid.pending()) + step.accepted(mid) =~= got + (mid.pending()
                + step.accepted(mid)));
            assert(got + (step.handed(mid) + next.pending()) =~= (got + step.handed(mid))
                + next.pending());
        }
    }
}

} // verus!
