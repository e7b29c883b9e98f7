//! How a task that must wait on the spot paces itself: it first gives up its
//! time slice a number of times, then sleeps for longer and longer.

use vstd::prelude::*;

verus! {

/// How many times the time slice is given up before the first sleep.
pub const YIELD_ROUNDS: u32 = 32;

/// The number of rounds after which the pause no longer grows.
pub const LAST_ROUND: u32 = 40;

/// The binary logarithm of the first sleep, in nanoseconds.
pub const FIRST_SLEEP_BITS: u32 = 10;

/// What to do next while waiting.
#[derive(Debug, Clone, Copy, PartialEq, Eq, Structural)]
pub enum WaitAction {
    /// The wait is over: `true` on success, `false` on termination.
    Finished(bool),
    /// Give up the time slice, then look again.
    YieldOs,
    /// Sleep for so many nanoseconds, then look again.
    Sleep(u64),
}

/// The length of the `k`-th sleep in nanoseconds: about one microsecond at
/// first, doubled each time up to about 262 microseconds.
pub open spec fn sleep_nanos(k: nat) -> u64 {
    if k < 8 {
        1u64 << ((FIRST_SLEEP_BITS + k) as u64)
    } else {
        1u64 << 18u64
    }
}

/// The `n`-th pause of a wait, counted from zero.
pub open spec fn pause(n: nat) -> WaitAction {
    if n < YIELD_ROUNDS {
        WaitAction::YieldOs
    } else {
        WaitAction::Sleep(sleep_nanos((n - YIELD_ROUNDS) as nat))
    }
}

/// How far a wait has come.
pub struct WaitSchedule {
    round: u32,
}

impl View for WaitSchedule {
    type V = nat;

    /// The number of pauses made, up to the point from which they stay alike.
    closed spec fn view(&self) -> nat {
        self.round as nat
    }
}

impl WaitSchedule {
    /// The rounds are counted up to `LAST_ROUND` only.
    pub open spec fn wf(self) -> bool {
        self@ <= LAST_ROUND
    }

    /// A wait that has not paused yet.
    pub fn new() -> (r: WaitSchedule)
        ensures
            r.wf(),
            r@ == 0,
    {
        WaitSchedule { round: 0 }
    }

    /// The next pause. After `n` calls on a new schedule the result is
    /// `pause(n)`: see `law_pauses_in_order`.
    pub fn next(&mut self) -> (r: WaitAction)
        requires
            old(self).wf(),
        ensures
            final(self).wf(),
            r == pause(old(self)@),
            final(self)@ == next_round(old(self)@),
    {
        let round: u32 = self.round;
        if round < LAST_ROUND {
            self.round = round + 1;
        }
        if round < YIELD_ROUNDS {
            return WaitAction::YieldOs;
        }
        let k: u32 = round - YIELD_ROUNDS;
        if k < 8 {
            let bits: u64 = (FIRST_SLEEP_BITS + k) as u64;
            WaitAction::Sleep(1u64 << bits)
        } else {
            WaitAction::Sleep(1u64 << 18u64)
        }
    }
}

/// The round that follows round `n`.
pub open spec fn next_round(n: nat) -> nat {
    if n < LAST_ROUND {
        n + 1
    } else {
        n
    }
}

/// The round a new schedule is in after `n` pauses.
pub open spec fn round_after(n: nat) -> nat
    decreases n,
{
    if n == 0 {
        0
    } else {
        next_round(round_after((n - 1) as nat))
    }
}

/// The `n`-th call on a new schedule gives the `n`-th pause, for every `n`,
/// though the rounds are counted only up to a limit.
pub proof fn law_pauses_in_order(n: nat)
    ensures
        pause(round_after(n)) == pause(n),
        round_after(n) <= LAST_ROUND,
    decreases n,
{
    lemma_round_after(n);
}

proof fn lemma_round_after(n: nat)
    ensures
        round_after(n) == if n < LAST_ROUND {
            n
        } else {
            LAST_ROUND as nat
        },
    decreases n,
{
    if n > 0 {
        lemma_round_after((n - 1) as nat);
    }
}

/// Sleeps start at 1024 nanoseconds, each is as long as the one before or
/// twice as long, and none exceeds 262144 nanoseconds.
pub proof fn law_sleeps_grow_to_a_limit(k: nat)
    ensures
        sleep_nanos(0) == 1024,
        k < 8 ==> sleep_nanos(k + 1) == 2 * sleep_nanos(k),
        k >= 8 ==> sleep_nanos(k) == 262144,
        sleep_nanos(k) <= 262144,
{
    assert(1u64 << 10u64 == 1024u64) by (bit_vector);
    assert(1u64 << 18u64 == 262144u64) by (bit_vector);
    if k < 8 {
        let b: u64 = (FIRST_SLEEP_BITS + k) as u64;
        let c: u64 = (FIRST_SLEEP_BITS + k + 1) as u64;
        assert(c == b + 1);
        assert((1u64 << c) == 2 * (1u64 << b) && (1u64 << c) <= 262144u64) by (bit_vector)
            requires
                10 <= b < 18,
                c == b + 1,
        ;
    }
}

/// The pace of a wait: the first 32 pauses give up the time slice, the next one
/// sleeps for 1024 nanoseconds, each of the next eight for twice as long as the
/// one before, and all after that for 262144 nanoseconds. No pause says that the
/// wait is over.
pub proof fn law_pace_of_a_wait(n: nat)
    ensures
        n < 32 <==> pause(n) == WaitAction::YieldOs,
        n >= 32 <==> pause(n) is Sleep,
        pause(32) == WaitAction::Sleep(1024),
        32 <= n < 40 ==> pause(n + 1)->Sleep_0 == 2 * pause(n)->Sleep_0,
        n >= 40 ==> pause(n) == WaitAction::Sleep(262144),
        pause(round_after(n)) == pause(n),
        round_after(n + 1) == next_round(round_after(n)),
        round_after(0) == 0,
{
    law_pauses_in_order(n);
    law_sleeps_grow_to_a_limit(0);
    if n >= 32 {
        law_sleeps_grow_to_a_limit((n - 32) as nat);
    }
}

} // verus!
