# kanal

An asynchronous channel between any number of senders and receivers of one
thread, verified with Verus.

The queue of a channel holds a bounded or an unbounded number of messages. A
send that finds the queue full waits in line, and so does a receive that finds it
empty. With a queue for no messages at all, every message goes from a sender to
a receiver directly.

## Layout

- `src/lib.rs`: the handles `AsyncSender` and `AsyncReceiver`, and the functions
  that make a channel.
- `src/future.rs`: sends and receives that may wait, as state machines that are
  polled.
- `src/internal.rs`: the state that the handles of a channel share.
- `src/state.rs`: that state as a mathematical value, its invariant, and what
  each operation makes of it. The contracts are stated over it.
- `src/signal.rs`, `src/store.rs`: how one who waits and one who ends the wait
  exchange a message, and where what they share is kept.
- `src/backoff.rs`: the pace of a wait on the spot.
- `src/laws.rs`: what holds of a channel whatever is done with it: messages come
  out in the order in which they went in, what is sent is received, nobody waits
  without need, nobody who waits is forgotten, and what is closed stays closed.
- `app/`: the channel as tasks use it, with shared handles, awaitable futures
  and a stream.

An operation takes the state of its channel as an argument, so that its contract
can say exactly what it does to it. The tasks that are to be woken afterwards are
noted in the state, and whoever has access to it wakes them.
