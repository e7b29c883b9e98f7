use futures::stream::StreamExt;
use futures_core::stream::{FusedStream, Stream};
use kanal::error::{CloseError, ReceiveError, SendError};
use kanal::future::{Poll as Polled, ReceiveFuture, ReceiveStream, SendFuture, SendManyFuture};
use kanal::internal::ChannelInternal;
use kanal::{bounded_async, unbounded_async, AsyncReceiver, AsyncSender};
use std::cell::RefCell;
use std::collections::VecDeque;
use std::fmt::Debug;
use std::future::Future;
use std::pin::Pin;
use std::rc::Rc;
use std::sync::atomic::{AtomicUsize, Ordering};
use std::sync::Arc;
use std::task::{Context, Poll};
use std::time::Duration;
use tokio::runtime::{Builder, Runtime};
use tokio::task::{spawn_local, LocalSet};

const MESSAGES: usize = 100_000;
const THREADS: usize = 8;

/// The state of a channel, shared by the tasks of one thread.
type State<T> = Rc<RefCell<ChannelInternal<T>>>;

/// Does something with the state and then wakes those who are to be woken.
fn with<T, R>(state: &State<T>, f: impl FnOnce(&mut ChannelInternal<T>) -> R) -> R {
    let mut internal = state.borrow_mut();
    let r = f(&mut internal);
    let wakes = internal.take_wakes();
    drop(internal);
    for waker in wakes {
        waker.wake();
    }
    r
}

fn turn<R>(r: Polled<R>) -> Poll<R> {
    match r {
        Polled::Ready(r) => Poll::Ready(r),
        Polled::Pending => Poll::Pending,
    }
}

struct Tx<T> {
    handle: Option<AsyncSender<T>>,
    state: State<T>,
}

impl<T> Tx<T> {
    fn send(&self, data: T) -> Sending<'_, T> {
        Sending {
            future: self.handle.as_ref().map(|h| h.send(data)),
            state: &self.state,
        }
    }

    fn send_many<'a, 'b>(&'a self, elements: &'b mut VecDeque<T>) -> SendingMany<'a, 'b, T> {
        SendingMany {
            future: self.handle.as_ref().map(|h| h.send_many(elements)),
            state: &self.state,
        }
    }

    fn close(&self) -> Result<(), CloseError> {
        let handle = self.handle.as_ref().unwrap();
        with(&self.state, |internal| handle.close(internal))
    }
}

impl<T> Clone for Tx<T> {
    fn clone(&self) -> Self {
        let handle = self.handle.as_ref().unwrap();
        Tx {
            handle: Some(with(&self.state, |internal| handle.clone(internal))),
            state: self.state.clone(),
        }
    }
}

impl<T> Drop for Tx<T> {
    fn drop(&mut self) {
        if let Some(handle) = self.handle.take() {
            with(&self.state, |internal| handle.drop(internal));
        }
    }
}

struct Rx<T> {
    handle: Option<AsyncReceiver<T>>,
    state: State<T>,
}

impl<T> Rx<T> {
    fn recv(&self) -> Receiving<'_, T> {
        Receiving {
            future: self.handle.as_ref().map(|h| h.recv()),
            state: &self.state,
        }
    }

    fn stream(&self) -> Streaming<'_, T> {
        Streaming {
            stream: self.handle.as_ref().map(|h| h.stream()),
            state: &self.state,
        }
    }

    fn close(&self) -> Result<(), CloseError> {
        let handle = self.handle.as_ref().unwrap();
        with(&self.state, |internal| handle.close(internal))
    }
}

impl<T> Clone for Rx<T> {
    fn clone(&self) -> Self {
        let handle = self.handle.as_ref().unwrap();
        Rx {
            handle: Some(with(&self.state, |internal| handle.clone(internal))),
            state: self.state.clone(),
        }
    }
}

impl<T> Drop for Rx<T> {
    fn drop(&mut self) {
        if let Some(handle) = self.handle.take() {
            with(&self.state, |internal| handle.drop(internal));
        }
    }
}

struct Sending<'a, T> {
    future: Option<SendFuture<'a, T>>,
    state: &'a State<T>,
}

impl<T> Unpin for Sending<'_, T> {}

impl<T> Future for Sending<'_, T> {
    type Output = Result<(), SendError<T>>;

    fn poll(self: Pin<&mut Self>, cx: &mut Context<'_>) -> Poll<Self::Output> {
        let this = self.get_mut();
        let future = this.future.as_mut().unwrap();
        let waker = cx.waker().clone();
        turn(with(this.state, |internal| future.poll(internal, waker)))
    }
}

impl<T> Drop for Sending<'_, T> {
    fn drop(&mut self) {
        if let Some(future) = self.future.take() {
            with(self.state, |internal| future.drop(internal));
        }
    }
}

struct SendingMany<'a, 'b, T> {
    future: Option<SendManyFuture<'a, 'b, T>>,
    state: &'a State<T>,
}

impl<T> Unpin for SendingMany<'_, '_, T> {}

impl<T> Future for SendingMany<'_, '_, T> {
    type Output = Result<(), SendError<T>>;

    fn poll(self: Pin<&mut Self>, cx: &mut Context<'_>) -> Poll<Self::Output> {
        let this = self.get_mut();
        let future = this.future.as_mut().unwrap();
        let waker = cx.waker().clone();
        turn(with(this.state, |internal| future.poll(internal, waker)))
    }
}

impl<T> Drop for SendingMany<'_, '_, T> {
    fn drop(&mut self) {
        if let Some(future) = self.future.take() {
            with(self.state, |internal| future.drop(internal));
        }
    }
}

struct Receiving<'a, T> {
    future: Option<ReceiveFuture<'a, T>>,
    state: &'a State<T>,
}

impl<T> Unpin for Receiving<'_, T> {}

impl<T> Future for Receiving<'_, T> {
    type Output = Result<T, ReceiveError>;

    fn poll(self: Pin<&mut Self>, cx: &mut Context<'_>) -> Poll<Self::Output> {
        let this = self.get_mut();
        let future = this.future.as_mut().unwrap();
        let waker = cx.waker().clone();
        turn(with(this.state, |internal| future.poll(internal, waker)))
    }
}

impl<T> Drop for Receiving<'_, T> {
    fn drop(&mut self) {
        if let Some(future) = self.future.take() {
            with(self.state, |internal| future.drop(internal));
        }
    }
}

struct Streaming<'a, T> {
    stream: Option<ReceiveStream<'a, T>>,
    state: &'a State<T>,
}

impl<T> Unpin for Streaming<'_, T> {}

impl<T> Stream for Streaming<'_, T> {
    type Item = T;

    fn poll_next(self: Pin<&mut Self>, cx: &mut Context<'_>) -> Poll<Option<T>> {
        let this = self.get_mut();
        let stream = this.stream.as_mut().unwrap();
        let waker = cx.waker().clone();
        turn(with(this.state, |internal| stream.poll_next(internal, waker)))
    }
}

impl<T> FusedStream for Streaming<'_, T> {
    fn is_terminated(&self) -> bool {
        self.stream.as_ref().unwrap().is_terminated()
    }
}

impl<T> Drop for Streaming<'_, T> {
    fn drop(&mut self) {
        if let Some(stream) = self.stream.take() {
            with(self.state, |internal| stream.drop(internal));
        }
    }
}

fn new<T>(cap: Option<usize>) -> (Tx<T>, Rx<T>) {
    let (sender, receiver, internal) = match cap {
        None => unbounded_async(),
        Some(cap) => bounded_async(cap),
    };
    let state = Rc::new(RefCell::new(internal));
    (
        Tx {
            handle: Some(sender),
            state: state.clone(),
        },
        Rx {
            handle: Some(receiver),
            state,
        },
    )
}

fn runtime() -> Runtime {
    Builder::new_current_thread().enable_all().build().unwrap()
}

/// Counts how often a value of it is dropped.
struct DropTester {
    counter: Arc<AtomicUsize>,
    #[allow(dead_code)]
    data: usize,
}

impl DropTester {
    fn new(counter: Arc<AtomicUsize>, data: usize) -> Self {
        DropTester { counter, data }
    }
}

impl Drop for DropTester {
    fn drop(&mut self) {
        self.counter.fetch_add(1, Ordering::SeqCst);
    }
}

#[derive(Debug, Clone, Copy, PartialEq, Eq)]
struct Padded {
    a: bool,
    b: u8,
    c: u32,
}

#[derive(Debug, Clone, Copy, PartialEq, Eq)]
struct PaddedReprC {
    a: bool,
    b: u8,
    c: u32,
}

fn mpmc_dyn<T: 'static>(make: impl Fn() -> T + Clone + 'static, cap: Option<usize>) {
    let (tx, rx) = new(cap);
    let rt = runtime();
    let set = LocalSet::new();
    set.block_on(&rt, async move {
        let mut list = Vec::new();
        for _ in 0..THREADS {
            let tx = tx.clone();
            let make = make.clone();
            let h = spawn_local(async move {
                for _i in 0..MESSAGES / THREADS {
                    assert!(tx.send(make()).await.is_ok());
                }
            });
            list.push(h);
        }

        for _ in 0..THREADS {
            let rx = rx.clone();
            let h = spawn_local(async move {
                for _i in 0..MESSAGES / THREADS {
                    assert!(rx.recv().await.is_ok());
                }
            });
            list.push(h);
        }

        for h in list {
            h.await.unwrap();
        }
    });
}

fn integrity_test<T: Clone + PartialEq + Debug + 'static>(zero: T, ones: T) {
    let rt = runtime();
    let set = LocalSet::new();
    set.block_on(&rt, async move {
        for cap in [Some(0), Some(1), None] {
            let (tx, rx) = new(cap);
            let (z, o) = (zero.clone(), ones.clone());
            spawn_local(async move {
                for _ in 0..MESSAGES {
                    tx.send(z.clone()).await.unwrap();
                    tx.send(o.clone()).await.unwrap();
                }
            });
            for _ in 0..MESSAGES {
                assert_eq!(rx.recv().await.unwrap(), zero);
                assert_eq!(rx.recv().await.unwrap(), ones);
            }
        }
    });
}

fn mpsc(cap: Option<usize>) {
    let rt = runtime();
    let set = LocalSet::new();
    set.block_on(&rt, async move {
        let (tx, rx) = new(cap);
        let mut list = Vec::new();

        for _ in 0..THREADS {
            let tx = tx.clone();
            let h = spawn_local(async move {
                for _i in 0..MESSAGES / THREADS {
                    tx.send(Box::new(1)).await.unwrap();
                }
            });
            list.push(h);
        }

        for _ in 0..MESSAGES {
            assert_eq!(rx.recv().await.unwrap(), Box::new(1));
        }

        for h in list {
            h.await.unwrap();
        }
    });
}

fn seq(cap: Option<usize>) {
    runtime().block_on(async move {
        let (tx, rx) = new(cap);

        for _i in 0..MESSAGES {
            tx.send(Box::new(1)).await.unwrap();
        }

        for _ in 0..MESSAGES {
            assert_eq!(rx.recv().await.unwrap(), Box::new(1));
        }
    });
}

fn spsc(cap: Option<usize>) {
    let rt = runtime();
    let set = LocalSet::new();
    set.block_on(&rt, async move {
        let (tx, rx) = new(cap);

        spawn_local(async move {
            for _i in 0..MESSAGES {
                tx.send(Box::new(1)).await.unwrap();
            }
        });

        for _ in 0..MESSAGES {
            assert_eq!(rx.recv().await.unwrap(), Box::new(1));
        }
    });
}

fn mpmc(cap: Option<usize>) {
    let rt = runtime();
    let set = LocalSet::new();
    set.block_on(&rt, async move {
        let (tx, rx) = new(cap);
        let mut list = Vec::new();
        for _ in 0..THREADS {
            let tx = tx.clone();
            let h = spawn_local(async move {
                for _i in 0..MESSAGES / THREADS {
                    tx.send(Box::new(1)).await.unwrap();
                }
            });
            list.push(h);
        }

        for _ in 0..THREADS {
            let rx = rx.clone();
            let h = spawn_local(async move {
                for _i in 0..MESSAGES / THREADS {
                    assert_eq!(rx.recv().await.unwrap(), Box::new(1));
                }
            });
            list.push(h);
        }

        for h in list {
            h.await.unwrap();
        }
    });
}

#[test]
fn integrity_u8() {
    integrity_test(0u8, !0u8);
}

#[test]
fn integrity_u16() {
    integrity_test(0u16, !0u16);
}

#[test]
fn integrity_u32() {
    integrity_test(0u32, !0u32);
}

#[test]
fn integrity_usize() {
    integrity_test(0u64, !0u64);
}

#[test]
fn integrity_big() {
    integrity_test((0u64, 0u64, 0u64, 0u64), (!0u64, !0u64, !0u64, !0u64));
}

#[test]
fn integrity_string() {
    integrity_test("", "not empty");
}

#[test]
fn integrity_padded_rust() {
    integrity_test(
        Padded {
            a: false,
            b: 0x0,
            c: 0x0,
        },
        Padded {
            a: true,
            b: 0xFF,
            c: 0xFFFFFFFF,
        },
    );
}

#[test]
fn integrity_padded_c() {
    integrity_test(
        PaddedReprC {
            a: false,
            b: 0x0,
            c: 0x0,
        },
        PaddedReprC {
            a: true,
            b: 0xFF,
            c: 0xFFFFFFFF,
        },
    );
}

#[test]
fn drop_test() {
    let counter = Arc::new(AtomicUsize::new(0));
    let counter2 = counter.clone();
    mpmc_dyn(move || DropTester::new(counter2.clone(), 10), Some(1));
    assert_eq!(counter.load(Ordering::SeqCst), MESSAGES);
}

#[test]
fn drop_test_in_signal() {
    let (s, r) = new(Some(10));

    let rt = runtime();
    let set = LocalSet::new();
    set.block_on(&rt, async move {
        let counter = Arc::new(AtomicUsize::new(0));
        let mut list = Vec::new();
        for _ in 0..10 {
            let counter = counter.clone();
            let s = s.clone();
            let c = spawn_local(async move {
                let _ = s.send(DropTester::new(counter, 1234)).await;
            });
            list.push(c);
        }
        r.close().unwrap();
        for c in list {
            c.await.unwrap();
        }
        assert_eq!(counter.load(Ordering::SeqCst), 10_usize);
    })
}

#[test]
fn recv_from_half_closed_queue() {
    runtime().block_on(async {
        let (tx, rx) = new(Some(1));
        tx.send(Box::new(1)).await.unwrap();
        drop(tx);
        // it's ok to receive data from queue of half closed channel
        assert_eq!(rx.recv().await.unwrap(), Box::new(1));
    });
}

#[test]
fn recv_from_half_closed_channel() {
    runtime().block_on(async {
        let (tx, rx) = new::<u64>(Some(1));
        drop(tx);
        assert_eq!(rx.recv().await.err().unwrap(), ReceiveError());
    });
}

#[test]
fn recv_from_closed_channel() {
    runtime().block_on(async {
        let (tx, rx) = new::<u64>(Some(1));
        tx.close().unwrap();
        assert_eq!(rx.recv().await.err().unwrap(), ReceiveError());
    });
}

#[test]
fn recv_from_closed_channel_queue() {
    runtime().block_on(async {
        let (tx, rx) = new(Some(1));
        tx.send(Box::new(1)).await.unwrap();
        tx.close().unwrap();
        // it's not possible to read data from queue of fully closed channel
        assert_eq!(rx.recv().await.err().unwrap(), ReceiveError());
    });
}

#[test]
fn send_to_half_closed_channel() {
    runtime().block_on(async {
        let (tx, rx) = new(Some(1));
        drop(rx);
        assert!(matches!(tx.send(Box::new(1)).await.err().unwrap(), SendError(_)));
    });
}

#[test]
fn send_to_closed_channel() {
    runtime().block_on(async {
        let (tx, rx) = new(Some(1));
        rx.close().unwrap();
        assert!(matches!(tx.send(Box::new(1)).await.err().unwrap(), SendError(_)));
    });
}

#[test]
fn recv_abort_test() {
    let rt = runtime();
    let set = LocalSet::new();
    set.block_on(&rt, async move {
        let (_s, r) = new::<DropTester>(Some(10));

        let mut list = Vec::new();
        for _ in 0..10 {
            let r = r.clone();
            let c = spawn_local(async move {
                if r.recv().await.is_ok() {
                    panic!("should not be ok");
                }
            });
            list.push(c);
        }
        tokio::time::sleep(Duration::from_millis(500)).await;
        for c in list {
            c.abort();
        }
        r.close().unwrap();
    });
}

#[test]
fn send_abort_test() {
    let rt = runtime();
    let set = LocalSet::new();
    set.block_on(&rt, async move {
        let (s, r) = new::<DropTester>(Some(0));
        let counter = Arc::new(AtomicUsize::new(0));
        let mut list = Vec::new();
        for _ in 0..10 {
            let s = s.clone();
            let counter = counter.clone();
            let c = spawn_local(async move {
                if s.send(DropTester::new(counter, 1234)).await.is_ok() {
                    panic!("should not be ok");
                }
            });
            list.push(c);
        }
        tokio::time::sleep(Duration::from_millis(500)).await;
        for c in list {
            c.abort();
        }
        tokio::time::sleep(Duration::from_millis(500)).await;
        assert_eq!(counter.load(Ordering::SeqCst), 10_usize);
        r.close().unwrap();
    });
}

#[test]
fn drop_test_in_queue() {
    let rt = runtime();
    let set = LocalSet::new();
    set.block_on(&rt, async move {
        let (s, r) = new(Some(10));

        let counter = Arc::new(AtomicUsize::new(0));
        let mut list = Vec::new();
        for _ in 0..10 {
            let counter = counter.clone();
            let s = s.clone();
            let c = spawn_local(async move {
                let _ = s.send(DropTester::new(counter, 1234)).await;
            });
            list.push(c);
        }
        for c in list {
            c.await.unwrap();
        }
        r.close().unwrap();
        assert_eq!(counter.load(Ordering::SeqCst), 10_usize);
    })
}

#[test]
fn drop_test_in_unused_send_signal() {
    runtime().block_on(async {
        let (s, r) = new(Some(10));

        let counter = Arc::new(AtomicUsize::new(0));
        for _ in 0..10 {
            let counter = counter.clone();
            drop(s.send(DropTester::new(counter, 1234)));
        }
        r.close().unwrap();
        assert_eq!(counter.load(Ordering::SeqCst), 10);
    });
}

#[test]
fn drop_test_in_unused_recv_signal() {
    runtime().block_on(async {
        let (s, r) = new::<usize>(Some(10));

        for _ in 0..10 {
            drop(r.recv());
        }
        s.close().unwrap();
    });
}

#[test]
fn drop_test_send_to_closed() {
    runtime().block_on(async {
        let (s, r) = new(Some(10));
        r.close().unwrap();
        let counter = Arc::new(AtomicUsize::new(0));
        for _ in 0..10 {
            let counter = counter.clone();
            let _ = s.send(DropTester::new(counter, 1234)).await;
        }
        assert_eq!(counter.load(Ordering::SeqCst), 10_usize);
    });
}

#[test]
fn drop_test_send_to_half_closed() {
    runtime().block_on(async {
        let (s, r) = new(Some(10));
        drop(r);
        let counter = Arc::new(AtomicUsize::new(0));
        for _ in 0..10 {
            let counter = counter.clone();
            let _ = s.send(DropTester::new(counter, 1234)).await;
        }
        assert_eq!(counter.load(Ordering::SeqCst), 10_usize);
    });
}

#[test]
fn vec_test() {
    mpmc_dyn(|| vec![1, 2, 3], Some(1));
}

fn send_many(channel_size: Option<usize>) {
    let rt = runtime();
    let set = LocalSet::new();
    set.block_on(&rt, async move {
        let (s, r) = new(channel_size);
        spawn_local(async move {
            let mut msgs = (0..MESSAGES).collect::<VecDeque<usize>>();
            s.send_many(&mut msgs).await.unwrap();
        });
        for i in 0..MESSAGES {
            assert_eq!(r.recv().await.unwrap(), i);
        }
    });
}

#[test]
fn send_many_0() {
    send_many(Some(0));
}

#[test]
fn send_many_1() {
    send_many(Some(1));
}

#[test]
fn send_many_u() {
    send_many(None);
}

#[test]
fn one_msg() {
    runtime().block_on(async {
        let (s, r) = new::<u8>(Some(1));
        s.send(0).await.unwrap();
        assert_eq!(r.recv().await.unwrap(), 0);
    });
}

#[test]
fn two_msg_0() {
    two_msg(0);
}

#[test]
fn two_msg_1() {
    two_msg(1);
}

#[test]
fn two_msg_2() {
    two_msg(2);
}

#[test]
fn mpsc_0() {
    mpsc(Some(0));
}

#[test]
fn mpsc_n() {
    mpsc(Some(MESSAGES));
}

#[test]
fn mpsc_u() {
    mpsc(None);
}

#[test]
fn mpmc_0() {
    mpmc(Some(0));
}

#[test]
fn mpmc_n() {
    mpmc(Some(MESSAGES));
}

#[test]
fn mpmc_u() {
    mpmc(None);
}

#[test]
fn spsc_0() {
    spsc(Some(0));
}

#[test]
fn spsc_1() {
    spsc(Some(1));
}

#[test]
fn spsc_n() {
    spsc(Some(MESSAGES));
}

#[test]
fn spsc_u() {
    spsc(None);
}

#[test]
fn seq_n() {
    seq(Some(MESSAGES));
}

#[test]
fn seq_u() {
    seq(None);
}

#[test]
fn stream() {
    let rt = runtime();
    let set = LocalSet::new();
    set.block_on(&rt, async move {
        let (s, r) = new(Some(0));
        spawn_local(async move {
            for i in 0..MESSAGES {
                s.send(i).await.unwrap();
            }
        });
        let mut stream = r.stream();

        assert!(!stream.is_terminated());
        for i in 0..MESSAGES {
            assert_eq!(stream.next().await.unwrap(), i);
        }
        assert_eq!(stream.next().await, None);
        assert!(stream.is_terminated());
        assert_eq!(stream.next().await, None);
    });
}

fn two_msg(size: usize) {
    let rt = runtime();
    let set = LocalSet::new();
    set.block_on(&rt, async move {
        let (s, r) = new::<u8>(Some(size));
        spawn_local(async move {
            s.send(0).await.unwrap();
            s.send(1).await.unwrap();
        });
        assert_eq!(r.recv().await.unwrap(), 0);
        assert_eq!(r.recv().await.unwrap(), 1);
    });
}

#[test]
fn spsc_zero_sized() {
    let rt = runtime();
    let set = LocalSet::new();
    set.block_on(&rt, async move {
        let (tx, rx) = new(Some(0));

        spawn_local(async move {
            for _i in 0..MESSAGES {
                tx.send(()).await.unwrap();
            }
        });

        for _ in 0..MESSAGES {
            rx.recv().await.unwrap();
        }
    });
}
