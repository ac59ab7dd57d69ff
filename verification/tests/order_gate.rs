use std::cmp::Ordering as CmpOrdering;
use std::collections::VecDeque;
use std::future::Future;
use std::pin::Pin;
use std::rc::Rc;
use std::sync::atomic::{AtomicUsize, Ordering};
use std::sync::{Arc, Mutex, MutexGuard, PoisonError};
use std::task::{Context, Poll, Waker};

use futures::task::{noop_waker, ArcWake};
use futures::{Stream, StreamExt, TryStream};
use streamx::{GateStep, KeyedItem, Ordered, StreamPoll, TryGateStep, TryStreamPoll};

/// Locks, whether or not another holder panicked.
fn lock<T>(mutex: &Mutex<T>) -> MutexGuard<'_, T> {
    mutex.lock().unwrap_or_else(PoisonError::into_inner)
}

/// What a stream's poll gave, as the library takes it.
fn stream_poll<T>(poll: Poll<Option<T>>) -> StreamPoll<T> {
    match poll {
        Poll::Ready(Some(item)) => StreamPoll::Item(item),
        Poll::Ready(None) => StreamPoll::End,
        Poll::Pending => StreamPoll::Pending,
    }
}

type SharedGate<TKey> = Arc<Mutex<streamx::OrderGate<TKey, Waker>>>;

fn wake_all(wakers: Vec<Waker>) {
    for waker in wakers {
        waker.wake();
    }
}

/// Coordinates separately consumed ordered streams against one shared
/// monotonic frontier.
///
/// [`OrderGate::gate`] and [`OrderGate::try_gate`] each register an active
/// member immediately. Completing or dropping a member removes it.
struct OrderGate<TKey>
where
    TKey: Ord,
{
    shared: SharedGate<TKey>,
}

impl<TKey> OrderGate<TKey>
where
    TKey: Ord,
{
    /// Creates an empty order gate with no frontier.
    #[allow(clippy::new_without_default)]
    fn new() -> Self {
        OrderGate { shared: Arc::new(Mutex::new(streamx::OrderGate::new())) }
    }

    /// Registers an ordered stream as an active member, without polling it.
    fn gate<TStream>(&self, stream: TStream) -> OrderGatedStream<TStream, TKey>
    where
        TStream: Stream,
        TStream::Item: Ordered<Key = TKey>,
    {
        let member = {
            let mut shared = lock(&self.shared);
            assert!(shared.can_register(), "OrderGate member id overflowed");
            shared.gate()
        };
        OrderGatedStream {
            stream: Box::pin(stream),
            member,
            shared: Arc::clone(&self.shared),
        }
    }

    /// Registers a fallible ordered stream as an active member, without polling it.
    ///
    /// An observed error passes through its own wrapper immediately and leaves the
    /// member active.
    fn try_gate<TStream>(&self, stream: TStream) -> TryOrderGatedStream<TStream, TKey>
    where
        TStream: TryStream,
        TStream::Ok: Ordered<Key = TKey>,
    {
        let member = {
            let mut shared = lock(&self.shared);
            assert!(shared.can_register(), "OrderGate member id overflowed");
            shared.try_gate()
        };
        TryOrderGatedStream {
            stream: Box::pin(stream),
            member,
            shared: Arc::clone(&self.shared),
        }
    }
}

/// A stream registered through [`OrderGate::gate`].
struct OrderGatedStream<TStream, TKey>
where
    TStream: Stream,
    TStream::Item: Ordered<Key = TKey>,
    TKey: Ord,
{
    stream: Pin<Box<TStream>>,
    member: streamx::OrderGatedStream<TStream::Item>,
    shared: SharedGate<TKey>,
}

// The source is pinned independently in `Pin<Box<_>>`; no field of the outer
// stream relies on structural pinning.
impl<TStream, TKey> Unpin for OrderGatedStream<TStream, TKey>
where
    TStream: Stream,
    TStream::Item: Ordered<Key = TKey>,
    TKey: Ord,
{
}

impl<TStream, TKey> Stream for OrderGatedStream<TStream, TKey>
where
    TStream: Stream,
    TStream::Item: Ordered<Key = TKey>,
    TKey: Ord,
{
    type Item = TStream::Item;

    fn poll_next(self: Pin<&mut Self>, cx: &mut Context<'_>) -> Poll<Option<Self::Item>> {
        let this = self.get_mut();
        let mut turn = this.member.begin_poll(&mut *lock(&this.shared), cx.waker().clone());
        loop {
            // While the lock is free, keys are extracted, what was given up is dropped, and
            // tasks are woken.
            drop((turn.retired_key, turn.retired_wakers, turn.removed));
            wake_all(turn.wakes);
            match turn.step {
                GateStep::PollSource => {
                    let outcome = stream_poll(this.stream.as_mut().poll_next(cx)).keyed();
                    turn = this.member.source_polled(&mut *lock(&this.shared), outcome);
                }
                GateStep::Emit(item) => return Poll::Ready(Some(item)),
                GateStep::Pending => return Poll::Pending,
                GateStep::Finished => return Poll::Ready(None),
            }
        }
    }
}

impl<TStream, TKey> Drop for OrderGatedStream<TStream, TKey>
where
    TStream: Stream,
    TStream::Item: Ordered<Key = TKey>,
    TKey: Ord,
{
    fn drop(&mut self) {
        let (member, wakers) = self.member.leave(&mut *lock(&self.shared));
        drop(member);
        wake_all(wakers);
    }
}

/// A fallible stream registered through [`OrderGate::try_gate`].
struct TryOrderGatedStream<TStream, TKey>
where
    TStream: TryStream,
    TStream::Ok: Ordered<Key = TKey>,
    TKey: Ord,
{
    stream: Pin<Box<TStream>>,
    member: streamx::TryOrderGatedStream<TStream::Ok>,
    shared: SharedGate<TKey>,
}

// The source is pinned independently in `Pin<Box<_>>`; no field of the outer
// stream relies on structural pinning.
impl<TStream, TKey> Unpin for TryOrderGatedStream<TStream, TKey>
where
    TStream: TryStream,
    TStream::Ok: Ordered<Key = TKey>,
    TKey: Ord,
{
}

impl<TStream, TKey> Stream for TryOrderGatedStream<TStream, TKey>
where
    TStream: TryStream,
    TStream::Ok: Ordered<Key = TKey>,
    TKey: Ord,
{
    type Item = Result<TStream::Ok, TStream::Error>;

    fn poll_next(self: Pin<&mut Self>, cx: &mut Context<'_>) -> Poll<Option<Self::Item>> {
        let this = self.get_mut();
        let mut turn = this.member.begin_poll(&mut *lock(&this.shared), cx.waker().clone());
        loop {
            // While the lock is free, keys are extracted, what was given up is dropped, and
            // tasks are woken.
            drop((turn.retired_key, turn.retired_wakers, turn.removed));
            wake_all(turn.wakes);
            match turn.step {
                TryGateStep::PollSource => {
                    let outcome = match this.stream.as_mut().try_poll_next(cx) {
                        Poll::Ready(Some(Ok(item))) => TryStreamPoll::Item(item),
                        Poll::Ready(Some(Err(error))) => TryStreamPoll::Failed(error),
                        Poll::Ready(None) => TryStreamPoll::End,
                        Poll::Pending => TryStreamPoll::Pending,
                    }
                    .keyed();
                    turn = this.member.source_polled(&mut *lock(&this.shared), outcome);
                }
                TryGateStep::Emit(item) => return Poll::Ready(Some(Ok(item))),
                TryGateStep::Fail(error) => return Poll::Ready(Some(Err(error))),
                TryGateStep::Pending => return Poll::Pending,
                TryGateStep::Finished => return Poll::Ready(None),
            }
        }
    }
}

impl<TStream, TKey> Drop for TryOrderGatedStream<TStream, TKey>
where
    TStream: TryStream,
    TStream::Ok: Ordered<Key = TKey>,
    TKey: Ord,
{
    fn drop(&mut self) {
        let (member, wakers) = self.member.leave(&mut *lock(&self.shared));
        drop(member);
        wake_all(wakers);
    }
}

/// Runs a test on a runtime of its own.
fn run<F: Future>(test: F) -> F::Output {
    tokio::runtime::Builder::new_current_thread()
        .enable_time()
        .build()
        .unwrap()
        .block_on(test)
}

/// What an unbounded channel receives, as a stream.
struct MpscStream<T>(tokio::sync::mpsc::UnboundedReceiver<T>);

impl<T> Stream for MpscStream<T> {
    type Item = T;

    fn poll_next(mut self: Pin<&mut Self>, cx: &mut Context<'_>) -> Poll<Option<Self::Item>> {
        self.0.poll_recv(cx)
    }
}

#[derive(Debug, PartialEq, Eq, PartialOrd, Ord)]
struct Key(u32);

#[derive(Debug, PartialEq, Eq)]
struct Event {
    key: u32,
    id: u32,
}

impl Ordered for Event {
    type Key = Key;

    fn order_key(&self) -> Self::Key {
        Key(self.key)
    }
}

fn event(key: u32, id: u32) -> Event {
    Event { key, id }
}

#[derive(Debug, PartialEq, Eq)]
struct TestError(&'static str);



struct CountStream {
    items: VecDeque<Event>,
    polls: Arc<AtomicUsize>,
}

impl Stream for CountStream {
    type Item = Event;

    fn poll_next(mut self: Pin<&mut Self>, _cx: &mut Context<'_>) -> Poll<Option<Self::Item>> {
        self.polls.fetch_add(1, Ordering::Relaxed);
        Poll::Ready(self.items.pop_front())
    }
}

struct WakeCounter(AtomicUsize);

impl ArcWake for WakeCounter {
    fn wake_by_ref(arc_self: &Arc<Self>) {
        arc_self.0.fetch_add(1, Ordering::Relaxed);
    }
}

fn poll_next<TStream>(stream: &mut TStream, cx: &mut Context<'_>) -> Poll<Option<TStream::Item>>
where
    TStream: Stream + Unpin,
{
    Pin::new(stream).poll_next(cx)
}

#[test]
fn coordinates_members_in_nondecreasing_order() {
    let gate = OrderGate::<Key>::new();
    let mut first = gate.gate(futures::stream::iter(vec![event(1, 10), event(3, 30)]));
    let mut second = gate.gate(futures::stream::iter(vec![event(2, 20), event(4, 40)]));
    let waker = noop_waker();
    let mut cx = Context::from_waker(&waker);

    assert_eq!(poll_next(&mut first, &mut cx), Poll::Pending);
    assert_eq!(poll_next(&mut second, &mut cx), Poll::Pending);
    assert_eq!(
        poll_next(&mut first, &mut cx),
        Poll::Ready(Some(event(1, 10)))
    );

    assert_eq!(poll_next(&mut first, &mut cx), Poll::Pending);
    assert_eq!(
        poll_next(&mut second, &mut cx),
        Poll::Ready(Some(event(2, 20)))
    );

    assert_eq!(poll_next(&mut second, &mut cx), Poll::Pending);
    assert_eq!(
        poll_next(&mut first, &mut cx),
        Poll::Ready(Some(event(3, 30)))
    );

    assert_eq!(poll_next(&mut first, &mut cx), Poll::Ready(None));
    assert_eq!(
        poll_next(&mut second, &mut cx),
        Poll::Ready(Some(event(4, 40)))
    );
    assert_eq!(poll_next(&mut second, &mut cx), Poll::Ready(None));
    assert_eq!(poll_next(&mut second, &mut cx), Poll::Ready(None));
}

#[test]
fn equal_keys_use_registration_order() {
    let gate = OrderGate::<Key>::new();
    let mut first = gate.gate(futures::stream::iter(vec![event(1, 10)]));
    let mut second = gate.gate(futures::stream::iter(vec![event(1, 20)]));
    let waker = noop_waker();
    let mut cx = Context::from_waker(&waker);

    assert_eq!(poll_next(&mut first, &mut cx), Poll::Pending);
    assert_eq!(poll_next(&mut second, &mut cx), Poll::Pending);
    assert_eq!(
        poll_next(&mut first, &mut cx),
        Poll::Ready(Some(event(1, 10)))
    );

    assert_eq!(poll_next(&mut first, &mut cx), Poll::Ready(None));
    assert_eq!(
        poll_next(&mut second, &mut cx),
        Poll::Ready(Some(event(1, 20)))
    );
}

#[test]
fn construction_is_lazy_and_each_member_retains_one_head() {
    let gate = OrderGate::<Key>::new();
    let first_polls = Arc::new(AtomicUsize::new(0));
    let second_polls = Arc::new(AtomicUsize::new(0));
    let mut first = gate.gate(CountStream {
        items: VecDeque::from([event(1, 10), event(3, 30)]),
        polls: Arc::clone(&first_polls),
    });
    let mut second = gate.gate(CountStream {
        items: VecDeque::from([event(2, 20), event(4, 40)]),
        polls: Arc::clone(&second_polls),
    });
    let waker = noop_waker();
    let mut cx = Context::from_waker(&waker);

    assert_eq!(first_polls.load(Ordering::Relaxed), 0);
    assert_eq!(second_polls.load(Ordering::Relaxed), 0);

    assert_eq!(poll_next(&mut first, &mut cx), Poll::Pending);
    assert_eq!(first_polls.load(Ordering::Relaxed), 1);
    assert_eq!(poll_next(&mut first, &mut cx), Poll::Pending);
    assert_eq!(first_polls.load(Ordering::Relaxed), 1);

    assert_eq!(poll_next(&mut second, &mut cx), Poll::Pending);
    assert_eq!(second_polls.load(Ordering::Relaxed), 1);
    assert_eq!(
        poll_next(&mut first, &mut cx),
        Poll::Ready(Some(event(1, 10)))
    );
    assert_eq!(first_polls.load(Ordering::Relaxed), 1);

    assert_eq!(poll_next(&mut first, &mut cx), Poll::Pending);
    assert_eq!(first_polls.load(Ordering::Relaxed), 2);
    assert_eq!(poll_next(&mut first, &mut cx), Poll::Pending);
    assert_eq!(first_polls.load(Ordering::Relaxed), 2);
}

#[test]
fn late_member_catches_up_below_frontier_but_equal_key_joins_barrier() {
    let gate = OrderGate::<Key>::new();
    let mut early = gate.gate(futures::stream::iter(vec![event(10, 10), event(20, 20)]));
    let waker = noop_waker();
    let mut cx = Context::from_waker(&waker);

    assert_eq!(
        poll_next(&mut early, &mut cx),
        Poll::Ready(Some(event(10, 10)))
    );

    let mut late = gate.gate(futures::stream::iter(vec![
        event(5, 5),
        event(8, 8),
        event(10, 100),
        event(15, 15),
    ]));

    assert_eq!(
        poll_next(&mut late, &mut cx),
        Poll::Ready(Some(event(5, 5)))
    );
    assert_eq!(
        poll_next(&mut late, &mut cx),
        Poll::Ready(Some(event(8, 8)))
    );
    assert_eq!(poll_next(&mut late, &mut cx), Poll::Pending);

    assert_eq!(poll_next(&mut early, &mut cx), Poll::Pending);
    assert_eq!(
        poll_next(&mut late, &mut cx),
        Poll::Ready(Some(event(10, 100)))
    );
    assert_eq!(
        poll_next(&mut late, &mut cx),
        Poll::Ready(Some(event(15, 15)))
    );
    assert_eq!(poll_next(&mut late, &mut cx), Poll::Ready(None));
    assert_eq!(
        poll_next(&mut early, &mut cx),
        Poll::Ready(Some(event(20, 20)))
    );
}

#[test]
fn dynamically_registered_missing_member_blocks_frontier_advancement() {
    let gate = OrderGate::<Key>::new();
    let mut early = gate.gate(futures::stream::iter(vec![event(10, 10), event(20, 20)]));
    let waker = noop_waker();
    let mut cx = Context::from_waker(&waker);

    assert_eq!(
        poll_next(&mut early, &mut cx),
        Poll::Ready(Some(event(10, 10)))
    );

    let (_late_tx, late_rx) = tokio::sync::mpsc::unbounded_channel();
    let late = gate.gate(MpscStream::<Event>(late_rx));

    assert_eq!(poll_next(&mut early, &mut cx), Poll::Pending);
    drop(late);
    assert_eq!(
        poll_next(&mut early, &mut cx),
        Poll::Ready(Some(event(20, 20)))
    );
}

#[test]
fn frontier_survives_when_every_member_has_left() {
    let gate = OrderGate::<Key>::new();
    let mut early = gate.gate(futures::stream::iter(vec![event(10, 10)]));
    let waker = noop_waker();
    let mut cx = Context::from_waker(&waker);

    assert_eq!(
        poll_next(&mut early, &mut cx),
        Poll::Ready(Some(event(10, 10)))
    );
    assert_eq!(poll_next(&mut early, &mut cx), Poll::Ready(None));

    let mut late = gate.gate(futures::stream::iter(vec![event(5, 5)]));
    let (_pending_tx, pending_rx) = tokio::sync::mpsc::unbounded_channel();
    let _pending = gate.gate(MpscStream::<Event>(pending_rx));

    assert_eq!(
        poll_next(&mut late, &mut cx),
        Poll::Ready(Some(event(5, 5)))
    );
}

#[test]
fn completion_and_drop_remove_missing_members_and_wake_candidate() {
    {
        let gate = OrderGate::<Key>::new();
        let mut candidate = gate.gate(futures::stream::iter(vec![event(1, 10)]));
        let mut completed = gate.gate(futures::stream::empty::<Event>());
        let wakes = Arc::new(WakeCounter(AtomicUsize::new(0)));
        let waker = futures::task::waker(Arc::clone(&wakes));
        let mut cx = Context::from_waker(&waker);

        assert_eq!(poll_next(&mut candidate, &mut cx), Poll::Pending);
        assert_eq!(poll_next(&mut completed, &mut cx), Poll::Ready(None));
        assert_eq!(wakes.0.load(Ordering::Relaxed), 1);
        assert_eq!(
            poll_next(&mut candidate, &mut cx),
            Poll::Ready(Some(event(1, 10)))
        );
    }

    {
        let gate = OrderGate::<Key>::new();
        let mut candidate = gate.gate(futures::stream::iter(vec![event(1, 10)]));
        let (_pending_tx, pending_rx) = tokio::sync::mpsc::unbounded_channel();
        let pending = gate.gate(MpscStream::<Event>(pending_rx));
        let wakes = Arc::new(WakeCounter(AtomicUsize::new(0)));
        let waker = futures::task::waker(Arc::clone(&wakes));
        let mut cx = Context::from_waker(&waker);

        assert_eq!(poll_next(&mut candidate, &mut cx), Poll::Pending);
        drop(pending);
        assert_eq!(wakes.0.load(Ordering::Relaxed), 1);
        assert_eq!(
            poll_next(&mut candidate, &mut cx),
            Poll::Ready(Some(event(1, 10)))
        );
    }
}

#[test]
fn pending_member_uses_latest_downstream_waker() {
    let gate = OrderGate::<Key>::new();
    let mut first = gate.gate(futures::stream::iter(vec![event(1, 10)]));
    let mut second = gate.gate(futures::stream::iter(vec![event(2, 20)]));
    let wakes_a = Arc::new(WakeCounter(AtomicUsize::new(0)));
    let wakes_b = Arc::new(WakeCounter(AtomicUsize::new(0)));
    let waker_a = futures::task::waker(Arc::clone(&wakes_a));
    let waker_b = futures::task::waker(Arc::clone(&wakes_b));
    let mut cx_a = Context::from_waker(&waker_a);
    let mut cx_b = Context::from_waker(&waker_b);

    assert_eq!(poll_next(&mut first, &mut cx_a), Poll::Pending);
    assert_eq!(poll_next(&mut first, &mut cx_b), Poll::Pending);
    assert_eq!(poll_next(&mut second, &mut cx_a), Poll::Pending);

    assert_eq!(wakes_a.0.load(Ordering::Relaxed), 0);
    assert_eq!(wakes_b.0.load(Ordering::Relaxed), 1);
    assert_eq!(
        poll_next(&mut first, &mut cx_b),
        Poll::Ready(Some(event(1, 10)))
    );
}

#[test]
fn try_error_passes_immediately_without_releasing_retained_heads() {
    let gate = OrderGate::<Key>::new();
    let mut ordinary = gate.gate(futures::stream::iter(vec![event(2, 20)]));
    let mut fallible = gate.try_gate(futures::stream::iter(vec![
        Err(TestError("gap")),
        Ok(event(1, 10)),
    ]));
    let waker = noop_waker();
    let mut cx = Context::from_waker(&waker);

    assert_eq!(poll_next(&mut ordinary, &mut cx), Poll::Pending);
    assert_eq!(
        poll_next(&mut fallible, &mut cx),
        Poll::Ready(Some(Err(TestError("gap"))))
    );
    assert_eq!(poll_next(&mut ordinary, &mut cx), Poll::Pending);
    assert_eq!(
        poll_next(&mut fallible, &mut cx),
        Poll::Ready(Some(Ok(event(1, 10))))
    );
    assert_eq!(poll_next(&mut fallible, &mut cx), Poll::Ready(None));
    assert_eq!(
        poll_next(&mut ordinary, &mut cx),
        Poll::Ready(Some(event(2, 20)))
    );
}

#[test]
fn try_error_and_success_below_frontier_both_pass_immediately() {
    let gate = OrderGate::<Key>::new();
    let mut early = gate.gate(futures::stream::iter(vec![event(10, 10), event(20, 20)]));
    let waker = noop_waker();
    let mut cx = Context::from_waker(&waker);

    assert_eq!(
        poll_next(&mut early, &mut cx),
        Poll::Ready(Some(event(10, 10)))
    );

    let mut late = gate.try_gate(futures::stream::iter(vec![
        Err(TestError("gap")),
        Ok(event(5, 5)),
        Err(TestError("another gap")),
        Ok(event(8, 8)),
        Ok(event(10, 100)),
    ]));

    assert_eq!(
        poll_next(&mut late, &mut cx),
        Poll::Ready(Some(Err(TestError("gap"))))
    );
    assert_eq!(
        poll_next(&mut late, &mut cx),
        Poll::Ready(Some(Ok(event(5, 5))))
    );
    assert_eq!(
        poll_next(&mut late, &mut cx),
        Poll::Ready(Some(Err(TestError("another gap"))))
    );
    assert_eq!(
        poll_next(&mut late, &mut cx),
        Poll::Ready(Some(Ok(event(8, 8))))
    );
    assert_eq!(poll_next(&mut late, &mut cx), Poll::Pending);
    assert_eq!(poll_next(&mut early, &mut cx), Poll::Pending);
    assert_eq!(
        poll_next(&mut late, &mut cx),
        Poll::Ready(Some(Ok(event(10, 100))))
    );
}

#[test]
fn accepts_non_unpin_sources_and_non_clone_keys() {
    run(async {
        let gate = OrderGate::<Key>::new();
        let source = futures::stream::once(async { event(1, 10) });
        let values = gate.gate(source).collect::<Vec<_>>().await;

        assert_eq!(values, vec![event(1, 10)]);
    });
}

#[test]
fn accepts_borrowing_non_send_streams_items_keys_and_errors() {
    struct LocalKey<'a> {
        value: u32,
        _local: &'a Rc<()>,
    }

    impl PartialEq for LocalKey<'_> {
        fn eq(&self, other: &Self) -> bool {
            self.value == other.value
        }
    }

    impl Eq for LocalKey<'_> {}

    impl PartialOrd for LocalKey<'_> {
        fn partial_cmp(&self, other: &Self) -> Option<CmpOrdering> {
            Some(self.cmp(other))
        }
    }

    impl Ord for LocalKey<'_> {
        fn cmp(&self, other: &Self) -> CmpOrdering {
            self.value.cmp(&other.value)
        }
    }

    struct LocalEvent<'a> {
        value: u32,
        local: &'a Rc<()>,
    }

    impl<'a> Ordered for LocalEvent<'a> {
        type Key = LocalKey<'a>;

        fn order_key(&self) -> Self::Key {
            LocalKey {
                value: self.value,
                _local: self.local,
            }
        }
    }

    struct LocalError<'a> {
        _local: &'a Rc<()>,
    }

    let local = Rc::new(());
    let gate = OrderGate::<LocalKey<'_>>::new();
    let source = futures::stream::iter(vec![LocalEvent {
        value: 1,
        local: &local,
    }]);
    let value = futures::executor::block_on(gate.gate(source).next()).unwrap();

    assert_eq!(value.value, 1);

    let try_gate = OrderGate::<LocalKey<'_>>::new();
    let source = futures::stream::iter(vec![
        Err(LocalError { _local: &local }),
        Ok(LocalEvent {
            value: 2,
            local: &local,
        }),
    ]);
    let mut gated = try_gate.try_gate(source);

    assert!(matches!(
        futures::executor::block_on(gated.next()),
        Some(Err(_))
    ));
    let Some(Ok(value)) = futures::executor::block_on(gated.next()) else {
        panic!("stream must produce its successful item");
    };
    assert_eq!(value.value, 2);
}

#[test]
fn heterogeneous_items_share_the_same_gate() {
    #[derive(Debug, PartialEq, Eq)]
    struct Trade(u32);

    impl Ordered for Trade {
        type Key = Key;

        fn order_key(&self) -> Self::Key {
            Key(self.0)
        }
    }

    #[derive(Debug, PartialEq, Eq)]
    struct BookUpdate(u32);

    impl Ordered for BookUpdate {
        type Key = Key;

        fn order_key(&self) -> Self::Key {
            Key(self.0)
        }
    }

    let gate = OrderGate::<Key>::new();
    let mut trades = gate.gate(futures::stream::iter(vec![Trade(2)]));
    let mut books = gate.gate(futures::stream::iter(vec![BookUpdate(1)]));
    let waker = noop_waker();
    let mut cx = Context::from_waker(&waker);

    assert_eq!(poll_next(&mut trades, &mut cx), Poll::Pending);
    assert_eq!(
        poll_next(&mut books, &mut cx),
        Poll::Ready(Some(BookUpdate(1)))
    );
    assert_eq!(poll_next(&mut books, &mut cx), Poll::Ready(None));
    assert_eq!(poll_next(&mut trades, &mut cx), Poll::Ready(Some(Trade(2))));
}

#[test]
fn extracts_each_key_once_while_a_head_is_retained() {
    struct CountedEvent {
        key: u32,
        extractions: Arc<AtomicUsize>,
    }

    impl Ordered for CountedEvent {
        type Key = Key;

        fn order_key(&self) -> Self::Key {
            self.extractions.fetch_add(1, Ordering::Relaxed);
            Key(self.key)
        }
    }

    let gate = OrderGate::<Key>::new();
    let extractions = Arc::new(AtomicUsize::new(0));
    let mut counted = gate.gate(futures::stream::iter(vec![CountedEvent {
        key: 1,
        extractions: Arc::clone(&extractions),
    }]));
    let (_pending_tx, pending_rx) = tokio::sync::mpsc::unbounded_channel();
    let pending = gate.gate(MpscStream::<CountedEvent>(pending_rx));
    let waker = noop_waker();
    let mut cx = Context::from_waker(&waker);

    assert!(matches!(poll_next(&mut counted, &mut cx), Poll::Pending));
    assert!(matches!(poll_next(&mut counted, &mut cx), Poll::Pending));
    assert_eq!(extractions.load(Ordering::Relaxed), 1);

    drop(pending);
    assert!(matches!(
        poll_next(&mut counted, &mut cx),
        Poll::Ready(Some(_))
    ));
    assert_eq!(extractions.load(Ordering::Relaxed), 1);
}

#[test]
fn missing_member_blocks_every_head_at_or_above_the_frontier() {
    let mut gate: streamx::OrderGate<Key, u32> = streamx::OrderGate::new();
    let mut first = gate.gate::<Event>();
    let mut second = gate.gate::<Event>();

    assert!(matches!(first.begin_poll(&mut gate, 1).step, GateStep::PollSource));
    let turn = first.source_polled(&mut gate, StreamPoll::Item(KeyedItem::new(event(5, 0))));
    assert!(matches!(turn.step, GateStep::Pending));
    assert_eq!(turn.wakes, Vec::<u32>::new());

    // The second head is the smaller one: it passes at once, and the first member
    // still waits because the second is missing again.
    assert!(matches!(second.begin_poll(&mut gate, 2).step, GateStep::PollSource));
    let turn = second.source_polled(&mut gate, StreamPoll::Item(KeyedItem::new(event(3, 1))));
    assert!(matches!(turn.step, GateStep::Emit(Event { key: 3, id: 1 })));
    assert_eq!(turn.wakes, Vec::<u32>::new());

    // When the second member leaves, the first one may pass, and only it is woken.
    let (left, wakes) = second.leave(&mut gate);
    assert!(left.is_some());
    assert_eq!(wakes, vec![1]);
    let turn = first.begin_poll(&mut gate, 3);
    assert!(matches!(turn.step, GateStep::Emit(Event { key: 5, id: 0 })));
    assert_eq!(turn.retired_key, Some(Key(3)));
}

#[test]
fn frontier_never_moves_backward() {
    let mut gate: streamx::OrderGate<Key, u32> = streamx::OrderGate::new();
    let mut first = gate.gate::<Event>();
    let mut keys = vec![];
    for key in [4, 2, 9, 1] {
        // An unordered source is not rejected; what is below the frontier passes
        // without moving it.
        assert!(matches!(first.begin_poll(&mut gate, 1).step, GateStep::PollSource));
        let turn = first.source_polled(&mut gate, StreamPoll::Item(KeyedItem::new(event(key, 0))));
        assert!(matches!(turn.step, GateStep::Emit(_)));
        keys.push(turn.retired_key.map(|key| key.0));
    }
    // What is given up is the old frontier where it moves, and otherwise the key
    // that passed below it.
    assert_eq!(keys, vec![None, Some(2), Some(4), Some(1)]);
}

#[test]
fn left_member_stays_completed() {
    let mut gate: streamx::OrderGate<Key, u32> = streamx::OrderGate::new();
    assert!(gate.can_register());
    let mut member = gate.try_gate::<Event>();
    let turn = member.begin_poll::<TestError, u32>(&mut gate, 1);
    assert!(matches!(turn.step, TryGateStep::PollSource));
    let turn = member.source_polled::<TestError, u32>(&mut gate, TryStreamPoll::End);
    assert!(matches!(turn.step, TryGateStep::Finished));
    let turn = member.begin_poll::<TestError, u32>(&mut gate, 1);
    assert!(matches!(turn.step, TryGateStep::Finished));
    let (left, wakes) = member.leave(&mut gate);
    assert!(left.is_none());
    assert_eq!(wakes, Vec::<u32>::new());
}

#[test]
fn member_emits_the_results_of_its_source_in_order() {
    let mut gate: streamx::OrderGate<Key, u32> = streamx::OrderGate::new();
    let mut first = gate.try_gate::<Event>();
    let mut second = gate.gate::<Event>();
    let mut emitted: Vec<Result<u32, TestError>> = vec![];

    // An error passes while a head of the other member is missing.
    let turn = first.begin_poll::<TestError, u32>(&mut gate, 1);
    assert!(matches!(turn.step, TryGateStep::PollSource));
    let turn = first.source_polled(&mut gate, TryStreamPoll::Failed(TestError("early")));
    if let TryGateStep::Fail(error) = turn.step {
        emitted.push(Err(error));
    }

    // An item does not. While it is withheld, the source is not asked for.
    first.begin_poll::<TestError, u32>(&mut gate, 1);
    let turn = first.source_polled::<TestError, u32>(&mut gate, TryStreamPoll::Item(KeyedItem::new(event(7, 0))));
    assert!(matches!(turn.step, TryGateStep::Pending));
    for _ in 0..3 {
        let turn = first.begin_poll::<TestError, u32>(&mut gate, 2);
        assert!(matches!(turn.step, TryGateStep::Pending));
    }

    // It passes once the other member has a later head.
    second.begin_poll(&mut gate, 3);
    let turn = second.source_polled(&mut gate, StreamPoll::Item(KeyedItem::new(event(8, 1))));
    assert!(matches!(turn.step, GateStep::Pending));
    assert_eq!(turn.wakes, vec![2]);
    let turn = first.begin_poll::<TestError, u32>(&mut gate, 2);
    if let TryGateStep::Emit(item) = turn.step {
        emitted.push(Ok(item.key));
    }
    first.begin_poll::<TestError, u32>(&mut gate, 2);
    let turn = first.source_polled(&mut gate, TryStreamPoll::Failed(TestError("late")));
    if let TryGateStep::Fail(error) = turn.step {
        emitted.push(Err(error));
    }
    assert_eq!(emitted, vec![Err(TestError("early")), Ok(7), Err(TestError("late"))]);
}

#[test]
fn later_member_yields_ties_whoever_has_left() {
    let mut gate: streamx::OrderGate<Key, u32> = streamx::OrderGate::new();
    let mut first = gate.gate::<Event>();
    let mut second = gate.gate::<Event>();
    first.leave(&mut gate);
    let mut third = gate.gate::<Event>();

    third.begin_poll(&mut gate, 3);
    let turn = third.source_polled(&mut gate, StreamPoll::Item(KeyedItem::new(event(4, 3))));
    assert!(matches!(turn.step, GateStep::Pending));
    second.begin_poll(&mut gate, 2);
    let turn = second.source_polled(&mut gate, StreamPoll::Item(KeyedItem::new(event(4, 2))));
    assert!(matches!(turn.step, GateStep::Emit(Event { key: 4, id: 2 })));
}

#[test]
fn completed_member_is_handed_out() {
    let mut gate: streamx::OrderGate<Key, u32> = streamx::OrderGate::new();
    let mut first = gate.gate::<Event>();
    let mut second = gate.gate::<Event>();
    first.begin_poll(&mut gate, 1);
    first.source_polled(&mut gate, StreamPoll::Item(event(5, 0)).keyed());
    second.begin_poll(&mut gate, 2);
    let turn = second.source_polled(&mut gate, StreamPoll::<Event>::End.keyed());
    let removed = turn.removed.unwrap();
    assert!(removed.head.is_none());
    assert_eq!(removed.signal, Some(2));
    assert_eq!(turn.wakes, vec![1]);
}

#[test]
fn ordered_sources_pass_in_one_order() {
    let gate = OrderGate::new();
    let keys = [vec![1, 4, 4, 9], vec![2, 4, 8], vec![3]];
    let mut members: Vec<_> = keys
        .iter()
        .enumerate()
        .map(|(id, keys)| {
            let events: Vec<Event> = keys.iter().map(|key| event(*key, id as u32)).collect();
            Some(gate.gate(futures::stream::iter(events)))
        })
        .collect();
    let waker = noop_waker();
    let mut cx = Context::from_waker(&waker);
    let mut passed = vec![];
    while members.iter().any(Option::is_some) {
        for member in members.iter_mut().rev() {
            if let Some(stream) = member {
                match Pin::new(stream).poll_next(&mut cx) {
                    Poll::Ready(Some(event)) => passed.push((event.key, event.id)),
                    Poll::Ready(None) => *member = None,
                    Poll::Pending => {}
                }
            }
        }
    }
    assert_eq!(
        passed,
        vec![(1, 0), (2, 1), (3, 2), (4, 0), (4, 0), (4, 1), (8, 1), (9, 0)]
    );
}

#[test]
fn key_function_may_poll_another_member() {
    type Plain = OrderGatedStream<futures::stream::Iter<std::vec::IntoIter<Event>>, Key>;

    struct Nosy {
        key: u32,
        other: Rc<std::cell::RefCell<Plain>>,
    }

    impl Ordered for Nosy {
        type Key = Key;

        fn order_key(&self) -> Key {
            let waker = noop_waker();
            let mut cx = Context::from_waker(&waker);
            let outcome = Pin::new(&mut *self.other.borrow_mut()).poll_next(&mut cx);
            assert!(outcome.is_pending());
            Key(self.key)
        }
    }

    let gate = OrderGate::new();
    let plain = gate.gate(futures::stream::iter(vec![event(1, 0)]));
    let other = Rc::new(std::cell::RefCell::new(plain));
    let nosy = Nosy { key: 2, other: Rc::clone(&other) };
    let mut member = gate.gate(futures::stream::iter(vec![nosy]));

    let waker = noop_waker();
    let mut cx = Context::from_waker(&waker);
    assert!(Pin::new(&mut member).poll_next(&mut cx).is_pending());
    let first = Pin::new(&mut *other.borrow_mut()).poll_next(&mut cx);
    assert!(matches!(first, Poll::Ready(Some(Event { key: 1, id: 0 }))));
    let end = Pin::new(&mut *other.borrow_mut()).poll_next(&mut cx);
    assert!(matches!(end, Poll::Ready(None)));
    let second = Pin::new(&mut member).poll_next(&mut cx);
    assert!(matches!(second, Poll::Ready(Some(Nosy { key: 2, .. }))));
}

#[test]
fn given_up_wakers_are_handed_out() {
    let mut gate: streamx::OrderGate<Key, u32> = streamx::OrderGate::new();
    let mut first = gate.try_gate::<Event>();
    let mut second = gate.gate::<Event>();

    let turn = first.begin_poll::<TestError, u32>(&mut gate, 1);
    assert_eq!(turn.retired_wakers, Vec::<u32>::new());
    let turn = first.begin_poll::<TestError, u32>(&mut gate, 2);
    assert_eq!(turn.retired_wakers, vec![1]);
    let turn = first.source_polled(&mut gate, TryStreamPoll::Failed(TestError("gap")));
    assert_eq!(turn.retired_wakers, vec![2]);

    first.begin_poll::<TestError, u32>(&mut gate, 3);
    let outcome = TryStreamPoll::<Event, TestError>::Item(event(7, 0)).keyed();
    let turn = first.source_polled(&mut gate, outcome);
    assert!(matches!(turn.step, TryGateStep::Pending));
    assert_eq!(turn.retired_wakers, Vec::<u32>::new());
    let turn = first.begin_poll::<TestError, u32>(&mut gate, 4);
    assert_eq!(turn.retired_wakers, vec![3]);

    // The second member is complete: the first one is woken, with the waker it waits by.
    second.begin_poll(&mut gate, 5);
    let turn = second.source_polled(&mut gate, StreamPoll::<Event>::End.keyed());
    assert_eq!(turn.wakes, vec![4]);
    let turn = first.begin_poll::<TestError, u32>(&mut gate, 6);
    assert!(matches!(turn.step, TryGateStep::Emit(Event { key: 7, id: 0 })));
    assert_eq!(turn.retired_wakers, vec![6]);
}
