use std::collections::VecDeque;
use std::future::Future;
use std::pin::Pin;
use std::sync::atomic::{AtomicUsize, Ordering};
use std::sync::{Arc, Mutex, MutexGuard, PoisonError};
use std::task::{Context, Poll, Waker};
use std::time::Duration;

use futures::task::ArcWake;
use futures::{Stream, StreamExt, TryStream};
use streamx::{
    MergeStep, Ordered, ScanWake, StreamPoll, TryMergeStep, TryStreamPoll, WORK_BUDGET,
};

/// Locks, whether or not another holder panicked.
fn lock<T>(mutex: &Mutex<T>) -> MutexGuard<'_, T> {
    mutex.lock().unwrap_or_else(PoisonError::into_inner)
}

/// What a stream's poll gave, as the library takes it.
fn stream_poll<T>(poll: Poll<Option<T>>) -> StreamPoll<T> {
    match poll {
        Poll::Ready(Some(item)) => StreamPoll::Item(item),
        Poll::Ready(None) => StreamPoll::End,
        Poll::Pending => StreamPoll::Pending,
    }
}

/// Wakes whom the library hands out.
fn wake(waker: Option<Waker>) {
    if let Some(waker) = waker {
        waker.wake();
    }
}

/// What the wakers of the inputs share with a merge.
struct SharedWake(Mutex<ScanWake<Waker>>);

impl ArcWake for SharedWake {
    fn wake_by_ref(arc_self: &Arc<Self>) {
        let waker = lock(&arc_self.0).wake_by_ref();
        wake(waker);
    }
}

impl SharedWake {
    fn new() -> Arc<Self> {
        Arc::new(SharedWake(Mutex::new(ScanWake::new())))
    }

    /// Registers the downstream task before it reads the wake generation.
    fn register(&self, waker: &Waker) -> usize {
        let mut shared = lock(&self.0);
        shared.register(waker.clone());
        shared.generation()
    }

    fn generation(&self) -> usize {
        lock(&self.0).generation()
    }
}

/// A pull-based, lossless merge of streams ordered by [`Ordered::order_key`].
struct MergeOrderedStream<TStream>
where
    TStream: Stream,
    TStream::Item: Ordered,
{
    inputs: Vec<Pin<Box<TStream>>>,
    merge: streamx::MergeOrderedStream<TStream::Item>,
    shared: Arc<SharedWake>,
}

// Input streams are pinned independently in `Pin<Box<_>>`; no field of the
// outer stream relies on structural pinning.
impl<TStream> Unpin for MergeOrderedStream<TStream>
where
    TStream: Stream,
    TStream::Item: Ordered,
{
}

impl<TStream> Stream for MergeOrderedStream<TStream>
where
    TStream: Stream,
    TStream::Item: Ordered,
{
    type Item = TStream::Item;

    fn poll_next(self: Pin<&mut Self>, cx: &mut Context<'_>) -> Poll<Option<Self::Item>> {
        let this = self.get_mut();
        let generation = this.shared.register(cx.waker());
        let input_waker = futures::task::waker(Arc::clone(&this.shared));
        let mut input_cx = Context::from_waker(&input_waker);
        let mut step = this.merge.begin_poll(generation);
        loop {
            step = match step {
                MergeStep::PollInput(index) => {
                    let outcome = stream_poll(this.inputs[index].as_mut().poll_next(&mut input_cx));
                    this.merge.input_polled(index, outcome)
                }
                MergeStep::Select => {
                    return Poll::Ready(this.merge.select(this.shared.generation()));
                }
                MergeStep::Suspend => {
                    if this.merge.must_wake(this.shared.generation()) {
                        cx.waker().wake_by_ref();
                    }
                    return Poll::Pending;
                }
                MergeStep::Finished => return Poll::Ready(None),
            };
        }
    }
}

/// Merge streams whose items have a canonical [`Ordered`] key.
///
/// Each input must already be ordered by a nondecreasing key. The result is
/// pull-based and lossless, preserves the order within every input, and emits
/// equal-key items from earlier inputs first.
fn merge_ordered<TStreams, TStream>(streams: TStreams) -> MergeOrderedStream<TStream>
where
    TStreams: IntoIterator<Item = TStream>,
    TStream: Stream,
    TStream::Item: Ordered,
{
    let inputs = streams.into_iter().map(Box::pin).collect::<Vec<_>>();
    let merge = streamx::merge_ordered(inputs.len());
    MergeOrderedStream { inputs, merge, shared: SharedWake::new() }
}

/// Extension trait that adds `.merge_ordered()` to collections of streams.
trait StreamMergeOrderedExt<TStream>: Sized
where
    TStream: Stream,
    TStream::Item: Ordered,
{
    /// Merge these individually ordered streams by their items' canonical keys.
    fn merge_ordered(self) -> MergeOrderedStream<TStream>;
}

impl<TStreams, TStream> StreamMergeOrderedExt<TStream> for TStreams
where
    TStreams: IntoIterator<Item = TStream>,
    TStream: Stream,
    TStream::Item: Ordered,
{
    fn merge_ordered(self) -> MergeOrderedStream<TStream> {
        merge_ordered(self)
    }
}

/// A pull-based, lossless merge of fallible streams whose successful items are
/// ordered by [`Ordered::order_key`].
struct TryMergeOrderedStream<TStream>
where
    TStream: TryStream,
    TStream::Ok: Ordered,
{
    inputs: Vec<Pin<Box<TStream>>>,
    merge: streamx::TryMergeOrderedStream<TStream::Ok>,
    shared: Arc<SharedWake>,
}

// Input streams are pinned independently in `Pin<Box<_>>`; no field of the
// outer stream relies on structural pinning.
impl<TStream> Unpin for TryMergeOrderedStream<TStream>
where
    TStream: TryStream,
    TStream::Ok: Ordered,
{
}

impl<TStream> Stream for TryMergeOrderedStream<TStream>
where
    TStream: TryStream,
    TStream::Ok: Ordered,
{
    type Item = Result<TStream::Ok, TStream::Error>;

    fn poll_next(self: Pin<&mut Self>, cx: &mut Context<'_>) -> Poll<Option<Self::Item>> {
        let this = self.get_mut();
        let generation = this.shared.register(cx.waker());
        let input_waker = futures::task::waker(Arc::clone(&this.shared));
        let mut input_cx = Context::from_waker(&input_waker);
        let mut step = this.merge.begin_poll(generation);
        loop {
            step = match step {
                TryMergeStep::PollInput(index) => {
                    let poll = this.inputs[index].as_mut().try_poll_next(&mut input_cx);
                    let outcome = match poll {
                        Poll::Ready(Some(Ok(item))) => TryStreamPoll::Item(item),
                        Poll::Ready(Some(Err(error))) => TryStreamPoll::Failed(error),
                        Poll::Ready(None) => TryStreamPoll::End,
                        Poll::Pending => TryStreamPoll::Pending,
                    };
                    this.merge.input_polled(index, outcome)
                }
                TryMergeStep::Fail(error) => return Poll::Ready(Some(Err(error))),
                TryMergeStep::Select => {
                    return Poll::Ready(this.merge.select(this.shared.generation()).map(Ok));
                }
                TryMergeStep::Suspend => {
                    if this.merge.must_wake(this.shared.generation()) {
                        cx.waker().wake_by_ref();
                    }
                    return Poll::Pending;
                }
                TryMergeStep::Finished => return Poll::Ready(None),
            };
        }
    }
}

/// Merge fallible streams whose successful items have a canonical [`Ordered`] key.
///
/// An observed error is emitted at once; it neither discards a retained head nor
/// completes the merge.
fn try_merge_ordered<TStreams, TStream>(streams: TStreams) -> TryMergeOrderedStream<TStream>
where
    TStreams: IntoIterator<Item = TStream>,
    TStream: TryStream,
    TStream::Ok: Ordered,
{
    let inputs = streams.into_iter().map(Box::pin).collect::<Vec<_>>();
    let merge = streamx::try_merge_ordered(inputs.len());
    TryMergeOrderedStream { inputs, merge, shared: SharedWake::new() }
}

/// Extension trait that adds `.try_merge_ordered()` to collections of streams.
trait StreamTryMergeOrderedExt<TStream>: Sized
where
    TStream: TryStream,
    TStream::Ok: Ordered,
{
    /// Merge these fallible streams by their successful items' canonical keys.
    fn try_merge_ordered(self) -> TryMergeOrderedStream<TStream>;
}

impl<TStreams, TStream> StreamTryMergeOrderedExt<TStream> for TStreams
where
    TStreams: IntoIterator<Item = TStream>,
    TStream: TryStream,
    TStream::Ok: Ordered,
{
    fn try_merge_ordered(self) -> TryMergeOrderedStream<TStream> {
        try_merge_ordered(self)
    }
}

/// Runs a test on a runtime of its own.
fn run<F: Future>(test: F) -> F::Output {
    tokio::runtime::Builder::new_current_thread()
        .enable_time()
        .build()
        .unwrap()
        .block_on(test)
}

/// What an unbounded channel receives, as a stream.
struct MpscStream<T>(tokio::sync::mpsc::UnboundedReceiver<T>);

impl<T> Stream for MpscStream<T> {
    type Item = T;

    fn poll_next(mut self: Pin<&mut Self>, cx: &mut Context<'_>) -> Poll<Option<Self::Item>> {
        self.0.poll_recv(cx)
    }
}

#[derive(Debug, PartialEq, Eq)]
struct Key(u32);

impl PartialOrd for Key {
    fn partial_cmp(&self, other: &Self) -> Option<std::cmp::Ordering> {
        Some(self.cmp(other))
    }
}

impl Ord for Key {
    fn cmp(&self, other: &Self) -> std::cmp::Ordering {
        self.0.cmp(&other.0)
    }
}

#[derive(Debug, PartialEq, Eq)]
struct Event {
    order: u32,
    id: u32,
}

impl Ordered for Event {
    type Key = Key;

    fn order_key(&self) -> Self::Key {
        Key(self.order)
    }
}

fn event(order: u32, id: u32) -> Event {
    Event { order, id }
}



struct WakeOnceStream {
    item: Option<Event>,
    wake_before_item: bool,
}

impl Stream for WakeOnceStream {
    type Item = Event;

    fn poll_next(mut self: Pin<&mut Self>, cx: &mut Context<'_>) -> Poll<Option<Self::Item>> {
        if self.wake_before_item {
            self.wake_before_item = false;
            cx.waker().wake_by_ref();
            return Poll::Pending;
        }

        Poll::Ready(self.item.take())
    }
}

struct WakeCounter(AtomicUsize);

impl ArcWake for WakeCounter {
    fn wake_by_ref(arc_self: &Arc<Self>) {
        arc_self.0.fetch_add(1, Ordering::Relaxed);
    }
}

#[test]
fn free_function_merges_in_nondecreasing_order() {
    let streams = vec![
        futures::stream::iter(vec![event(1, 10), event(3, 30), event(5, 50)]),
        futures::stream::iter(vec![event(2, 20), event(4, 40), event(6, 60)]),
    ];

    let values = futures::executor::block_on(merge_ordered(streams).collect::<Vec<_>>());

    assert_eq!(
        values,
        vec![
            event(1, 10),
            event(2, 20),
            event(3, 30),
            event(4, 40),
            event(5, 50),
            event(6, 60),
        ]
    );
}

#[test]
fn extension_uses_input_order_for_equal_keys() {
    let streams = vec![
        futures::stream::iter(vec![event(1, 10), event(1, 11)]),
        futures::stream::iter(vec![event(1, 20), event(1, 21)]),
    ];

    let values = futures::executor::block_on(streams.merge_ordered().collect::<Vec<_>>());

    assert_eq!(
        values,
        vec![event(1, 10), event(1, 11), event(1, 20), event(1, 21)]
    );
}

#[test]
fn waits_until_every_unfinished_input_has_a_head() {
    run(async {
        let (first_tx, first_rx) = tokio::sync::mpsc::unbounded_channel();
        let (second_tx, second_rx) = tokio::sync::mpsc::unbounded_channel();
        let mut merged = vec![MpscStream(first_rx), MpscStream(second_rx)].merge_ordered();

        first_tx.send(event(2, 20)).unwrap();
        assert!(
            tokio::time::timeout(Duration::from_millis(20), merged.next())
                .await
                .is_err()
        );

        second_tx.send(event(1, 10)).unwrap();
        assert_eq!(merged.next().await, Some(event(1, 10)));

        drop(second_tx);
        assert_eq!(merged.next().await, Some(event(2, 20)));

        drop(first_tx);
        assert_eq!(merged.next().await, None);
        assert_eq!(merged.next().await, None);
    });
}

#[test]
fn construction_is_lazy_and_each_input_retains_only_one_head() {
    run(async {
        struct CountStream {
            items: VecDeque<Event>,
            polls: Arc<AtomicUsize>,
        }

        impl Stream for CountStream {
            type Item = Event;

            fn poll_next(mut self: Pin<&mut Self>, _cx: &mut Context<'_>) -> Poll<Option<Self::Item>> {
                self.polls.fetch_add(1, Ordering::Relaxed);
                Poll::Ready(self.items.pop_front())
            }
        }

        let first_polls = Arc::new(AtomicUsize::new(0));
        let second_polls = Arc::new(AtomicUsize::new(0));
        let streams = vec![
            CountStream {
                items: VecDeque::from([event(1, 10), event(3, 30)]),
                polls: Arc::clone(&first_polls),
            },
            CountStream {
                items: VecDeque::from([event(2, 20), event(4, 40)]),
                polls: Arc::clone(&second_polls),
            },
        ];
        let mut merged = streams.merge_ordered();

        assert_eq!(first_polls.load(Ordering::Relaxed), 0);
        assert_eq!(second_polls.load(Ordering::Relaxed), 0);

        assert_eq!(merged.next().await, Some(event(1, 10)));
        assert_eq!(first_polls.load(Ordering::Relaxed), 1);
        assert_eq!(second_polls.load(Ordering::Relaxed), 1);

        assert_eq!(merged.next().await, Some(event(2, 20)));
        assert_eq!(first_polls.load(Ordering::Relaxed), 2);
        assert_eq!(second_polls.load(Ordering::Relaxed), 1);
    });
}

#[test]
fn empty_collection_and_empty_inputs_complete() {
    let empty: Vec<futures::stream::Iter<std::vec::IntoIter<Event>>> = vec![];
    let values = futures::executor::block_on(empty.merge_ordered().collect::<Vec<_>>());
    assert!(values.is_empty());

    let streams = vec![
        futures::stream::iter(Vec::<Event>::new()),
        futures::stream::iter(vec![event(1, 10)]),
    ];
    let values = futures::executor::block_on(streams.merge_ordered().collect::<Vec<_>>());
    assert_eq!(values, vec![event(1, 10)]);
}

#[test]
fn accepts_non_unpin_inputs() {
    run(async {
        let source = futures::stream::once(async { event(1, 10) });
        let values = [source].merge_ordered().collect::<Vec<_>>().await;

        assert_eq!(values, vec![event(1, 10)]);
    });
}

#[test]
fn many_synchronously_ready_inputs_yield_cooperatively() {
    run(async {
        let streams = (0..=WORK_BUDGET)
            .map(|value| futures::stream::iter(vec![event(value as u32, value as u32)]))
            .collect::<Vec<_>>();

        let values = streams.merge_ordered().collect::<Vec<_>>().await;
        assert_eq!(values.len(), WORK_BUDGET + 1);
        assert!(
            values
                .windows(2)
                .all(|items| items[0].order <= items[1].order)
        );
    });
}

#[test]
fn wake_during_a_budgeted_scan_is_not_lost() {
    let streams = (0..=WORK_BUDGET)
        .map(|value| WakeOnceStream {
            item: Some(event(value as u32, value as u32)),
            wake_before_item: value == 0,
        })
        .collect::<Vec<_>>();
    let mut merged = streams.merge_ordered();
    let wakes = Arc::new(WakeCounter(AtomicUsize::new(0)));
    let waker = futures::task::waker(Arc::clone(&wakes));
    let mut cx = Context::from_waker(&waker);

    assert!(matches!(
        Pin::new(&mut merged).poll_next(&mut cx),
        Poll::Pending
    ));

    // Consume the continuation and upstream wakes as an executor may coalesce
    // them into the next poll.
    wakes.0.store(0, Ordering::Relaxed);
    assert!(matches!(
        Pin::new(&mut merged).poll_next(&mut cx),
        Poll::Pending
    ));

    // Completing the first scan must schedule a fresh scan because input zero
    // woke during the earlier chunk.
    assert_eq!(wakes.0.load(Ordering::Relaxed), 1);
    assert_eq!(
        Pin::new(&mut merged).poll_next(&mut cx),
        Poll::Ready(Some(event(0, 0)))
    );
}

#[test]
fn pending_input_uses_the_latest_downstream_waker() {
    let mut first_tx = None;
    let streams = (0..=WORK_BUDGET)
        .map(|value| {
            let (tx, rx) = tokio::sync::mpsc::unbounded_channel();
            if value == 0 {
                first_tx = Some(tx);
            } else {
                tx.send(event(value as u32, value as u32)).unwrap();
            }
            MpscStream(rx)
        })
        .collect::<Vec<_>>();
    let mut merged = streams.merge_ordered();
    let wakes_a = Arc::new(WakeCounter(AtomicUsize::new(0)));
    let wakes_b = Arc::new(WakeCounter(AtomicUsize::new(0)));
    let waker_a = futures::task::waker(Arc::clone(&wakes_a));
    let waker_b = futures::task::waker(Arc::clone(&wakes_b));
    let mut cx_a = Context::from_waker(&waker_a);
    let mut cx_b = Context::from_waker(&waker_b);

    assert!(matches!(
        Pin::new(&mut merged).poll_next(&mut cx_a),
        Poll::Pending
    ));
    wakes_a.0.store(0, Ordering::Relaxed);

    assert!(matches!(
        Pin::new(&mut merged).poll_next(&mut cx_b),
        Poll::Pending
    ));
    assert_eq!(wakes_a.0.load(Ordering::Relaxed), 0);
    assert_eq!(wakes_b.0.load(Ordering::Relaxed), 0);

    first_tx.unwrap().send(event(0, 0)).unwrap();
    assert_eq!(wakes_a.0.load(Ordering::Relaxed), 0);
    assert_eq!(wakes_b.0.load(Ordering::Relaxed), 1);
    assert_eq!(
        Pin::new(&mut merged).poll_next(&mut cx_b),
        Poll::Ready(Some(event(0, 0)))
    );
}

#[derive(Debug, PartialEq, Eq)]
struct TestError(&'static str);

fn noop_cx_poll<S: Stream + Unpin>(stream: &mut S) -> Poll<Option<S::Item>> {
    let waker = futures::task::noop_waker();
    let mut cx = Context::from_waker(&waker);
    Pin::new(stream).poll_next(&mut cx)
}

#[test]
fn merge_is_the_stable_sort_of_its_inputs() {
    let inputs: Vec<Vec<Event>> = vec![
        vec![event(1, 0), event(4, 1), event(4, 2), event(9, 3)],
        vec![],
        vec![event(1, 10), event(2, 11), event(4, 12)],
        vec![event(0, 20), event(9, 21), event(9, 22)],
    ];
    let mut expected: Vec<(u32, u32)> = inputs
        .iter()
        .flat_map(|input| input.iter().map(|event| (event.order, event.id)))
        .collect();
    expected.sort_by_key(|entry| entry.0);

    let streams = inputs.into_iter().map(futures::stream::iter).collect::<Vec<_>>();
    let merged = futures::executor::block_on(streams.merge_ordered().collect::<Vec<_>>());
    let merged: Vec<(u32, u32)> = merged.iter().map(|event| (event.order, event.id)).collect();
    assert_eq!(merged, expected);
}

#[test]
fn merge_does_not_depend_on_when_inputs_are_ready() {
    // Each input is pending before each of its items, a different number of times.
    let delayed = |delay: usize, items: Vec<Event>| {
        let mut items = VecDeque::from(items);
        let mut left = delay;
        futures::stream::poll_fn(move |cx| {
            if left > 0 {
                left -= 1;
                cx.waker().wake_by_ref();
                return Poll::Pending;
            }
            left = delay;
            Poll::Ready(items.pop_front())
        })
    };
    for (first, second) in [(0, 0), (0, 3), (3, 0), (2, 5)] {
        let streams = vec![
            delayed(first, vec![event(1, 10), event(3, 30), event(3, 31)]).boxed(),
            delayed(second, vec![event(2, 20), event(3, 40)]).boxed(),
        ];
        let values = futures::executor::block_on(merge_ordered(streams).collect::<Vec<_>>());
        assert_eq!(
            values,
            vec![event(1, 10), event(2, 20), event(3, 30), event(3, 31), event(3, 40)]
        );
    }
}

#[test]
fn merge_extracts_each_key_once() {
    struct Counted(u32, Arc<AtomicUsize>);

    impl Ordered for Counted {
        type Key = u32;

        fn order_key(&self) -> u32 {
            self.1.fetch_add(1, Ordering::Relaxed);
            self.0
        }
    }

    let extractions = Arc::new(AtomicUsize::new(0));
    let input = |values: Vec<u32>| {
        let extractions = Arc::clone(&extractions);
        futures::stream::iter(
            values
                .into_iter()
                .map(|value| Counted(value, Arc::clone(&extractions)))
                .collect::<Vec<_>>(),
        )
    };
    let streams = vec![input(vec![1, 5, 6]), input(vec![2, 3]), input(vec![4])];
    let values = futures::executor::block_on(merge_ordered(streams).collect::<Vec<_>>());
    let values: Vec<u32> = values.iter().map(|counted| counted.0).collect();
    assert_eq!(values, vec![1, 2, 3, 4, 5, 6]);
    assert_eq!(extractions.load(Ordering::Relaxed), 6);
}

#[test]
fn try_merge_without_errors_is_the_merge() {
    let streams = vec![
        futures::stream::iter(vec![Ok::<_, TestError>(event(1, 10)), Ok(event(3, 30))]),
        futures::stream::iter(vec![Ok(event(1, 20)), Ok(event(2, 21))]),
    ];
    let values = futures::executor::block_on(streams.try_merge_ordered().collect::<Vec<_>>());
    assert_eq!(
        values,
        vec![Ok(event(1, 10)), Ok(event(1, 20)), Ok(event(2, 21)), Ok(event(3, 30))]
    );
}

#[test]
fn try_merge_error_bypasses_missing_heads_and_keeps_heads() {
    let (first_tx, first_rx) = tokio::sync::mpsc::unbounded_channel();
    let (second_tx, second_rx) = tokio::sync::mpsc::unbounded_channel();
    let mut merged = try_merge_ordered(vec![
        MpscStream::<Result<Event, TestError>>(first_rx),
        MpscStream(second_rx),
    ]);

    // The first input gets a head; the second one has nothing yet.
    first_tx.send(Ok(event(2, 20))).unwrap();
    assert_eq!(noop_cx_poll(&mut merged), Poll::Pending);

    // An error passes although no head can be selected.
    second_tx.send(Err(TestError("gap"))).unwrap();
    assert_eq!(noop_cx_poll(&mut merged), Poll::Ready(Some(Err(TestError("gap")))));

    // The input that failed is still missing a head, and the other head is kept.
    assert_eq!(noop_cx_poll(&mut merged), Poll::Pending);
    second_tx.send(Ok(event(1, 10))).unwrap();
    assert_eq!(noop_cx_poll(&mut merged), Poll::Ready(Some(Ok(event(1, 10)))));
    drop(second_tx);
    assert_eq!(noop_cx_poll(&mut merged), Poll::Ready(Some(Ok(event(2, 20)))));
    drop(first_tx);
    assert_eq!(noop_cx_poll(&mut merged), Poll::Ready(None));
    assert_eq!(noop_cx_poll(&mut merged), Poll::Ready(None));
}

#[test]
fn try_merge_without_its_errors_is_the_merge_of_the_successes() {
    let streams = vec![
        futures::stream::iter(vec![
            Ok(event(1, 10)),
            Err(TestError("a")),
            Err(TestError("b")),
            Ok(event(4, 40)),
        ]),
        futures::stream::iter(vec![Err(TestError("c")), Ok(event(2, 20)), Ok(event(3, 30))]),
    ];
    let values = futures::executor::block_on(try_merge_ordered(streams).collect::<Vec<_>>());
    let successes: Vec<&Event> = values.iter().filter_map(|value| value.as_ref().ok()).collect();
    assert_eq!(
        successes,
        vec![&event(1, 10), &event(2, 20), &event(3, 30), &event(4, 40)]
    );
    let mut errors: Vec<&str> =
        values.iter().filter_map(|value| value.as_ref().err()).map(|error| error.0).collect();
    errors.sort_unstable();
    assert_eq!(errors, vec!["a", "b", "c"]);
}

#[test]
fn try_merge_ready_errors_do_not_monopolize_the_scan() {
    let failing = futures::stream::repeat_with(|| Err::<Event, _>(TestError("again"))).boxed();
    let (tx, rx) = tokio::sync::mpsc::unbounded_channel();
    let mut merged = try_merge_ordered(vec![failing, MpscStream(rx).boxed()]);

    assert_eq!(noop_cx_poll(&mut merged), Poll::Ready(Some(Err(TestError("again")))));
    tx.send(Err(TestError("other"))).unwrap();
    // The scan went on behind the input that failed, so the other one has its turn.
    assert_eq!(noop_cx_poll(&mut merged), Poll::Ready(Some(Err(TestError("other")))));
    assert_eq!(noop_cx_poll(&mut merged), Poll::Ready(Some(Err(TestError("again")))));
}

#[test]
fn try_merge_error_interrupts_a_budgeted_scan() {
    // The error lies behind the inputs that one poll may ask.
    let streams = (0..=WORK_BUDGET)
        .map(|value| {
            let items = if value == WORK_BUDGET {
                vec![Err(TestError("late")), Ok(event(0, 1000))]
            } else {
                vec![Ok(event(value as u32 + 1, value as u32))]
            };
            futures::stream::iter(items)
        })
        .collect::<Vec<_>>();
    let mut merged = try_merge_ordered(streams);

    assert_eq!(noop_cx_poll(&mut merged), Poll::Pending);
    assert_eq!(noop_cx_poll(&mut merged), Poll::Ready(Some(Err(TestError("late")))));
    // A complete scan follows, and no head was lost.
    let values = futures::executor::block_on(merged.collect::<Vec<_>>());
    assert_eq!(values.len(), WORK_BUDGET + 1);
    assert_eq!(values[0], Ok(event(0, 1000)));
    assert_eq!(values[1], Ok(event(1, 0)));
    assert_eq!(values[WORK_BUDGET], Ok(event(WORK_BUDGET as u32, WORK_BUDGET as u32 - 1)));
}

#[test]
fn try_merge_of_nothing_completes() {
    let none: Vec<futures::stream::Empty<Result<Event, TestError>>> = vec![];
    assert_eq!(noop_cx_poll(&mut try_merge_ordered(none)), Poll::Ready(None));
}

#[test]
fn scan_wake_counts_and_hands_out_the_latest_waker_once() {
    let mut shared: ScanWake<u32> = ScanWake::new();
    assert_eq!(shared.generation(), 0);
    assert_eq!(shared.wake_by_ref(), None);
    assert_eq!(shared.generation(), 1);
    shared.register(7);
    shared.register(8);
    assert_eq!(shared.generation(), 1);
    assert_eq!(shared.wake_by_ref(), Some(8));
    assert_eq!(shared.wake_by_ref(), None);
    assert_eq!(shared.generation(), 3);
}
