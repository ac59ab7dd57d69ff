use std::future::{poll_fn, Future};
use std::marker::PhantomData;
use std::pin::Pin;
use std::sync::atomic::{AtomicUsize, Ordering};
use std::sync::{Arc, Mutex, MutexGuard, PoisonError, Weak};
use std::task::{Context, Poll, Waker};
use std::time::Duration;

use futures::future::BoxFuture;
use futures::stream::{self, BoxStream};
use futures::{FutureExt, Stream, StreamExt};
use streamx::{
    DistinctStep, DriverStep, DriverTurn, ReplayHub, ReplayPoll, ShareDriver, ShareHub,
    StreamPoll, Timer, WithLatestStep,
};

/// Locks, whether or not another holder panicked.
fn lock<T>(mutex: &Mutex<T>) -> MutexGuard<'_, T> {
    mutex.lock().unwrap_or_else(PoisonError::into_inner)
}

/// Wakes whom a turn hands out.
fn wake(waker: Option<Waker>) {
    if let Some(waker) = waker {
        waker.wake();
    }
}

/// What a stream's poll gave, as the library takes it.
fn stream_poll<T>(poll: Poll<Option<T>>) -> StreamPoll<T> {
    match poll {
        Poll::Ready(Some(item)) => StreamPoll::Item(item),
        Poll::Ready(None) => StreamPoll::End,
        Poll::Pending => StreamPoll::Pending,
    }
}

/// What the library's poll gave, as a stream returns it.
fn into_poll<T>(poll: StreamPoll<T>) -> Poll<Option<T>> {
    match poll {
        StreamPoll::Item(item) => Poll::Ready(Some(item)),
        StreamPoll::End => Poll::Ready(None),
        StreamPoll::Pending => Poll::Pending,
    }
}

/// An operator with a background driver and a single consumer.
trait HotOperator {
    type Item;

    /// Notes that the driver runs, where the operator does not take that from the
    /// driver's first report.
    fn mark_driver_started(&mut self) -> Option<Waker> {
        None
    }

    fn finish(&mut self) -> Option<Waker>;

    fn poll_next(&mut self, waker: Waker) -> StreamPoll<Self::Item>;
}

/// An operator whose driver polls one source, and deadlines if it has any.
trait SourceOperator: HotOperator {
    fn source_polled(&mut self, outcome: StreamPoll<Self::Item>) -> DriverTurn<Waker>;

    fn deadline_polled(&mut self, ready: bool) -> DriverTurn<Waker>;
}

/// Completes an operator however its driver ends.
struct CloseOnDrop<M: HotOperator>(Arc<Mutex<M>>);

impl<M: HotOperator> Drop for CloseOnDrop<M> {
    fn drop(&mut self) {
        let waker = lock(&self.0).finish();
        wake(waker);
    }
}

/// The consumer and the task of a hot operator.
struct HotStream<M> {
    shared: Arc<Mutex<M>>,
    task: tokio::task::JoinHandle<()>,
}

impl<M: HotOperator> HotStream<M> {
    fn spawn<TFuture, TBuild>(operator: M, build: TBuild) -> Self
    where
        M: Send + 'static,
        TFuture: Future<Output = ()> + Send + 'static,
        TBuild: FnOnce(Arc<Mutex<M>>) -> TFuture + Send + 'static,
    {
        let shared = Arc::new(Mutex::new(operator));
        let driven = Arc::clone(&shared);
        let close_on_drop = CloseOnDrop(Arc::clone(&shared));
        let task = tokio::spawn(async move {
            let _close_on_drop = close_on_drop;
            let waker = lock(&driven).mark_driver_started();
            wake(waker);
            build(driven).await;
        });
        HotStream { shared, task }
    }

    fn lock(&self) -> MutexGuard<'_, M> {
        lock(&self.shared)
    }

    fn poll_next(&self, cx: &mut Context<'_>) -> Poll<Option<M::Item>> {
        into_poll(self.lock().poll_next(cx.waker().clone()))
    }
}

impl<M> Drop for HotStream<M> {
    fn drop(&mut self) {
        self.task.abort();
    }
}

/// Drives an operator with one source until it has completed.
async fn drive<M, S>(shared: Arc<Mutex<M>>, source: S, mut scheduler: Option<Scheduler>)
where
    M: SourceOperator + Send + 'static,
    S: Stream<Item = M::Item> + Send + 'static,
{
    let mut source = Box::pin(source);
    let mut deadline: Option<BoxFuture<'static, ()>> = None;
    loop {
        let finished = poll_fn(|cx| {
            drive_turn(&shared, source.as_mut(), &mut scheduler, &mut deadline, cx)
        })
        .await;
        if finished {
            return;
        }
        tokio::task::yield_now().await;
    }
}

/// Drives until the operator yields (`false`), completes (`true`) or parks.
fn drive_turn<M, S>(
    shared: &Mutex<M>,
    mut source: Pin<&mut S>,
    scheduler: &mut Option<Scheduler>,
    deadline: &mut Option<BoxFuture<'static, ()>>,
    cx: &mut Context<'_>,
) -> Poll<bool>
where
    M: SourceOperator,
    S: Stream<Item = M::Item>,
{
    let mut step = DriverStep::PollSource;
    loop {
        let turn = match step {
            DriverStep::PollSource => {
                let outcome = stream_poll(source.as_mut().poll_next(cx));
                lock(shared).source_polled(outcome)
            }
            DriverStep::PollDeadline => {
                let ready = match deadline.as_mut() {
                    Some(scheduled) => scheduled.poll_unpin(cx).is_ready(),
                    None => false,
                };
                lock(shared).deadline_polled(ready)
            }
            DriverStep::Yield => return Poll::Ready(false),
            DriverStep::Park => return Poll::Pending,
            DriverStep::Finish => return Poll::Ready(true),
        };
        match turn.timer {
            Timer::Keep => {}
            Timer::Start => *deadline = scheduler.as_mut().map(|scheduler| scheduler.schedule()),
            Timer::Stop => *deadline = None,
        }
        wake(turn.wake);
        step = turn.step;
    }
}

/// Where the deadlines of a timed operator come from.
enum Scheduler {
    Duration(Duration),
    AsyncFn(Box<dyn Fn() -> BoxFuture<'static, ()> + Send>),
}

impl Scheduler {
    fn schedule(&self) -> BoxFuture<'static, ()> {
        match self {
            Scheduler::Duration(duration) => tokio::time::sleep(*duration).boxed(),
            Scheduler::AsyncFn(function) => function(),
        }
    }
}

impl From<Duration> for Scheduler {
    fn from(duration: Duration) -> Self {
        Scheduler::Duration(duration)
    }
}

impl<TFunction, TFuture> From<TFunction> for Scheduler
where
    TFunction: Fn() -> TFuture + Send + 'static,
    TFuture: Future<Output = ()> + Send + 'static,
{
    fn from(function: TFunction) -> Self {
        Scheduler::AsyncFn(Box::new(move || function().boxed()))
    }
}

impl<T> HotOperator for streamx::LatestStream<T, Waker> {
    type Item = T;

    fn finish(&mut self) -> Option<Waker> {
        self.close()
    }

    fn poll_next(&mut self, waker: Waker) -> StreamPoll<T> {
        self.poll_next(waker)
    }
}

impl<T> SourceOperator for streamx::LatestStream<T, Waker> {
    fn source_polled(&mut self, outcome: StreamPoll<T>) -> DriverTurn<Waker> {
        self.source_polled(outcome)
    }

    fn deadline_polled(&mut self, _ready: bool) -> DriverTurn<Waker> {
        DriverTurn { step: DriverStep::PollSource, timer: Timer::Keep, wake: None }
    }
}

/// A hot stream that retains at most one unconsumed upstream item.
///
/// The upstream is polled by a Tokio task as soon as this value is constructed.
/// Dropping this stream aborts the task and releases upstream.
struct LatestStream<TSource>
where
    TSource: Stream,
{
    inner: HotStream<streamx::LatestStream<TSource::Item, Waker>>,
    source: PhantomData<fn() -> TSource>,
}

impl<TSource> Stream for LatestStream<TSource>
where
    TSource: Stream,
{
    type Item = TSource::Item;

    fn poll_next(self: Pin<&mut Self>, cx: &mut Context<'_>) -> Poll<Option<Self::Item>> {
        self.inner.poll_next(cx)
    }
}

/// Spawns the driver of a latest-value stream.
fn spawn_latest<S>(source: S) -> HotStream<streamx::LatestStream<S::Item, Waker>>
where
    S: Stream + Send + 'static,
    S::Item: Send + 'static,
{
    HotStream::spawn(streamx::latest(), |shared| drive(shared, source, None))
}

/// Extension trait that adds [`latest`](StreamLatestExt::latest) to streams.
trait StreamLatestExt: Stream + Sized {
    /// Actively poll this stream and retain only its newest unconsumed item.
    ///
    /// This must be called from within a Tokio runtime.
    fn latest(self) -> LatestStream<Self>
    where
        Self: Send + 'static,
        Self::Item: Send + 'static,
    {
        LatestStream { inner: spawn_latest(self), source: PhantomData }
    }
}

impl<T: Stream + Sized> StreamLatestExt for T {}

impl<T> HotOperator for streamx::DebounceStream<T, Waker> {
    type Item = T;

    fn mark_driver_started(&mut self) -> Option<Waker> {
        self.mark_driver_started()
    }

    fn finish(&mut self) -> Option<Waker> {
        self.close()
    }

    fn poll_next(&mut self, waker: Waker) -> StreamPoll<T> {
        self.poll_next(waker)
    }
}

impl<T> SourceOperator for streamx::DebounceStream<T, Waker> {
    fn source_polled(&mut self, outcome: StreamPoll<T>) -> DriverTurn<Waker> {
        self.source_polled(outcome)
    }

    fn deadline_polled(&mut self, ready: bool) -> DriverTurn<Waker> {
        self.deadline_polled(ready)
    }
}

/// A hot debounce stream with a bounded, drop-oldest output queue.
///
/// Upstream arrival time and the scheduler decide what is emitted. Downstream
/// polling only drains completed results.
struct DebounceStream<TSource>
where
    TSource: Stream,
{
    inner: HotStream<streamx::DebounceStream<TSource::Item, Waker>>,
    source: PhantomData<fn() -> TSource>,
}

impl<TSource> Stream for DebounceStream<TSource>
where
    TSource: Stream,
{
    type Item = TSource::Item;

    fn poll_next(self: Pin<&mut Self>, cx: &mut Context<'_>) -> Poll<Option<Self::Item>> {
        self.inner.poll_next(cx)
    }
}

/// Extension trait that adds [`debounce`](StreamDebounceExt::debounce) to streams.
trait StreamDebounceExt: Stream + Sized {
    /// Emit what `scheduler` lets through.
    ///
    /// `capacity` bounds the completed, unconsumed results. A full queue drops its
    /// oldest result. This must be called from within a Tokio runtime.
    fn debounce<TScheduler>(self, scheduler: TScheduler, capacity: usize) -> DebounceStream<Self>
    where
        Self: Send + 'static,
        Self::Item: Send + 'static,
        TScheduler: Into<Scheduler>,
    {
        assert!(capacity > 0, "capacity must be greater than zero");
        let scheduler = scheduler.into();
        let inner = HotStream::spawn(streamx::debounce(capacity), |shared| {
            drive(shared, self, Some(scheduler))
        });
        DebounceStream { inner, source: PhantomData }
    }
}

impl<T: Stream + Sized> StreamDebounceExt for T {}

impl<T> HotOperator for streamx::ThrottleStream<T, Waker> {
    type Item = T;

    fn mark_driver_started(&mut self) -> Option<Waker> {
        self.mark_driver_started()
    }

    fn finish(&mut self) -> Option<Waker> {
        self.close()
    }

    fn poll_next(&mut self, waker: Waker) -> StreamPoll<T> {
        self.poll_next(waker)
    }
}

impl<T> SourceOperator for streamx::ThrottleStream<T, Waker> {
    fn source_polled(&mut self, outcome: StreamPoll<T>) -> DriverTurn<Waker> {
        self.source_polled(outcome)
    }

    fn deadline_polled(&mut self, ready: bool) -> DriverTurn<Waker> {
        self.deadline_polled(ready)
    }
}

/// A hot throttle stream with a bounded, drop-oldest output queue.
///
/// Upstream arrival time and the scheduler decide what is emitted. Downstream
/// polling only drains completed results.
struct ThrottleStream<TSource>
where
    TSource: Stream,
{
    inner: HotStream<streamx::ThrottleStream<TSource::Item, Waker>>,
    source: PhantomData<fn() -> TSource>,
}

impl<TSource> Stream for ThrottleStream<TSource>
where
    TSource: Stream,
{
    type Item = TSource::Item;

    fn poll_next(self: Pin<&mut Self>, cx: &mut Context<'_>) -> Poll<Option<Self::Item>> {
        self.inner.poll_next(cx)
    }
}

/// Extension trait that adds [`throttle`](StreamThrottleExt::throttle) to streams.
trait StreamThrottleExt: Stream + Sized {
    /// Emit what `scheduler` lets through.
    ///
    /// `capacity` bounds the completed, unconsumed results. A full queue drops its
    /// oldest result. This must be called from within a Tokio runtime.
    fn throttle<TScheduler>(self, scheduler: TScheduler, capacity: usize) -> ThrottleStream<Self>
    where
        Self: Send + 'static,
        Self::Item: Send + 'static,
        TScheduler: Into<Scheduler>,
    {
        assert!(capacity > 0, "capacity must be greater than zero");
        let scheduler = scheduler.into();
        let inner = HotStream::spawn(streamx::throttle(capacity), |shared| {
            drive(shared, self, Some(scheduler))
        });
        ThrottleStream { inner, source: PhantomData }
    }
}

impl<T: Stream + Sized> StreamThrottleExt for T {}

/// A pull-based primary stream paired with a hot, conflating secondary stream.
struct WithLatestFromStream<TSource, TFrom>
where
    TSource: Stream,
    TFrom: Stream,
    TFrom::Item: Clone,
{
    source: Pin<Box<TSource>>,
    from: Option<HotStream<streamx::LatestStream<TFrom::Item, Waker>>>,
    state: streamx::WithLatestFromStream<TFrom::Item>,
}

// The source is pinned independently in `Pin<Box<_>>`; no field of the outer
// stream relies on structural pinning.
impl<TSource, TFrom> Unpin for WithLatestFromStream<TSource, TFrom>
where
    TSource: Stream,
    TFrom: Stream,
    TFrom::Item: Clone,
{
}

impl<TSource, TFrom> Stream for WithLatestFromStream<TSource, TFrom>
where
    TSource: Stream,
    TFrom: Stream,
    TFrom::Item: Clone,
{
    type Item = (TSource::Item, TFrom::Item);

    fn poll_next(self: Pin<&mut Self>, cx: &mut Context<'_>) -> Poll<Option<Self::Item>> {
        let this = self.get_mut();
        let mut step = this.state.begin_poll();
        loop {
            step = match step {
                WithLatestStep::PollSecondary => match this.from.as_ref() {
                    Some(from) => {
                        let waker = cx.waker().clone();
                        let step = this.state.poll_secondary(&mut *from.lock(), waker);
                        if !this.state.has_secondary() {
                            this.from = None;
                        }
                        step
                    }
                    None => WithLatestStep::PollPrimary,
                },
                WithLatestStep::PollPrimary => {
                    let outcome = stream_poll(this.source.as_mut().poll_next(cx));
                    this.state.primary_polled(outcome)
                }
                WithLatestStep::Emit(primary, secondary) => {
                    return Poll::Ready(Some((primary, secondary)));
                }
                WithLatestStep::Yield => {
                    cx.waker().wake_by_ref();
                    return Poll::Pending;
                }
                WithLatestStep::Pending => return Poll::Pending,
                WithLatestStep::Finished => {
                    this.from = None;
                    return Poll::Ready(None);
                }
            };
        }
    }
}

/// Extension trait that adds [`with_latest_from`](StreamWithLatestFromExt::with_latest_from).
trait StreamWithLatestFromExt: Stream + Sized {
    /// Pair primary items with the latest secondary item.
    ///
    /// Only primary items trigger output and remain downstream-backpressured. The
    /// secondary starts polling immediately and is conflated to one latest value.
    /// This must be called from within a Tokio runtime.
    fn with_latest_from<TFrom>(self, from: TFrom) -> WithLatestFromStream<Self, TFrom>
    where
        TFrom: Stream + Send + 'static,
        TFrom::Item: Clone + Send + 'static,
    {
        WithLatestFromStream {
            source: Box::pin(self),
            from: Some(spawn_latest(from)),
            state: streamx::with_latest_from(),
        }
    }
}

impl<T: Stream + Sized> StreamWithLatestFromExt for T {}

impl<T: Clone> HotOperator for streamx::CombineLatestIterStream<T, Waker> {
    type Item = Vec<T>;

    fn mark_driver_started(&mut self) -> Option<Waker> {
        self.mark_driver_started()
    }

    fn finish(&mut self) -> Option<Waker> {
        self.close()
    }

    fn poll_next(&mut self, waker: Waker) -> StreamPoll<Vec<T>> {
        self.poll_next(waker)
    }
}

/// A hot, conflating combination of homogeneous input streams.
struct CombineLatestIterStream<TStream>
where
    TStream: Stream,
{
    inner: HotStream<streamx::CombineLatestIterStream<TStream::Item, Waker>>,
    streams: PhantomData<fn() -> TStream>,
}

impl<TStream> CombineLatestIterStream<TStream>
where
    TStream: Stream + Send + 'static,
    TStream::Item: Clone + Send + 'static,
{
    fn new<TInto>(streams: TInto) -> Self
    where
        TInto: IntoIterator<Item = TStream>,
    {
        let streams = streams.into_iter().collect::<Vec<_>>();
        let operator = streamx::combine_latest_all(streams.len());
        let inner = HotStream::spawn(operator, |shared| async move {
            // Each input gives its items and then, once, its end.
            let inputs = streams
                .into_iter()
                .enumerate()
                .map(|(index, source)| {
                    source
                        .map(move |item| (index, Some(item)))
                        .chain(stream::once(async move { (index, None) }))
                        .boxed()
                })
                .collect::<Vec<BoxStream<'static, (usize, Option<TStream::Item>)>>>();
            let mut events = stream::select_all(inputs);

            while let Some((index, item)) = events.next().await {
                let turn = lock(&shared).input_next(index, item);
                wake(turn.wake);
                match turn.step {
                    DriverStep::Finish => break,
                    DriverStep::Yield => tokio::task::yield_now().await,
                    _ => {}
                }
            }
        });

        CombineLatestIterStream { inner, streams: PhantomData }
    }
}

impl<TStream> Stream for CombineLatestIterStream<TStream>
where
    TStream: Stream,
    TStream::Item: Clone,
{
    type Item = Vec<TStream::Item>;

    fn poll_next(self: Pin<&mut Self>, cx: &mut Context<'_>) -> Poll<Option<Self::Item>> {
        self.inner.poll_next(cx)
    }
}

/// Combine a collection of streams into a hot, conflating state stream.
///
/// This must be called from within a Tokio runtime.
fn combine_latest_all<TInto, TStream>(streams: TInto) -> CombineLatestIterStream<TStream>
where
    TInto: IntoIterator<Item = TStream>,
    TStream: Stream + Send + 'static,
    TStream::Item: Clone + Send + 'static,
{
    CombineLatestIterStream::new(streams)
}

/// Extension trait for [`combine_latest_all`](StreamCombineLatestAllExt::combine_latest_all).
trait StreamCombineLatestAllExt<TStream>
where
    TStream: Stream + Send + 'static,
    TStream::Item: Clone + Send + 'static,
{
    fn combine_latest_all(self) -> CombineLatestIterStream<TStream>;
}

impl<TInto, TStream> StreamCombineLatestAllExt<TStream> for TInto
where
    TInto: IntoIterator<Item = TStream>,
    TStream: Stream + Send + 'static,
    TStream::Item: Clone + Send + 'static,
{
    fn combine_latest_all(self) -> CombineLatestIterStream<TStream> {
        combine_latest_all(self)
    }
}

/// What one of several unlike inputs gave next.
enum Event<A, B, C> {
    First(Option<A>),
    Second(Option<B>),
    Third(Option<C>),
}

/// The items of an input and then, once, its end.
fn with_end<S, E>(source: S, event: fn(Option<S::Item>) -> E) -> BoxStream<'static, E>
where
    S: Stream + Send + 'static,
    S::Item: Send,
    E: Send + 'static,
{
    source
        .map(Some)
        .chain(stream::once(async { None }))
        .map(event)
        .boxed()
}

/// Drives a combination until it has completed.
async fn drive_combination<M, E>(
    shared: Arc<Mutex<M>>,
    inputs: Vec<BoxStream<'static, E>>,
    report: fn(&mut M, E) -> DriverTurn<Waker>,
) {
    let mut events = stream::select_all(inputs);
    while let Some(event) = events.next().await {
        let turn = report(&mut *lock(&shared), event);
        wake(turn.wake);
        match turn.step {
            DriverStep::Finish => break,
            DriverStep::Yield => tokio::task::yield_now().await,
            _ => {}
        }
    }
}

impl<A: Clone, B: Clone> HotOperator for streamx::CombineLatest2Stream<A, B, Waker> {
    type Item = (A, B);

    fn mark_driver_started(&mut self) -> Option<Waker> {
        self.mark_driver_started()
    }

    fn finish(&mut self) -> Option<Waker> {
        self.close()
    }

    fn poll_next(&mut self, waker: Waker) -> StreamPoll<Self::Item> {
        self.poll_next(waker)
    }
}

impl<A: Clone, B: Clone, C: Clone> HotOperator for streamx::CombineLatest3Stream<A, B, C, Waker> {
    type Item = (A, B, C);

    fn mark_driver_started(&mut self) -> Option<Waker> {
        self.mark_driver_started()
    }

    fn finish(&mut self) -> Option<Waker> {
        self.close()
    }

    fn poll_next(&mut self, waker: Waker) -> StreamPoll<Self::Item> {
        self.poll_next(waker)
    }
}

/// The consumer of a combination.
struct CombineLatestStream<M: HotOperator>(HotStream<M>);

impl<M: HotOperator> Stream for CombineLatestStream<M> {
    type Item = M::Item;

    fn poll_next(self: Pin<&mut Self>, cx: &mut Context<'_>) -> Poll<Option<Self::Item>> {
        self.0.poll_next(cx)
    }
}

fn combine_latest2<S1, S2>(
    stream1: S1,
    stream2: S2,
) -> CombineLatestStream<streamx::CombineLatest2Stream<S1::Item, S2::Item, Waker>>
where
    S1: Stream + Send + 'static,
    S1::Item: Clone + Send + 'static,
    S2: Stream + Send + 'static,
    S2::Item: Clone + Send + 'static,
{
    CombineLatestStream(HotStream::spawn(streamx::CombineLatest2Stream::new(), |shared| {
        let inputs = vec![
            with_end(stream1, Event::<S1::Item, S2::Item, ()>::First),
            with_end(stream2, Event::Second),
        ];
        drive_combination(shared, inputs, |combined, event| match event {
            Event::First(item) => combined.input1_next(item),
            Event::Second(item) => combined.input2_next(item),
            Event::Third(_) => unreachable!(),
        })
    }))
}

fn combine_latest3<S1, S2, S3>(
    stream1: S1,
    stream2: S2,
    stream3: S3,
) -> CombineLatestStream<streamx::CombineLatest3Stream<S1::Item, S2::Item, S3::Item, Waker>>
where
    S1: Stream + Send + 'static,
    S1::Item: Clone + Send + 'static,
    S2: Stream + Send + 'static,
    S2::Item: Clone + Send + 'static,
    S3: Stream + Send + 'static,
    S3::Item: Clone + Send + 'static,
{
    CombineLatestStream(HotStream::spawn(streamx::CombineLatest3Stream::new(), |shared| {
        let inputs = vec![
            with_end(stream1, Event::First),
            with_end(stream2, Event::Second),
            with_end(stream3, Event::Third),
        ];
        drive_combination(shared, inputs, |combined, event| match event {
            Event::First(item) => combined.input1_next(item),
            Event::Second(item) => combined.input2_next(item),
            Event::Third(item) => combined.input3_next(item),
        })
    }))
}

/// Polls the source until the filter gives something to return.
fn poll_filtered<S: Stream>(
    mut source: Pin<&mut S>,
    mut filter: impl FnMut(StreamPoll<S::Item>) -> DistinctStep<S::Item>,
    cx: &mut Context<'_>,
) -> Poll<Option<S::Item>> {
    loop {
        let outcome = stream_poll(source.as_mut().poll_next(cx));
        match filter(outcome) {
            DistinctStep::PollSource => {}
            DistinctStep::Emit(item) => return Poll::Ready(Some(item)),
            DistinctStep::Yield => {
                cx.waker().wake_by_ref();
                return Poll::Pending;
            }
            DistinctStep::Pending => return Poll::Pending,
            DistinctStep::End => return Poll::Ready(None),
        }
    }
}

/// A stream that only emits values when they differ from the previous value.
struct DistinctUntilChangedStream<T>
where
    T: Stream,
    T::Item: Clone,
{
    source: Pin<Box<T>>,
    filter: streamx::DistinctUntilChangedStream<T::Item>,
}

// The source is pinned independently in `Pin<Box<_>>`; no field of the outer
// stream relies on structural pinning.
impl<T> Unpin for DistinctUntilChangedStream<T>
where
    T: Stream,
    T::Item: Clone,
{
}

impl<T> Stream for DistinctUntilChangedStream<T>
where
    T: Stream,
    T::Item: PartialEq + Clone,
{
    type Item = T::Item;

    fn poll_next(self: Pin<&mut Self>, cx: &mut Context<'_>) -> Poll<Option<Self::Item>> {
        let this = self.get_mut();
        let filter = &mut this.filter;
        poll_filtered(this.source.as_mut(), |outcome| filter.source_polled(outcome), cx)
    }
}

/// A stream that only emits values when they differ from the previous value,
/// using a custom comparison function.
struct DistinctUntilChangedByStream<T, F>
where
    T: Stream,
    T::Item: Clone,
{
    source: Pin<Box<T>>,
    filter: streamx::DistinctUntilChangedByStream<T::Item, F>,
}

// The source is pinned independently in `Pin<Box<_>>`; no field of the outer
// stream relies on structural pinning.
impl<T, F> Unpin for DistinctUntilChangedByStream<T, F>
where
    T: Stream,
    T::Item: Clone,
{
}

impl<T, F> Stream for DistinctUntilChangedByStream<T, F>
where
    T: Stream,
    T::Item: Clone,
    F: FnMut(&T::Item, &T::Item) -> bool,
{
    type Item = T::Item;

    fn poll_next(self: Pin<&mut Self>, cx: &mut Context<'_>) -> Poll<Option<Self::Item>> {
        let this = self.get_mut();
        let filter = &mut this.filter;
        poll_filtered(this.source.as_mut(), |outcome| filter.source_polled(outcome), cx)
    }
}

/// Extension trait that filters consecutive duplicates.
trait StreamDistinctUntilChangedExt: Stream + Sized {
    /// Filters out consecutive duplicate values.
    fn distinct_until_changed(self) -> DistinctUntilChangedStream<Self>
    where
        Self::Item: PartialEq + Clone,
    {
        DistinctUntilChangedStream {
            source: Box::pin(self),
            filter: streamx::distinct_until_changed(),
        }
    }

    /// Filters out consecutive values that `compare` holds for equal.
    fn distinct_until_changed_by<F>(self, compare: F) -> DistinctUntilChangedByStream<Self, F>
    where
        Self::Item: Clone,
        F: FnMut(&Self::Item, &Self::Item) -> bool,
    {
        DistinctUntilChangedByStream {
            source: Box::pin(self),
            filter: streamx::distinct_until_changed_by(compare),
        }
    }
}

impl<T: Stream + Sized> StreamDistinctUntilChangedExt for T {}

/// What the handles of one shared source have in common.
struct ShareInner<T> {
    hub: Mutex<ShareHub<T>>,
    task: Mutex<Option<tokio::task::JoinHandle<()>>>,
}

/// Closes live delivery however the forwarding task ends.
struct CloseShareOnDrop<T>(Arc<ShareInner<T>>);

impl<T> Drop for CloseShareOnDrop<T> {
    fn drop(&mut self) {
        lock(&self.0.hub).close();
    }
}

impl<T: Clone + Send + 'static> ShareInner<T> {
    fn start<S>(self: &Arc<Self>, source: S)
    where
        S: Stream<Item = T> + Send + 'static,
    {
        let close_on_drop = CloseShareOnDrop(Arc::clone(self));
        let sender = lock(&self.hub).sender();
        let task = tokio::spawn(async move {
            let _close_on_drop = close_on_drop;
            let mut source = Box::pin(source);
            let mut driver = ShareDriver::new();
            while let Some(item) = source.next().await {
                let accepted = sender.broadcast(item).await.is_ok();
                match driver.forwarded(accepted) {
                    DriverStep::Finish => break,
                    DriverStep::Yield => tokio::task::yield_now().await,
                    _ => {}
                }
            }
        });
        *lock(&self.task) = Some(task);
    }

    fn remove_subscription(&self) {
        let stop = lock(&self.hub).remove_subscription();
        if stop {
            if let Some(task) = lock(&self.task).take() {
                task.abort();
            }
        }
    }
}

/// A clonable, immediately-active subscription to one shared upstream stream.
///
/// Every strong handle is registered at construction, clone, or weak upgrade;
/// first polling has no lifecycle meaning.
struct ShareStream<T>
where
    T: Stream + Send + 'static,
    T::Item: Clone + Send + 'static,
{
    inner: Arc<ShareInner<T::Item>>,
    stream: streamx::ShareStream<T::Item>,
    source: PhantomData<fn() -> T>,
}

impl<T> ShareStream<T>
where
    T: Stream + Send + 'static,
    T::Item: Clone + Send + 'static,
{
    fn downgrade(&self) -> ShareStreamWeak<T> {
        ShareStreamWeak { inner: Arc::downgrade(&self.inner), source: PhantomData }
    }
}

impl<T> Clone for ShareStream<T>
where
    T: Stream + Send + 'static,
    T::Item: Clone + Send + 'static,
{
    fn clone(&self) -> Self {
        let stream = {
            let mut hub = lock(&self.inner.hub);
            assert!(hub.can_subscribe(), "too many subscriptions");
            hub.subscribe()
        };
        ShareStream { inner: Arc::clone(&self.inner), stream, source: PhantomData }
    }
}

impl<T> Drop for ShareStream<T>
where
    T: Stream + Send + 'static,
    T::Item: Clone + Send + 'static,
{
    fn drop(&mut self) {
        self.inner.remove_subscription();
    }
}

impl<T> Stream for ShareStream<T>
where
    T: Stream + Send + 'static,
    T::Item: Clone + Send + 'static,
{
    type Item = T::Item;

    fn poll_next(self: Pin<&mut Self>, cx: &mut Context<'_>) -> Poll<Option<Self::Item>> {
        into_poll(self.get_mut().stream.poll_next(cx))
    }
}

/// A non-owning handle to a [`ShareStream`].
struct ShareStreamWeak<T>
where
    T: Stream + Send + 'static,
    T::Item: Clone + Send + 'static,
{
    inner: Weak<ShareInner<T::Item>>,
    source: PhantomData<fn() -> T>,
}

impl<T> Clone for ShareStreamWeak<T>
where
    T: Stream + Send + 'static,
    T::Item: Clone + Send + 'static,
{
    fn clone(&self) -> Self {
        ShareStreamWeak { inner: Weak::clone(&self.inner), source: PhantomData }
    }
}

impl<T> ShareStreamWeak<T>
where
    T: Stream + Send + 'static,
    T::Item: Clone + Send + 'static,
{
    /// Upgrade while the source is live and at least one strong subscriber exists.
    fn upgrade(&self) -> Option<ShareStream<T>> {
        let inner = self.inner.upgrade()?;
        let stream = {
            let mut hub = lock(&inner.hub);
            assert!(hub.can_subscribe(), "too many subscriptions");
            hub.upgrade()?
        };
        Some(ShareStream { inner, stream, source: PhantomData })
    }
}

fn create_share_stream<T>(source: T, capacity: usize, overflow: bool) -> ShareStream<T>
where
    T: Stream + Send + 'static,
    T::Item: Clone + Send + 'static,
{
    assert!(capacity > 0, "capacity must be greater than zero");
    assert!(streamx::can_hold::<T::Item>(capacity), "capacity overflow");
    let (hub, stream) = if overflow {
        streamx::share_overflow(capacity)
    } else {
        streamx::share(capacity)
    };
    let inner = Arc::new(ShareInner { hub: Mutex::new(hub), task: Mutex::new(None) });
    inner.start(source);
    ShareStream { inner, stream, source: PhantomData }
}

trait StreamShareExt: Stream + Sized
where
    Self: Send + 'static,
    Self::Item: Clone + Send + 'static,
{
    /// Losslessly multicast with bounded live capacity and slow-subscriber backpressure.
    ///
    /// This must be called from within a Tokio runtime.
    fn share(self, capacity: usize) -> ShareStream<Self> {
        create_share_stream(self, capacity, false)
    }

    /// Multicast while dropping the oldest live item when capacity is full.
    ///
    /// This must be called from within a Tokio runtime.
    fn share_overflow(self, capacity: usize) -> ShareStream<Self> {
        create_share_stream(self, capacity, true)
    }

    /// Equivalent to `share_overflow(1)`; it does not replay to later subscribers.
    fn share_latest(self) -> ShareStream<Self> {
        self.share_overflow(1)
    }
}

impl<T> StreamShareExt for T
where
    T: Stream + Sized + Send + 'static,
    T::Item: Clone + Send + 'static,
{
}

/// What the handles of one shared source have in common.
struct ReplayInner<T> {
    hub: Mutex<ReplayHub<T>>,
    task: Mutex<Option<tokio::task::JoinHandle<()>>>,
}

/// Closes live delivery however the forwarding task ends.
struct CloseReplayOnDrop<T>(Arc<ReplayInner<T>>);

impl<T> Drop for CloseReplayOnDrop<T> {
    fn drop(&mut self) {
        lock(&self.0.hub).close();
    }
}

impl<T: Clone + Send + 'static> ReplayInner<T> {
    fn start<S>(self: &Arc<Self>, source: S)
    where
        S: Stream<Item = T> + Send + 'static,
    {
        let close_on_drop = CloseReplayOnDrop(Arc::clone(self));
        let inner = Arc::clone(self);
        let sender = lock(&self.hub).sender();
        let task = tokio::spawn(async move {
            let _close_on_drop = close_on_drop;
            let mut source = Box::pin(source);
            let mut driver = ShareDriver::new();
            while let Some(item) = source.next().await {
                let message = {
                    let mut hub = lock(&inner.hub);
                    assert!(hub.can_record(), "share replay sequence exhausted");
                    hub.record(item)
                };
                let accepted = sender.broadcast(message).await.is_ok();
                match driver.forwarded(accepted) {
                    DriverStep::Finish => break,
                    DriverStep::Yield => tokio::task::yield_now().await,
                    _ => {}
                }
            }
        });
        *lock(&self.task) = Some(task);
    }

    fn remove_subscription(&self) {
        let stop = lock(&self.hub).remove_subscription();
        if stop {
            if let Some(task) = lock(&self.task).take() {
                task.abort();
            }
        }
    }
}

/// A clonable, immediately-active shared stream with replay history.
///
/// Every strong handle is registered at construction, clone, or weak upgrade;
/// first polling has no lifecycle meaning.
struct ShareReplayStream<T>
where
    T: Stream + Send + 'static,
    T::Item: Clone + Send + 'static,
{
    inner: Arc<ReplayInner<T::Item>>,
    stream: streamx::ShareReplayStream<T::Item>,
    source: PhantomData<fn() -> T>,
}

// No field relies on structural pinning.
impl<T> Unpin for ShareReplayStream<T>
where
    T: Stream + Send + 'static,
    T::Item: Clone + Send + 'static,
{
}

impl<T> ShareReplayStream<T>
where
    T: Stream + Send + 'static,
    T::Item: Clone + Send + 'static,
{
    fn downgrade(&self) -> ShareReplayStreamWeak<T> {
        ShareReplayStreamWeak { inner: Arc::downgrade(&self.inner), source: PhantomData }
    }
}

impl<T> Clone for ShareReplayStream<T>
where
    T: Stream + Send + 'static,
    T::Item: Clone + Send + 'static,
{
    fn clone(&self) -> Self {
        let stream = {
            let mut hub = lock(&self.inner.hub);
            assert!(hub.can_subscribe(), "too many subscriptions");
            hub.subscribe()
        };
        ShareReplayStream { inner: Arc::clone(&self.inner), stream, source: PhantomData }
    }
}

impl<T> Drop for ShareReplayStream<T>
where
    T: Stream + Send + 'static,
    T::Item: Clone + Send + 'static,
{
    fn drop(&mut self) {
        self.inner.remove_subscription();
    }
}

impl<T> Stream for ShareReplayStream<T>
where
    T: Stream + Send + 'static,
    T::Item: Clone + Send + 'static,
{
    type Item = T::Item;

    fn poll_next(self: Pin<&mut Self>, cx: &mut Context<'_>) -> Poll<Option<Self::Item>> {
        match self.get_mut().stream.poll_next(cx) {
            ReplayPoll::Item(item) => Poll::Ready(Some(item)),
            ReplayPoll::End => Poll::Ready(None),
            ReplayPoll::Pending => Poll::Pending,
            ReplayPoll::Yield => {
                cx.waker().wake_by_ref();
                Poll::Pending
            }
        }
    }
}

/// A non-owning handle to a [`ShareReplayStream`].
struct ShareReplayStreamWeak<T>
where
    T: Stream + Send + 'static,
    T::Item: Clone + Send + 'static,
{
    inner: Weak<ReplayInner<T::Item>>,
    source: PhantomData<fn() -> T>,
}

impl<T> Clone for ShareReplayStreamWeak<T>
where
    T: Stream + Send + 'static,
    T::Item: Clone + Send + 'static,
{
    fn clone(&self) -> Self {
        ShareReplayStreamWeak { inner: Weak::clone(&self.inner), source: PhantomData }
    }
}

impl<T> ShareReplayStreamWeak<T>
where
    T: Stream + Send + 'static,
    T::Item: Clone + Send + 'static,
{
    /// Upgrade while the source is live and at least one strong subscriber exists.
    fn upgrade(&self) -> Option<ShareReplayStream<T>> {
        let inner = self.inner.upgrade()?;
        let stream = {
            let mut hub = lock(&inner.hub);
            assert!(hub.can_subscribe(), "too many subscriptions");
            hub.upgrade()?
        };
        Some(ShareReplayStream { inner, stream, source: PhantomData })
    }
}

fn create_share_replay_stream<T>(
    source: T,
    buffer_size: usize,
    capacity: usize,
    overflow: bool,
) -> ShareReplayStream<T>
where
    T: Stream + Send + 'static,
    T::Item: Clone + Send + 'static,
{
    assert!(capacity > 0, "capacity must be greater than zero");
    assert!(streamx::can_hold::<(u64, T::Item)>(capacity), "capacity overflow");
    let (hub, stream) = if overflow {
        streamx::share_replay_overflow(buffer_size, capacity)
    } else {
        streamx::share_replay(buffer_size, capacity)
    };
    let inner = Arc::new(ReplayInner { hub: Mutex::new(hub), task: Mutex::new(None) });
    inner.start(source);
    ShareReplayStream { inner, stream, source: PhantomData }
}

trait StreamShareReplayExt: Stream + Sized
where
    Self: Send + 'static,
    Self::Item: Clone + Send + 'static,
{
    /// Lossless sharing with independent replay history and live capacity.
    ///
    /// This must be called from within a Tokio runtime.
    fn share_replay(self, buffer_size: usize, capacity: usize) -> ShareReplayStream<Self> {
        create_share_replay_stream(self, buffer_size, capacity, false)
    }

    /// Replay plus drop-oldest live delivery.
    ///
    /// This must be called from within a Tokio runtime.
    fn share_replay_overflow(self, buffer_size: usize, capacity: usize) -> ShareReplayStream<Self> {
        create_share_replay_stream(self, buffer_size, capacity, true)
    }

    /// Equivalent to `share_replay_overflow(1, 1)`.
    fn share_replay_latest(self) -> ShareReplayStream<Self> {
        self.share_replay_overflow(1, 1)
    }
}

impl<T> StreamShareReplayExt for T
where
    T: Stream + Sized + Send + 'static,
    T::Item: Clone + Send + 'static,
{
}

/// Runs a test on a runtime of its own.
fn run<F: Future>(test: F) -> F::Output {
    tokio::runtime::Builder::new_current_thread()
        .enable_time()
        .build()
        .unwrap()
        .block_on(test)
}

/// What an unbounded channel receives, as a stream.
struct MpscStream<T>(tokio::sync::mpsc::UnboundedReceiver<T>);

impl<T> Stream for MpscStream<T> {
    type Item = T;

    fn poll_next(mut self: Pin<&mut Self>, cx: &mut Context<'_>) -> Poll<Option<Self::Item>> {
        self.0.poll_recv(cx)
    }
}

#[test]
fn latest_progresses_before_downstream_poll() {
    run(async {
        let (tx, rx) = tokio::sync::mpsc::unbounded_channel();
        let mut latest = MpscStream(rx).latest();

        tx.send(1).unwrap();
        tx.send(2).unwrap();
        tx.send(3).unwrap();
        tokio::time::sleep(Duration::from_millis(10)).await;

        assert_eq!(latest.next().await, Some(3));
    });
}

#[test]
fn latest_conflates_between_polls() {
    run(async {
        let (tx, rx) = tokio::sync::mpsc::unbounded_channel();
        let mut latest = MpscStream(rx).latest();

        tx.send(1).unwrap();
        assert_eq!(latest.next().await, Some(1));

        tx.send(2).unwrap();
        tx.send(3).unwrap();
        tokio::time::sleep(Duration::from_millis(10)).await;
        assert_eq!(latest.next().await, Some(3));
    });
}

#[test]
fn latest_drains_final_item_before_completion() {
    run(async {
        let mut latest = futures::stream::iter([1, 2, 3]).latest();

        assert_eq!(latest.next().await, Some(3));
        assert_eq!(latest.next().await, None);
    });
}

#[test]
fn latest_starts_upstream_without_a_downstream_poll() {
    run(async {
        struct PollCounter {
            polls: Arc<AtomicUsize>,
        }

        impl Stream for PollCounter {
            type Item = ();

            fn poll_next(self: Pin<&mut Self>, _cx: &mut Context<'_>) -> Poll<Option<Self::Item>> {
                self.polls.fetch_add(1, Ordering::Relaxed);
                Poll::Pending
            }
        }

        let polls = Arc::new(AtomicUsize::new(0));
        let latest = PollCounter {
            polls: Arc::clone(&polls),
        }
        .latest();

        tokio::time::sleep(Duration::from_millis(10)).await;
        assert!(polls.load(Ordering::Relaxed) > 0);

        drop(latest);
    });
}

#[test]
fn dropping_latest_releases_upstream() {
    run(async {
        struct DropTracker {
            receiver: tokio::sync::mpsc::UnboundedReceiver<()>,
            _retained: Arc<()>,
        }

        impl Stream for DropTracker {
            type Item = ();

            fn poll_next(mut self: Pin<&mut Self>, cx: &mut Context<'_>) -> Poll<Option<Self::Item>> {
                self.receiver.poll_recv(cx)
            }
        }

        let retained = Arc::new(());
        let weak = Arc::downgrade(&retained);
        let (_tx, receiver) = tokio::sync::mpsc::unbounded_channel();
        let latest = DropTracker {
            receiver,
            _retained: Arc::clone(&retained),
        }
        .latest();
        drop(retained);

        drop(latest);
        tokio::task::yield_now().await;

        assert!(weak.upgrade().is_none());
    });
}

#[test]
fn debounce_is_driven_without_downstream_polling() {
    run(async {
        let (tx, rx) = tokio::sync::mpsc::unbounded_channel();
        let mut stream = MpscStream(rx).debounce(Duration::from_millis(20), 4);

        tx.send(1).unwrap();
        tokio::time::sleep(Duration::from_millis(10)).await;
        tx.send(2).unwrap();
        tokio::time::sleep(Duration::from_millis(30)).await;

        assert_eq!(stream.next().await, Some(2));
    });
}

#[test]
fn debounce_completed_queue_drops_oldest_at_capacity() {
    run(async {
        let (tx, rx) = tokio::sync::mpsc::unbounded_channel();
        let stream = MpscStream(rx).debounce(Duration::from_millis(5), 2);

        for value in 1..=3 {
            tx.send(value).unwrap();
            tokio::time::sleep(Duration::from_millis(10)).await;
        }
        drop(tx);
        tokio::time::sleep(Duration::from_millis(10)).await;

        assert_eq!(stream.collect::<Vec<_>>().await, vec![2, 3]);
    });
}

#[test]
fn debounce_flushes_pending_item_when_source_completes() {
    run(async {
        let (tx, rx) = tokio::sync::mpsc::unbounded_channel();
        let mut stream = MpscStream(rx).debounce(Duration::from_secs(3600), 1);

        tx.send(42).unwrap();
        drop(tx);

        assert_eq!(stream.next().await, Some(42));
        assert_eq!(stream.next().await, None);
    });
}

#[test]
fn upstream_wins_when_source_and_deadline_are_ready() {
    run(async {
        let mut stream = futures::stream::iter([1, 2, 3]).debounce(|| async {}, 1);

        assert_eq!(stream.next().await, Some(3));
        assert_eq!(stream.next().await, None);
    });
}

#[test]
fn debounce_does_not_require_clone_items() {
    run(async {
        struct NotClone(u32);

        let mut stream = futures::stream::iter([NotClone(7)]).debounce(|| async {}, 1);
        assert_eq!(stream.next().await.map(|item| item.0), Some(7));
    });
}

#[test]
fn throttle_is_driven_without_downstream_polling() {
    run(async {
        let (tx, rx) = tokio::sync::mpsc::unbounded_channel();
        let mut stream = MpscStream(rx).throttle(Duration::from_millis(20), 4);

        tx.send(1).unwrap();
        tx.send(2).unwrap();
        tokio::time::sleep(Duration::from_millis(30)).await;
        tx.send(3).unwrap();
        tokio::time::sleep(Duration::from_millis(10)).await;

        assert_eq!(stream.next().await, Some(1));
        assert_eq!(stream.next().await, Some(3));
    });
}

#[test]
fn throttle_completed_queue_drops_oldest_at_capacity() {
    run(async {
        let (tx, rx) = tokio::sync::mpsc::unbounded_channel();
        let stream = MpscStream(rx).throttle(Duration::from_millis(5), 2);

        for value in 1..=3 {
            tx.send(value).unwrap();
            tokio::time::sleep(Duration::from_millis(10)).await;
        }
        drop(tx);
        tokio::time::sleep(Duration::from_millis(10)).await;

        assert_eq!(stream.collect::<Vec<_>>().await, vec![2, 3]);
    });
}

#[test]
fn throttle_has_no_trailing_flush() {
    run(async {
        let (tx, rx) = tokio::sync::mpsc::unbounded_channel();
        let stream = MpscStream(rx).throttle(Duration::from_secs(3600), 2);

        tx.send(1).unwrap();
        tx.send(2).unwrap();
        drop(tx);

        assert_eq!(stream.collect::<Vec<_>>().await, vec![1]);
    });
}

#[test]
fn source_wins_a_deadline_tie() {
    run(async {
        let stream = futures::stream::iter([1, 2, 3]).throttle(|| async {}, 2);

        assert_eq!(stream.collect::<Vec<_>>().await, vec![1, 3]);
    });
}

#[test]
fn waits_for_every_initial_value() {
    run(async {
        let (tx1, rx1) = tokio::sync::mpsc::unbounded_channel();
        let (tx2, rx2) = tokio::sync::mpsc::unbounded_channel();
        let mut combined = combine_latest2(MpscStream(rx1), MpscStream(rx2));

        tx1.send(1).unwrap();
        assert!(
            tokio::time::timeout(Duration::from_millis(20), combined.next())
                .await
                .is_err()
        );

        tx2.send(10).unwrap();
        assert_eq!(combined.next().await, Some((1, 10)));
    });
}

#[test]
fn conflates_updates_while_downstream_is_idle() {
    run(async {
        let (tx1, rx1) = tokio::sync::mpsc::unbounded_channel();
        let (tx2, rx2) = tokio::sync::mpsc::unbounded_channel();
        let mut combined = combine_latest2(MpscStream(rx1), MpscStream(rx2));

        tx1.send(1).unwrap();
        tx2.send(10).unwrap();
        tokio::time::sleep(Duration::from_millis(10)).await;
        assert_eq!(combined.next().await, Some((1, 10)));

        tx1.send(2).unwrap();
        tx2.send(11).unwrap();
        tx1.send(3).unwrap();
        tokio::time::sleep(Duration::from_millis(10)).await;
        assert_eq!(combined.next().await, Some((3, 11)));
    });
}

#[test]
fn completion_retains_existing_latest_values() {
    run(async {
        let (tx1, rx1) = tokio::sync::mpsc::unbounded_channel();
        let (tx2, rx2) = tokio::sync::mpsc::unbounded_channel();
        let mut combined = combine_latest2(MpscStream(rx1), MpscStream(rx2));

        tx1.send(1).unwrap();
        tx2.send(10).unwrap();
        assert_eq!(combined.next().await, Some((1, 10)));
        drop(tx1);

        tx2.send(11).unwrap();
        assert_eq!(combined.next().await, Some((1, 11)));
        drop(tx2);
        assert_eq!(combined.next().await, None);
    });
}

#[test]
fn ends_if_an_input_completes_without_a_value() {
    run(async {
        let combined = combine_latest2(futures::stream::iter([1]), futures::stream::empty::<u32>());

        assert_eq!(combined.collect::<Vec<_>>().await, vec![]);
    });
}

#[test]
fn supports_three_inputs() {
    run(async {
        let combined = combine_latest3(
            futures::stream::iter([1, 2]),
            futures::stream::iter([10, 20]),
            futures::stream::iter([100, 200]),
        );

        assert_eq!(combined.collect::<Vec<_>>().await, vec![(2, 20, 200)]);
    });
}

#[test]
fn combines_and_conflates_while_unpolled() {
    run(async {
        let (tx1, rx1) = tokio::sync::mpsc::unbounded_channel();
        let (tx2, rx2) = tokio::sync::mpsc::unbounded_channel();
        let mut combined = vec![MpscStream(rx1), MpscStream(rx2)].combine_latest_all();

        tx1.send(1).unwrap();
        tx2.send(10).unwrap();
        tx1.send(2).unwrap();
        tx2.send(11).unwrap();
        tokio::time::sleep(Duration::from_millis(10)).await;

        assert_eq!(combined.next().await, Some(vec![2, 11]));
    });
}

#[test]
fn completed_inputs_retain_their_latest_value() {
    run(async {
        let (tx1, rx1) = tokio::sync::mpsc::unbounded_channel();
        let (tx2, rx2) = tokio::sync::mpsc::unbounded_channel();
        let mut combined = combine_latest_all(vec![MpscStream(rx1), MpscStream(rx2)]);

        tx1.send(1).unwrap();
        tx2.send(10).unwrap();
        assert_eq!(combined.next().await, Some(vec![1, 10]));
        drop(tx1);

        tx2.send(11).unwrap();
        assert_eq!(combined.next().await, Some(vec![1, 11]));
        drop(tx2);
        assert_eq!(combined.next().await, None);
    });
}

#[test]
fn ends_if_any_input_has_no_value() {
    run(async {
        let combined = vec![
            futures::stream::iter(vec![1, 2]),
            futures::stream::iter(Vec::<u32>::new()),
        ]
        .combine_latest_all();

        assert_eq!(combined.collect::<Vec<_>>().await, Vec::<Vec<u32>>::new());
    });
}

#[test]
fn empty_collection_completes() {
    run(async {
        let streams: Vec<futures::stream::Empty<u32>> = vec![];
        assert_eq!(streams.combine_latest_all().next().await, None);
    });
}

#[test]
fn secondary_progresses_before_downstream_poll() {
    run(async {
        let (source_tx, source_rx) = tokio::sync::mpsc::unbounded_channel();
        let (from_tx, from_rx) = tokio::sync::mpsc::unbounded_channel();
        let mut stream = MpscStream(source_rx).with_latest_from(MpscStream(from_rx));

        from_tx.send(10).unwrap();
        from_tx.send(20).unwrap();
        tokio::time::sleep(Duration::from_millis(10)).await;
        source_tx.send(1).unwrap();

        assert_eq!(stream.next().await, Some((1, 20)));
    });
}

#[test]
fn only_primary_items_trigger_output() {
    run(async {
        let (source_tx, source_rx) = tokio::sync::mpsc::unbounded_channel();
        let (from_tx, from_rx) = tokio::sync::mpsc::unbounded_channel();
        let mut stream = MpscStream(source_rx).with_latest_from(MpscStream(from_rx));

        from_tx.send(10).unwrap();
        tokio::time::sleep(Duration::from_millis(10)).await;
        assert!(
            tokio::time::timeout(Duration::from_millis(20), stream.next())
                .await
                .is_err()
        );

        source_tx.send(1).unwrap();
        assert_eq!(stream.next().await, Some((1, 10)));
    });
}

#[test]
fn primary_is_not_polled_until_downstream_demands() {
    run(async {
        struct CountPending {
            polls: Arc<AtomicUsize>,
        }

        impl Stream for CountPending {
            type Item = u32;

            fn poll_next(self: Pin<&mut Self>, _cx: &mut Context<'_>) -> Poll<Option<Self::Item>> {
                self.polls.fetch_add(1, Ordering::Relaxed);
                Poll::Pending
            }
        }

        let primary_polls = Arc::new(AtomicUsize::new(0));
        let secondary_polls = Arc::new(AtomicUsize::new(0));
        let stream = CountPending {
            polls: Arc::clone(&primary_polls),
        }
        .with_latest_from(CountPending {
            polls: Arc::clone(&secondary_polls),
        });

        tokio::time::sleep(Duration::from_millis(10)).await;
        assert_eq!(primary_polls.load(Ordering::Relaxed), 0);
        assert!(secondary_polls.load(Ordering::Relaxed) > 0);
        drop(stream);
    });
}

#[test]
fn completed_secondary_reuses_its_last_value() {
    run(async {
        let source = futures::stream::iter([1, 2, 3]);
        let from = futures::stream::iter([10, 20]);
        let stream = source.with_latest_from(from);

        assert_eq!(
            stream.collect::<Vec<_>>().await,
            vec![(1, 20), (2, 20), (3, 20)]
        );
    });
}

#[test]
fn empty_secondary_discards_primary_and_completes_with_it() {
    run(async {
        let stream = futures::stream::iter([1, 2, 3]).with_latest_from(futures::stream::empty::<u32>());

        assert_eq!(stream.collect::<Vec<_>>().await, vec![]);
    });
}

#[test]
fn infinite_ready_primary_yields_without_secondary_state() {
    run(async {
        let mut stream =
            futures::stream::repeat(1_u32).with_latest_from(futures::stream::pending::<u32>());

        assert!(
            tokio::time::timeout(Duration::from_millis(10), stream.next())
                .await
                .is_err()
        );
    });
}

#[test]
fn restarted_chain_uses_replayed_secondary_without_a_new_update() {
    run(async {
        let (from_tx, from_rx) = tokio::sync::mpsc::unbounded_channel();
        let shared_from = MpscStream(from_rx).share_replay_latest();

        from_tx.send(10).unwrap();
        tokio::time::sleep(Duration::from_millis(10)).await;

        let first = futures::stream::pending::<u32>()
            .with_latest_from(shared_from.clone())
            .latest();
        drop(first);

        let (source_tx, source_rx) = tokio::sync::mpsc::unbounded_channel();
        let mut restarted = MpscStream(source_rx)
            .with_latest_from(shared_from.clone())
            .latest();

        source_tx.send(1).unwrap();
        assert_eq!(
            tokio::time::timeout(Duration::from_secs(1), restarted.next()).await,
            Ok(Some((1, 10)))
        );
    });
}

#[test]
fn distinct_until_changed_filters_consecutive_duplicates() {
    run(async {
        let mut stream = futures::stream::iter([1, 1, 2, 2, 3, 1, 1]).distinct_until_changed();

        assert_eq!(stream.next().await, Some(1));
        assert_eq!(stream.next().await, Some(2));
        assert_eq!(stream.next().await, Some(3));
        assert_eq!(stream.next().await, Some(1));
        assert_eq!(stream.next().await, None);
    });
}

#[test]
fn distinct_until_changed_emits_first_value() {
    run(async {
        let mut stream = futures::stream::iter([1, 2, 3]).distinct_until_changed();

        assert_eq!(stream.next().await, Some(1));
        assert_eq!(stream.next().await, Some(2));
        assert_eq!(stream.next().await, Some(3));
        assert_eq!(stream.next().await, None);
    });
}

#[test]
fn distinct_until_changed_handles_all_duplicates() {
    run(async {
        let mut stream = futures::stream::iter([1, 1, 1, 1]).distinct_until_changed();

        assert_eq!(stream.next().await, Some(1));
        assert_eq!(stream.next().await, None);
    });
}

#[test]
fn distinct_until_changed_handles_empty_stream() {
    run(async {
        let mut stream = futures::stream::iter([] as [i32; 0]).distinct_until_changed();

        assert_eq!(stream.next().await, None);
    });
}

#[test]
fn distinct_until_changed_handles_single_value() {
    run(async {
        let mut stream = futures::stream::iter([42]).distinct_until_changed();

        assert_eq!(stream.next().await, Some(42));
        assert_eq!(stream.next().await, None);
    });
}

#[test]
fn distinct_until_changed_works_with_mpsc() {
    run(async {
        let (tx, rx) = tokio::sync::mpsc::unbounded_channel::<u32>();

        let mut stream = MpscStream(rx).distinct_until_changed();

        tx.send(1).unwrap();
        assert_eq!(stream.next().await, Some(1));

        tx.send(1).unwrap();
        // Should skip this duplicate
        tx.send(2).unwrap();
        assert_eq!(stream.next().await, Some(2));

        tx.send(2).unwrap();
        tx.send(2).unwrap();
        tx.send(3).unwrap();
        assert_eq!(stream.next().await, Some(3));

        drop(tx);
        assert_eq!(stream.next().await, None);
    });
}

#[test]
fn distinct_until_changed_by_uses_custom_comparison() {
    run(async {
        let mut stream =
            futures::stream::iter([1, 2, 3, 4, 5]).distinct_until_changed_by(|a, b| a % 2 == b % 2);

        // Should emit when parity changes
        assert_eq!(stream.next().await, Some(1)); // odd
        assert_eq!(stream.next().await, Some(2)); // even (parity changed)
        assert_eq!(stream.next().await, Some(3)); // odd (parity changed)
        assert_eq!(stream.next().await, Some(4)); // even (parity changed)
        assert_eq!(stream.next().await, Some(5)); // odd (parity changed)
        assert_eq!(stream.next().await, None);
    });
}

#[test]
fn distinct_until_changed_by_filters_based_on_custom_logic() {
    run(async {
        let mut stream = futures::stream::iter([1, 2, 3, 4, 5, 6])
            .distinct_until_changed_by(|a, b| (a / 3) == (b / 3));

        // Should emit when the value divided by 3 changes
        assert_eq!(stream.next().await, Some(1)); // 1/3 = 0
        assert_eq!(stream.next().await, Some(3)); // 3/3 = 1 (changed)
        assert_eq!(stream.next().await, Some(6)); // 6/3 = 2 (changed)
        assert_eq!(stream.next().await, None);
    });
}

#[test]
fn distinct_until_changed_by_works_with_mpsc() {
    run(async {
        let (tx, rx) = tokio::sync::mpsc::unbounded_channel::<u32>();

        let mut stream = MpscStream(rx).distinct_until_changed_by(|a, b| a == b);

        tx.send(1).unwrap();
        assert_eq!(stream.next().await, Some(1));

        tx.send(1).unwrap();
        tx.send(2).unwrap();
        assert_eq!(stream.next().await, Some(2));

        drop(tx);
        assert_eq!(stream.next().await, None);
    });
}

#[test]
fn share_overflow_runs_before_first_poll() {
    run(async {
        let mut shared = futures::stream::iter([1, 2, 3, 4, 5]).share_latest();
        tokio::time::sleep(Duration::from_millis(10)).await;

        assert_eq!(shared.next().await, Some(5));
        assert_eq!(shared.next().await, None);
    });
}

#[test]
fn share_backpressures_an_unpolled_strong_subscriber() {
    run(async {
        struct CountingStream {
            next: u32,
            produced: Arc<AtomicUsize>,
        }

        impl Stream for CountingStream {
            type Item = u32;

            fn poll_next(mut self: Pin<&mut Self>, _cx: &mut Context<'_>) -> Poll<Option<Self::Item>> {
                if self.next == 6 {
                    return Poll::Ready(None);
                }
                let item = self.next;
                self.next += 1;
                self.produced.fetch_add(1, Ordering::Relaxed);
                Poll::Ready(Some(item))
            }
        }

        let produced = Arc::new(AtomicUsize::new(0));
        let shared = CountingStream {
            next: 1,
            produced: Arc::clone(&produced),
        }
        .share(2);

        tokio::time::sleep(Duration::from_millis(10)).await;
        assert!(produced.load(Ordering::Relaxed) <= 3);
        assert_eq!(shared.collect::<Vec<_>>().await, vec![1, 2, 3, 4, 5]);
    });
}

#[test]
fn clone_is_active_immediately_and_receives_no_history() {
    run(async {
        let (tx, rx) = tokio::sync::mpsc::unbounded_channel();
        let mut first = MpscStream(rx).share(4);

        tx.send(1).unwrap();
        assert_eq!(first.next().await, Some(1));

        let mut second = first.clone();
        tx.send(2).unwrap();
        assert_eq!(first.next().await, Some(2));
        assert_eq!(second.next().await, Some(2));
    });
}

#[test]
fn weak_upgrade_is_an_active_subscription_before_poll() {
    run(async {
        let (tx, rx) = tokio::sync::mpsc::unbounded_channel();
        let mut current = MpscStream(rx).share(1);
        let weak = current.downgrade();

        tx.send(1).unwrap();
        assert_eq!(current.next().await, Some(1));

        let mut replacement = weak.upgrade().unwrap();
        drop(current);
        tx.send(2).unwrap();
        assert_eq!(replacement.next().await, Some(2));
    });
}

#[test]
fn share_weak_cannot_upgrade_after_source_completion() {
    run(async {
        let mut shared = futures::stream::iter([1]).share_latest();
        let weak = shared.downgrade();

        assert_eq!(shared.next().await, Some(1));
        assert_eq!(shared.next().await, None);
        assert!(weak.upgrade().is_none());
    });
}

#[test]
fn share_weak_does_not_keep_source_alive() {
    run(async {
        let weak = futures::stream::pending::<u32>().share(1).downgrade();
        assert!(weak.upgrade().is_none());
    });
}

#[test]
fn share_source_is_released_after_last_strong_drop() {
    run(async {
        struct DropTracker {
            receiver: tokio::sync::mpsc::UnboundedReceiver<()>,
            _retained: Arc<()>,
        }

        impl Stream for DropTracker {
            type Item = ();

            fn poll_next(mut self: Pin<&mut Self>, cx: &mut Context<'_>) -> Poll<Option<Self::Item>> {
                self.receiver.poll_recv(cx)
            }
        }

        let retained = Arc::new(());
        let weak = Arc::downgrade(&retained);
        let (_tx, receiver) = tokio::sync::mpsc::unbounded_channel();
        let shared = DropTracker {
            receiver,
            _retained: Arc::clone(&retained),
        }
        .share(1);
        drop(retained);

        drop(shared);
        tokio::task::yield_now().await;
        assert!(weak.upgrade().is_none());
    });
}

#[test]
fn replay_latest_runs_and_records_before_first_poll() {
    run(async {
        let shared = futures::stream::iter([1, 2, 3, 4, 5]).share_replay_latest();
        tokio::time::sleep(Duration::from_millis(10)).await;

        let late = shared.clone();
        assert_eq!(late.collect::<Vec<_>>().await, vec![5]);
    });
}

#[test]
fn replay_snapshot_is_captured_when_subscriber_is_created() {
    run(async {
        let (tx, rx) = tokio::sync::mpsc::unbounded_channel();
        let mut first = MpscStream(rx).share_replay_overflow(2, 4);

        tx.send(1).unwrap();
        assert_eq!(first.next().await, Some(1));

        let mut second = first.clone();
        tx.send(2).unwrap();
        tokio::time::sleep(Duration::from_millis(10)).await;

        assert_eq!(second.next().await, Some(1));
        assert_eq!(second.next().await, Some(2));
        assert_eq!(first.next().await, Some(2));
    });
}

#[test]
fn zero_replay_buffer_has_only_post_subscription_live_values() {
    run(async {
        let (tx, rx) = tokio::sync::mpsc::unbounded_channel();
        let mut first = MpscStream(rx).share_replay(0, 2);

        tx.send(1).unwrap();
        assert_eq!(first.next().await, Some(1));

        let mut late = first.clone();
        tx.send(2).unwrap();
        assert_eq!(late.next().await, Some(2));
    });
}

#[test]
fn replay_and_live_handoff_has_no_duplicate() {
    run(async {
        let shared = futures::stream::iter([1, 2, 3]).share_replay_overflow(3, 1);
        tokio::time::sleep(Duration::from_millis(10)).await;
        let late = shared.clone();

        assert_eq!(late.collect::<Vec<_>>().await, vec![1, 2, 3]);
    });
}

#[test]
fn weak_upgrade_captures_replay_immediately() {
    run(async {
        let (tx, rx) = tokio::sync::mpsc::unbounded_channel();
        let mut current = MpscStream(rx).share_replay_latest();
        let weak = current.downgrade();

        tx.send(1).unwrap();
        assert_eq!(current.next().await, Some(1));

        let mut replacement = weak.upgrade().unwrap();
        drop(current);
        assert_eq!(replacement.next().await, Some(1));

        tx.send(2).unwrap();
        assert_eq!(replacement.next().await, Some(2));
    });
}

#[test]
fn share_replay_weak_cannot_upgrade_after_source_completion() {
    run(async {
        let mut shared = futures::stream::iter([1]).share_replay_latest();
        let weak = shared.downgrade();

        assert_eq!(shared.next().await, Some(1));
        assert_eq!(shared.next().await, None);
        assert!(weak.upgrade().is_none());
    });
}

#[test]
fn share_replay_weak_does_not_keep_source_alive() {
    run(async {
        let weak = futures::stream::pending::<u32>()
            .share_replay_latest()
            .downgrade();
        assert!(weak.upgrade().is_none());
    });
}

#[test]
fn share_replay_source_is_released_after_last_strong_drop() {
    run(async {
        struct DropTracker {
            receiver: tokio::sync::mpsc::UnboundedReceiver<()>,
            _retained: Arc<()>,
        }

        impl Stream for DropTracker {
            type Item = ();

            fn poll_next(mut self: Pin<&mut Self>, cx: &mut Context<'_>) -> Poll<Option<Self::Item>> {
                self.receiver.poll_recv(cx)
            }
        }

        let retained = Arc::new(());
        let weak = Arc::downgrade(&retained);
        let (_tx, receiver) = tokio::sync::mpsc::unbounded_channel();
        let shared = DropTracker {
            receiver,
            _retained: Arc::clone(&retained),
        }
        .share_replay_latest();
        drop(retained);

        drop(shared);
        tokio::task::yield_now().await;
        assert!(weak.upgrade().is_none());
    });
}

#[test]
fn infinite_run_of_duplicates_yields() {
    run(async {
        let mut stream = futures::stream::repeat(1_u32).distinct_until_changed();
        assert_eq!(stream.next().await, Some(1));
        assert!(tokio::time::timeout(Duration::from_millis(10), stream.next())
            .await
            .is_err());
    });
}

#[test]
fn infinite_ready_source_does_not_starve_the_runtime() {
    run(async {
        let mut latest = futures::stream::repeat(1_u32).latest();
        tokio::time::sleep(Duration::from_millis(5)).await;
        assert_eq!(latest.next().await, Some(1));

        let mut shared = futures::stream::repeat(2_u32).share_latest();
        tokio::time::sleep(Duration::from_millis(5)).await;
        assert_eq!(shared.next().await, Some(2));

        let mut throttled = futures::stream::repeat(3_u32).throttle(|| async {}, 1);
        tokio::time::sleep(Duration::from_millis(5)).await;
        assert_eq!(throttled.next().await, Some(3));
    });
}

#[test]
fn dropping_a_combination_releases_every_input() {
    run(async {
        let (tx1, rx1) = tokio::sync::mpsc::unbounded_channel::<u32>();
        let (tx2, rx2) = tokio::sync::mpsc::unbounded_channel::<u32>();
        let combined = combine_latest2(MpscStream(rx1), MpscStream(rx2));
        tokio::task::yield_now().await;
        assert!(!tx1.is_closed());
        drop(combined);
        tokio::task::yield_now().await;
        assert!(tx1.is_closed());
        assert!(tx2.is_closed());
    });
}

#[test]
fn overflow_skips_lost_values_and_keeps_history() {
    run(async {
        let (tx, rx) = tokio::sync::mpsc::unbounded_channel();
        let mut slow = MpscStream(rx).share_replay_overflow(3, 2);
        for value in 1..=5 {
            tx.send(value).unwrap();
        }
        tokio::time::sleep(Duration::from_millis(10)).await;

        // The live queue kept the newest two, the history the newest three.
        let late = slow.clone();
        drop(tx);
        assert_eq!(late.collect::<Vec<_>>().await, vec![3, 4, 5]);
        assert_eq!(slow.next().await, Some(4));
        assert_eq!(slow.next().await, Some(5));
        assert_eq!(slow.next().await, None);
    });
}

#[test]
fn driver_that_panics_completes_its_consumer() {
    run(async {
        let mut latest = futures::stream::poll_fn(|_| -> Poll<Option<u32>> { panic!("source") })
            .latest();
        assert_eq!(latest.next().await, None);
    });
}
