use std::collections::VecDeque;

use vstd::prelude::*;

use crate::poll::StreamPoll;

verus! {

/// The mathematical state of a hot channel.
#[verifier::ext_equal]
pub struct HotState<T, W> {
    /// The completed, unconsumed outputs, oldest first.
    pub queue: Seq<T>,
    /// The most outputs that are kept.
    pub capacity: nat,
    /// The producer is gone.
    pub done: bool,
    /// The waker of the receiver's latest poll, while it waits to be woken.
    pub waker: Option<W>,
    /// The producer has begun to run.
    pub driver_started: bool,
}

/// The last `n` items, or all if there are fewer.
pub open spec fn newest<T>(items: Seq<T>, n: nat) -> Seq<T> {
    if items.len() <= n {
        items
    } else {
        items.skip(items.len() - n)
    }
}

impl<T, W> HotState<T, W> {
    /// The queue is bounded by a positive capacity.
    pub open spec fn wf(self) -> bool {
        0 < self.capacity && self.queue.len() <= self.capacity
    }

    /// The state after an output is sent: the newest outputs are kept, and the
    /// receiver is woken. After the producer is gone nothing is sent.
    pub open spec fn sent(self, item: T) -> Self {
        if self.done {
            self
        } else {
            HotState { queue: newest(self.queue.push(item), self.capacity), waker: None, ..self }
        }
    }

    /// Whom sending wakes.
    pub open spec fn sent_wakes(self) -> Option<W> {
        if self.done {
            None
        } else {
            self.waker
        }
    }

    /// The state after these outputs are sent.
    pub open spec fn sent_all(self, items: Seq<T>) -> Self
        decreases items.len(),
    {
        if items.len() == 0 {
            self
        } else {
            self.sent_all(items.drop_last()).sent(items.last())
        }
    }

    /// The state after the producer is gone.
    pub open spec fn closed(self) -> Self {
        HotState { done: true, waker: None, ..self }
    }

    /// What the receiver's poll gives.
    pub open spec fn poll(self) -> StreamPoll<T> {
        if self.queue.len() > 0 {
            StreamPoll::Item(self.queue[0])
        } else if self.done {
            StreamPoll::End
        } else {
            StreamPoll::Pending
        }
    }

    /// The state after the receiver's poll: an output leaves the queue; a poll
    /// that finds nothing leaves its waker behind.
    pub open spec fn polled(self, waker: W) -> Self {
        if self.queue.len() > 0 {
            HotState { queue: self.queue.drop_first(), ..self }
        } else if self.done {
            self
        } else {
            HotState { waker: Some(waker), ..self }
        }
    }
}

/// A bounded, drop-oldest channel between the background driver of a hot
/// operator and its single consumer.
pub struct HotChannel<T, W> {
    queue: VecDeque<T>,
    capacity: usize,
    done: bool,
    waker: Option<W>,
    driver_started: bool,
}

impl<T, W> View for HotChannel<T, W> {
    type V = HotState<T, W>;

    closed spec fn view(&self) -> HotState<T, W> {
        HotState {
            queue: self.queue@,
            capacity: self.capacity as nat,
            done: self.done,
            waker: self.waker,
            driver_started: self.driver_started,
        }
    }
}

impl<T, W> HotChannel<T, W> {
    /// An empty channel that keeps at most `capacity` outputs.
    pub fn new(capacity: usize) -> (channel: Self)
        requires
            capacity > 0,
        ensures
            channel@.wf(),
            channel@ == (HotState::<T, W> {
                queue: Seq::empty(),
                capacity: capacity as nat,
                done: false,
                waker: None,
                driver_started: false,
            }),
    {
        HotChannel {
            queue: VecDeque::new(),
            capacity,
            done: false,
            waker: None,
            driver_started: false,
        }
    }

    /// Notes that the driver runs, and hands out the waker to wake.
    pub fn mark_driver_started(&mut self) -> (wake: Option<W>)
        ensures
            wake == old(self)@.waker,
            final(self)@ == (HotState { driver_started: true, waker: None, ..old(self)@ }),
    {
        self.driver_started = true;
        self.waker.take()
    }

    /// Whether the driver has begun to run.
    pub fn driver_started(&self) -> (started: bool)
        ensures
            started == self@.driver_started,
    {
        self.driver_started
    }

    /// Sends an output, in place of the oldest one if the queue is full, and
    /// hands out the waker to wake.
    pub fn send(&mut self, item: T) -> (wake: Option<W>)
        requires
            old(self)@.wf(),
        ensures
            final(self)@.wf(),
            final(self)@ == old(self)@.sent(item),
            wake == old(self)@.sent_wakes(),
    {
        if self.done {
            return None;
        }
        let ghost queue = self.queue@;
        if self.queue.len() == self.capacity {
            let _oldest = self.queue.pop_front();
        }
        self.queue.push_back(item);
        proof {
            assert(self.queue@ =~= newest(queue.push(item), self.capacity as nat));
        }
        self.waker.take()
    }

    /// The producer is gone: completes the channel and hands out the waker to wake.
    pub fn close(&mut self) -> (wake: Option<W>)
        ensures
            final(self)@ == old(self)@.closed(),
            wake == old(self)@.waker,
    {
        self.done = true;
        self.waker.take()
    }

    /// The receiver's poll, with the waker of the polling task.
    pub fn poll_next(&mut self, waker: W) -> (outcome: StreamPoll<T>)
        requires
            old(self)@.wf(),
        ensures
            final(self)@.wf(),
            final(self)@ == old(self)@.polled(waker),
            outcome == old(self)@.poll(),
    {
        let ghost queue = self.queue@;
        if let Some(item) = self.queue.pop_front() {
            proof {
                assert(self.queue@ =~= queue.drop_first());
            }
            return StreamPoll::Item(item);
        }
        if self.done {
            return StreamPoll::End;
        }
        self.waker = Some(waker);
        StreamPoll::Pending
    }
}

/// The queue never holds more than its capacity, whatever is sent.
pub proof fn law_queue_is_bounded<T, W>(s: HotState<T, W>, items: Seq<T>)
    requires
        s.wf(),
    ensures
        s.sent_all(items).wf(),
        s.sent_all(items).capacity == s.capacity,
        s.sent_all(items).done == s.done,
    decreases items.len(),
{
    if items.len() > 0 {
        law_queue_is_bounded(s, items.drop_last());
    }
}

/// Outputs that are not consumed are dropped oldest first: after any number of
/// sends the queue holds the newest outputs, in their order.
pub proof fn law_oldest_outputs_are_dropped<T, W>(s: HotState<T, W>, items: Seq<T>)
    requires
        s.wf(),
        !s.done,
    ensures
        s.sent_all(items).queue == newest(s.queue + items, s.capacity),
    decreases items.len(),
{
    law_queue_is_bounded(s, items);
    if items.len() == 0 {
        assert(s.queue + items =~= s.queue);
    } else {
        let init = items.drop_last();
        law_queue_is_bounded(s, init);
        law_oldest_outputs_are_dropped(s, init);
        let all = s.queue + items;
        let before = s.queue + init;
        assert(all =~= before.push(items.last()));
        assert(newest(newest(before, s.capacity).push(items.last()), s.capacity) =~= newest(
            before.push(items.last()),
            s.capacity,
        ));
    }
}

/// No wake is lost: a receiver that found nothing is woken, with the waker of
/// that poll, by the next output, by the end, and by the start of the driver.
pub proof fn law_pending_receiver_is_woken<T, W>(s: HotState<T, W>, waker: W)
    requires
        s.poll() is Pending,
    ensures
        s.polled(waker).sent_wakes() == Some(waker),
        s.polled(waker).waker == Some(waker),
{
}

/// The receiver that polls on after `n` outputs were taken.
pub open spec fn drained<T, W>(s: HotState<T, W>, n: nat, waker: W) -> HotState<T, W>
    decreases n,
{
    if n == 0 {
        s
    } else {
        drained(s, (n - 1) as nat, waker).polled(waker)
    }
}

/// After the producer is gone the receiver gets the outputs that remain, in their
/// order, and then the end, however often it polls.
pub proof fn law_closed_channel_drains_before_end<T, W>(s: HotState<T, W>, n: nat, waker: W)
    requires
        s.done,
    ensures
        n < s.queue.len() ==> drained(s, n, waker).poll() == StreamPoll::Item(s.queue[n as int]),
        n >= s.queue.len() ==> drained(s, n, waker).poll() == StreamPoll::<T>::End,
{
    lemma_drained(s, n, waker);
}

proof fn lemma_drained<T, W>(s: HotState<T, W>, n: nat, waker: W)
    requires
        s.done,
    ensures
        drained(s, n, waker).done,
        drained(s, n, waker).queue == (if n <= s.queue.len() {
            s.queue.skip(n as int)
        } else {
            Seq::empty()
        }),
    decreases n,
{
    if n == 0 {
        assert(s.queue.skip(0) =~= s.queue);
    } else {
        lemma_drained(s, (n - 1) as nat, waker);
        if n <= s.queue.len() {
            assert(s.queue.skip(n - 1).drop_first() =~= s.queue.skip(n as int));
        } else {
            assert(s.queue.skip(s.queue.len() as int) =~= Seq::<T>::empty());
        }
    }
}

/// What happens to the outputs of a hot operator.
pub enum HotAct<T> {
    /// An output is completed.
    Complete(T),
    /// The consumer polls.
    Take,
}

/// The outputs that are left for the consumer: each poll takes the oldest one, and
/// nothing else is lost but the oldest one of a queue that would exceed the capacity.
pub open spec fn backlog<T>(acts: Seq<HotAct<T>>, capacity: nat) -> Seq<T>
    decreases acts.len(),
{
    if acts.len() == 0 {
        Seq::empty()
    } else {
        let before = backlog(acts.drop_last(), capacity);
        match acts.last() {
            HotAct::Complete(item) => if before.len() < capacity {
                before.push(item)
            } else {
                before.drop_first().push(item)
            },
            HotAct::Take => if before.len() > 0 {
                before.drop_first()
            } else {
                before
            },
        }
    }
}

/// What a consumer gets that finds these outputs, of an operator that is over or not.
pub open spec fn found<T>(left: Seq<T>, over: bool) -> StreamPoll<T> {
    if left.len() > 0 {
        StreamPoll::Item(left[0])
    } else if over {
        StreamPoll::End
    } else {
        StreamPoll::Pending
    }
}

/// One more act, seen from the acts before it.
pub proof fn lemma_backlog_push<T>(acts: Seq<HotAct<T>>, act: HotAct<T>, capacity: nat)
    ensures
        backlog(acts.push(act), capacity) == (match act {
            HotAct::Complete(item) => if backlog(acts, capacity).len() < capacity {
                backlog(acts, capacity).push(item)
            } else {
                backlog(acts, capacity).drop_first().push(item)
            },
            HotAct::Take => if backlog(acts, capacity).len() > 0 {
                backlog(acts, capacity).drop_first()
            } else {
                backlog(acts, capacity)
            },
        }),
{
    assert(acts.push(act).drop_last() =~= acts);
}

/// The channel keeps what is left after one more output.
pub(crate) proof fn lemma_sent_backlog<T, W>(s: HotState<T, W>, acts: Seq<HotAct<T>>, item: T)
    requires
        s.wf(),
        !s.done,
        s.queue == backlog(acts, s.capacity),
    ensures
        s.sent(item).queue == backlog(acts.push(HotAct::Complete(item)), s.capacity),
{
    lemma_backlog_push(acts, HotAct::Complete(item), s.capacity);
    if s.queue.len() < s.capacity {
        assert(s.sent(item).queue =~= s.queue.push(item));
    } else {
        assert(s.sent(item).queue =~= s.queue.drop_first().push(item));
    }
}

/// What a call means to the consumer of a hot operator: a poll with its waker, or
/// anything else, with the waker that it hands out.
pub enum HotEvent<T, W> {
    Poll { waker: W, outcome: StreamPoll<T> },
    Other { wake: Option<W> },
}

/// The event leads from one state to the other, as far as the waiting consumer is
/// concerned.
spec fn notes<T, W>(s: HotState<T, W>, event: HotEvent<T, W>, t: HotState<T, W>) -> bool {
    match event {
        HotEvent::Poll { waker, outcome } => if outcome is Pending {
            &&& t.queue.len() == 0
            &&& !t.done
            &&& t.waker == Some(waker)
        } else {
            &&& s.queue.len() > 0 || s.done
            &&& t.waker == s.waker
        },
        HotEvent::Other { wake } => tells(s, wake, t),
    }
}

/// A trace of what the consumer of a hot operator is concerned with.
pub closed spec fn is_hot_trace<T, W>(
    outputs: Seq<HotState<T, W>>,
    events: Seq<HotEvent<T, W>>,
) -> bool {
    &&& outputs.len() == events.len() + 1
    &&& outputs[0].waker is None
    &&& forall|j: int|
        0 <= j < events.len() ==> notes(outputs[j], #[trigger] events[j], outputs[j + 1])
}

/// Whatever is not a poll leaves the waiting consumer waiting for what it has not been
/// told of.
pub open spec fn tells<T, W>(s: HotState<T, W>, wake: Option<W>, t: HotState<T, W>) -> bool {
    ||| wake is None && t.waker == s.waker && (s.waker is Some ==> t.queue == s.queue && t.done
        == s.done)
    ||| wake is Some && s.waker == wake && t.waker is None
}

/// A trace is made of polls and of what tells the consumer.
pub proof fn lemma_hot_trace<T, W>(outputs: Seq<HotState<T, W>>, events: Seq<HotEvent<T, W>>)
    requires
        outputs.len() == events.len() + 1,
        outputs[0].waker is None,
        forall|j: int|
            0 <= j < events.len() ==> match #[trigger] events[j] {
                HotEvent::Poll { waker, outcome } => outputs[j + 1] == outputs[j].polled(waker)
                    && outcome == outputs[j].poll(),
                HotEvent::Other { wake } => tells(outputs[j], wake, outputs[j + 1]),
            },
    ensures
        is_hot_trace(outputs, events),
{
    assert forall|j: int| 0 <= j < events.len() implies notes(
        outputs[j],
        #[trigger] events[j],
        outputs[j + 1],
    ) by {}
}

/// A consumer that found nothing and has not polled since has been told by the time
/// there is something for it.
pub proof fn lemma_waiting_consumer_is_told<T, W>(
    outputs: Seq<HotState<T, W>>,
    events: Seq<HotEvent<T, W>>,
    a: int,
    b: int,
    waker: W,
)
    requires
        is_hot_trace(outputs, events),
        0 <= a < b < outputs.len(),
        events[a] matches HotEvent::Poll { waker: w, outcome } && w == waker && outcome is Pending,
        forall|c: int| a < c < b ==> #[trigger] events[c] is Other,
        outputs[b].queue.len() > 0 || outputs[b].done,
    ensures
        exists|c: int|
            a < c < b && (#[trigger] events[c] matches HotEvent::Other { wake } && wake == Some(
                waker,
            )),
{
    lemma_still_waiting(outputs, events, a, b, waker);
}

/// A consumer that found nothing and has not polled since has been told, or still waits.
pub proof fn lemma_still_waiting<T, W>(
    outputs: Seq<HotState<T, W>>,
    events: Seq<HotEvent<T, W>>,
    a: int,
    b: int,
    waker: W,
)
    requires
        is_hot_trace(outputs, events),
        0 <= a < b < outputs.len(),
        events[a] matches HotEvent::Poll { waker: w, outcome } && w == waker && outcome is Pending,
        forall|c: int| a < c < b ==> #[trigger] events[c] is Other,
    ensures
        (exists|c: int|
            a < c < b && (#[trigger] events[c] matches HotEvent::Other { wake } && wake == Some(
                waker,
            ))) || (outputs[b].waker == Some(waker) && outputs[b].queue.len() == 0
            && !outputs[b].done),
    decreases b - a,
{
    if b == a + 1 {
        assert(notes(outputs[a], events[a], outputs[a + 1]));
    } else {
        lemma_still_waiting(outputs, events, a, b - 1, waker);
        assert(events[b - 1] is Other);
        assert(notes(outputs[b - 1], events[b - 1], outputs[b]));
    }
}

/// Only a consumer that found nothing, has not polled since and was not told before is
/// told.
pub proof fn lemma_told_consumer_waits<T, W>(
    outputs: Seq<HotState<T, W>>,
    events: Seq<HotEvent<T, W>>,
    c: int,
    waker: W,
)
    requires
        is_hot_trace(outputs, events),
        0 <= c < events.len(),
        events[c] matches HotEvent::Other { wake } && wake == Some(waker),
    ensures
        exists|a: int|
            0 <= a < c && (#[trigger] events[a] matches HotEvent::Poll { waker: w, outcome } && w
                == waker && outcome is Pending) && forall|d: int|
                a < d < c ==> (#[trigger] events[d] matches HotEvent::Other { wake: None }),
{
    assert(notes(outputs[c], events[c], outputs[c + 1]));
    lemma_stored_waker(outputs, events, c, waker);
}

proof fn lemma_stored_waker<T, W>(
    outputs: Seq<HotState<T, W>>,
    events: Seq<HotEvent<T, W>>,
    c: int,
    waker: W,
)
    requires
        is_hot_trace(outputs, events),
        0 <= c < outputs.len(),
        outputs[c].waker == Some(waker),
    ensures
        outputs[c].queue.len() == 0 && !outputs[c].done,
        exists|a: int|
            0 <= a < c && (#[trigger] events[a] matches HotEvent::Poll { waker: w, outcome } && w
                == waker && outcome is Pending) && forall|d: int|
                a < d < c ==> (#[trigger] events[d] matches HotEvent::Other { wake: None }),
    decreases c,
{
    assert(c > 0);
    assert(notes(outputs[c - 1], events[c - 1], outputs[c]));
    match events[c - 1] {
        HotEvent::Poll { waker: w, outcome } => {
            if !(outcome is Pending) {
                lemma_stored_waker(outputs, events, c - 1, waker);
            }
        },
        HotEvent::Other { wake } => {
            lemma_stored_waker(outputs, events, c - 1, waker);
            let a = choose|a: int|
                0 <= a < c - 1 && (#[trigger] events[a] matches HotEvent::Poll { waker: w, outcome }
                    && w == waker && outcome is Pending) && forall|d: int|
                    a < d < c - 1 ==> (#[trigger] events[d] matches HotEvent::Other { wake: None });
            assert(events[a] matches HotEvent::Poll { waker: w, outcome } && w == waker
                && outcome is Pending);
        },
    }
}

/// One call on a hot channel, with what it gave.
pub enum HotCall<T, W> {
    /// The producer runs.
    Started { wake: Option<W> },
    /// An output is sent.
    Send { item: T, wake: Option<W> },
    /// The producer is gone.
    Closed { wake: Option<W> },
    /// The receiver polls.
    Poll { waker: W, outcome: StreamPoll<T> },
}

/// The call leads from one state to the other.
pub open spec fn hot_leads<T, W>(s: HotState<T, W>, call: HotCall<T, W>, t: HotState<T, W>) -> bool {
    match call {
        HotCall::Started { wake } => {
            &&& wake == s.waker
            &&& t == (HotState { driver_started: true, waker: None, ..s })
        },
        HotCall::Send { item, wake } => {
            &&& wake == s.sent_wakes()
            &&& t == s.sent(item)
        },
        HotCall::Closed { wake } => {
            &&& wake == s.waker
            &&& t == s.closed()
        },
        HotCall::Poll { waker, outcome } => {
            &&& outcome == s.poll()
            &&& t == s.polled(waker)
        },
    }
}

/// Every call on a hot channel is one of its run.
pub proof fn law_channel_calls_are_run_calls<T, W>()
    ensures
        forall|capacity: usize, channel: HotChannel<T, W>| #[trigger]
            call_ensures(HotChannel::<T, W>::new, (capacity,), channel) ==> is_hot_run(
                capacity as nat,
                seq![channel@],
                Seq::<HotCall<T, W>>::empty(),
            ),
        forall|s: &mut HotChannel<T, W>, wake: Option<W>| #[trigger]
            call_ensures(HotChannel::<T, W>::mark_driver_started, (s,), wake) ==> hot_leads(
                s@,
                HotCall::Started { wake },
                final(s)@,
            ),
        forall|s: &mut HotChannel<T, W>, item: T, wake: Option<W>| #[trigger]
            call_ensures(HotChannel::<T, W>::send, (s, item), wake) ==> hot_leads(
                s@,
                HotCall::Send { item, wake },
                final(s)@,
            ),
        forall|s: &mut HotChannel<T, W>, wake: Option<W>| #[trigger]
            call_ensures(HotChannel::<T, W>::close, (s,), wake) ==> hot_leads(
                s@,
                HotCall::Closed { wake },
                final(s)@,
            ),
        forall|s: &mut HotChannel<T, W>, waker: W, outcome: StreamPoll<T>| #[trigger]
            call_ensures(HotChannel::<T, W>::poll_next, (s, waker), outcome) ==> hot_leads(
                s@,
                HotCall::Poll { waker, outcome },
                final(s)@,
            ),
{
}

/// A run of calls on a new channel: each state follows from the one before it.
pub open spec fn is_hot_run<T, W>(
    capacity: nat,
    states: Seq<HotState<T, W>>,
    calls: Seq<HotCall<T, W>>,
) -> bool {
    &&& states.len() == calls.len() + 1
    &&& states[0].capacity == capacity
    &&& capacity > 0
    &&& states[0].queue.len() == 0
    &&& !states[0].done
    &&& states[0].waker is None
    &&& !states[0].driver_started
    &&& forall|j: int|
        0 <= j < calls.len() ==> hot_leads(states[j], #[trigger] calls[j], states[j + 1])
}

/// The producer has gone in these calls.
pub open spec fn is_closed<T, W>(calls: Seq<HotCall<T, W>>) -> bool {
    exists|j: int| 0 <= j < calls.len() && #[trigger] calls[j] is Closed
}

/// The outputs that were sent in these calls before the producer went, and the polls.
pub open spec fn channel_acts<T, W>(calls: Seq<HotCall<T, W>>) -> Seq<HotAct<T>>
    decreases calls.len(),
{
    if calls.len() == 0 {
        Seq::empty()
    } else {
        let before = channel_acts(calls.drop_last());
        match calls.last() {
            HotCall::Send { item, .. } => if is_closed(calls.drop_last()) {
                before
            } else {
                before.push(HotAct::Complete(item))
            },
            HotCall::Poll { .. } => before.push(HotAct::Take),
            _ => before,
        }
    }
}

/// Looking for a call in one call more.
pub proof fn lemma_closed_push<T, W>(calls: Seq<HotCall<T, W>>)
    requires
        calls.len() > 0,
    ensures
        is_closed(calls) <==> is_closed(calls.drop_last()) || calls.last() is Closed,
{
    let earlier = calls.drop_last();
    if is_closed(earlier) {
        let j = choose|j: int| 0 <= j < earlier.len() && #[trigger] earlier[j] is Closed;
        assert(calls[j] is Closed);
    }
    if is_closed(calls) {
        let j = choose|j: int| 0 <= j < calls.len() && #[trigger] calls[j] is Closed;
        if j < earlier.len() {
            assert(earlier[j] is Closed);
        }
    }
    if calls.last() is Closed {
        assert(calls[calls.len() - 1] is Closed);
    }
}

proof fn lemma_hot_run<T, W>(
    capacity: nat,
    states: Seq<HotState<T, W>>,
    calls: Seq<HotCall<T, W>>,
    n: int,
)
    requires
        is_hot_run(capacity, states, calls),
        0 <= n <= calls.len(),
    ensures
        states[n].wf(),
        states[n].capacity == capacity,
        states[n].done == is_closed(calls.take(n)),
        states[n].queue == backlog(channel_acts(calls.take(n)), capacity),
    decreases n,
{
    if n > 0 {
        lemma_hot_run(capacity, states, calls, n - 1);
        let past = calls.take(n);
        assert(past.drop_last() =~= calls.take(n - 1));
        assert(past.last() == calls[n - 1]);
        lemma_closed_push(past);
        let s = states[n - 1];
        assert(hot_leads(s, calls[n - 1], states[n]));
        let acts = channel_acts(calls.take(n - 1));
        match calls[n - 1] {
            HotCall::Send { item, .. } => {
                if !s.done {
                    lemma_sent_backlog(s, acts, item);
                }
            },
            HotCall::Poll { .. } => {
                lemma_backlog_push(acts, HotAct::Take, capacity);
            },
            _ => {},
        }
    } else {
        assert(states[0].queue =~= Seq::empty());
        assert(!is_closed(calls.take(0)));
    }
}

/// The receiver gets the outputs in the order in which they were sent, each once, but
/// for those that a full queue had to drop, the oldest first; after the producer is gone
/// it gets what is left and then the end, and until then it is never told of an end.
pub proof fn law_receiver_gets_what_was_sent<T, W>(
    capacity: nat,
    states: Seq<HotState<T, W>>,
    calls: Seq<HotCall<T, W>>,
    j: int,
)
    requires
        is_hot_run(capacity, states, calls),
        0 <= j < calls.len(),
        calls[j] is Poll,
    ensures
        calls[j]->outcome == found(
            backlog(channel_acts(calls.take(j)), capacity),
            is_closed(calls.take(j)),
        ),
{
    lemma_hot_run(capacity, states, calls, j);
    assert(hot_leads(states[j], calls[j], states[j + 1]));
}

/// What a call on the channel means to the receiver.
pub open spec fn channel_event<T, W>(call: HotCall<T, W>) -> HotEvent<T, W> {
    match call {
        HotCall::Started { wake } => HotEvent::Other { wake },
        HotCall::Send { wake, .. } => HotEvent::Other { wake },
        HotCall::Closed { wake } => HotEvent::Other { wake },
        HotCall::Poll { waker, outcome } => HotEvent::Poll { waker, outcome },
    }
}

/// A receiver that found nothing, and whose next poll finds something or the end, is
/// woken in between with the waker of that poll.
pub proof fn law_waiting_receiver_is_woken<T, W>(
    capacity: nat,
    states: Seq<HotState<T, W>>,
    calls: Seq<HotCall<T, W>>,
    a: int,
    b: int,
)
    requires
        is_hot_run(capacity, states, calls),
        0 <= a < b < calls.len(),
        calls[a] matches HotCall::Poll { outcome, .. } && outcome is Pending,
        calls[b] matches HotCall::Poll { outcome, .. } && !(outcome is Pending),
        forall|c: int| a < c < b ==> !(#[trigger] calls[c] is Poll),
    ensures
        exists|c: int|
            a < c < b && channel_event(#[trigger] calls[c]) == (HotEvent::<T, W>::Other {
                wake: Some(calls[a]->waker),
            }),
{
    let events = Seq::new(calls.len(), |j: int| channel_event(calls[j]));
    assert forall|j: int| 0 <= j < events.len() implies match #[trigger] events[j] {
        HotEvent::Poll { waker, outcome } => states[j + 1] == states[j].polled(waker) && outcome
            == states[j].poll(),
        HotEvent::Other { wake } => tells(states[j], wake, states[j + 1]),
    } by {
        assert(hot_leads(states[j], calls[j], states[j + 1]));
        lemma_hot_run(capacity, states, calls, j);
    }
    lemma_hot_trace(states, events);
    assert(hot_leads(states[b], calls[b], states[b + 1]));
    assert(events[a] == channel_event(calls[a]));
    assert forall|c: int| a < c < b implies #[trigger] events[c] is Other by {
        assert(!(calls[c] is Poll));
    }
    lemma_waiting_consumer_is_told(states, events, a, b, calls[a]->waker);
    let c = choose|c: int|
        a < c < b && (#[trigger] events[c] matches HotEvent::Other { wake } && wake == Some(
            calls[a]->waker,
        ));
    assert(channel_event(calls[c]) == events[c]);
}

/// The driver of a channel has started exactly if that was noted.
pub proof fn law_start_is_noted<T, W>(
    capacity: nat,
    states: Seq<HotState<T, W>>,
    calls: Seq<HotCall<T, W>>,
    channel: &HotChannel<T, W>,
    started: bool,
)
    requires
        is_hot_run(capacity, states, calls),
        channel@ == states.last(),
        call_ensures(HotChannel::<T, W>::driver_started, (channel,), started),
    ensures
        started <==> exists|j: int| 0 <= j < calls.len() && #[trigger] calls[j] is Started,
{
    lemma_started(capacity, states, calls, calls.len() as int);
}

proof fn lemma_started<T, W>(
    capacity: nat,
    states: Seq<HotState<T, W>>,
    calls: Seq<HotCall<T, W>>,
    n: int,
)
    requires
        is_hot_run(capacity, states, calls),
        0 <= n <= calls.len(),
    ensures
        states[n].driver_started <==> exists|j: int| 0 <= j < n && #[trigger] calls[j] is Started,
    decreases n,
{
    if n > 0 {
        lemma_started(capacity, states, calls, n - 1);
        assert(hot_leads(states[n - 1], calls[n - 1], states[n]));
    }
}

} // verus!
