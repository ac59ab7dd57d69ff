use vstd::prelude::*;

use crate::budget::{WorkBudget, WORK_BUDGET};
use crate::driver::{
    lemma_whole_budgets, spent_after_work, step_after_work, work, DriverStep, DriverTurn, Timer,
};
use crate::hot::{
    backlog, found, is_hot_trace, lemma_backlog_push, lemma_hot_trace, lemma_sent_backlog,
    lemma_told_consumer_waits, lemma_waiting_consumer_is_told, newest, tells, HotAct, HotChannel,
    HotEvent, HotState,
};
use crate::poll::StreamPoll;
use crate::subsequence::{
    is_subsequence, lemma_polled, lemma_sent, lemma_subsequence_push, lemma_subsequence_remove,
    lemma_subsequence_transitive,
};

verus! {

/// The mathematical state of a debounce.
#[verifier::ext_equal]
pub struct DebounceState<T, W> {
    /// The completed results that the consumer has not taken.
    pub output: HotState<T, W>,
    /// The item that waits for its deadline. A deadline runs exactly while
    /// there is one.
    pub pending: Option<T>,
    /// The work that the driver has done since it last yielded.
    pub spent: nat,
}

impl<T, W> DebounceState<T, W> {
    pub open spec fn wf(self) -> bool {
        self.output.wf() && self.spent < WORK_BUDGET
    }

    /// The state after the source gave an item: it replaces the pending one.
    pub open spec fn arrived(self, item: T) -> Self {
        DebounceState { pending: Some(item), spent: spent_after_work(self.spent), ..self }
    }

    /// The state after the pending item is handed to the consumer.
    pub open spec fn flushed(self) -> Self {
        match self.pending {
            Some(item) => DebounceState { output: self.output.sent(item), pending: None, ..self },
            None => self,
        }
    }

    /// The state after the deadline has passed.
    pub open spec fn fired(self) -> Self {
        DebounceState { spent: spent_after_work(self.spent), ..self.flushed() }
    }

    /// What the report of a poll of the source does.
    pub open spec fn reports(self, outcome: StreamPoll<T>, turn: DriverTurn<W>, after: Self) -> bool {
        match outcome {
            StreamPoll::Item(item) => {
                &&& after == self.arrived(item)
                &&& turn.step == step_after_work(self.spent)
                &&& turn.timer == Timer::Start
                &&& turn.wake is None
            },
            StreamPoll::End => {
                &&& after == self.completed()
                &&& turn.step == DriverStep::Finish
                &&& turn.timer == Timer::Stop
                &&& turn.wake == self.output.waker
            },
            StreamPoll::Pending => {
                &&& after == self
                &&& turn.step == (if self.pending is Some {
                    DriverStep::PollDeadline
                } else {
                    DriverStep::Park
                })
                &&& turn.timer == Timer::Keep
                &&& turn.wake is None
            },
        }
    }

    /// What the report of a poll of the deadline does.
    pub open spec fn times(self, ready: bool, turn: DriverTurn<W>, after: Self) -> bool {
        if ready {
            &&& after == self.fired()
            &&& turn.step == step_after_work(self.spent)
            &&& turn.timer == Timer::Stop
            &&& turn.wake == self.output.sent_wakes()
        } else {
            &&& after == self
            &&& turn.step == DriverStep::Park
            &&& turn.timer == Timer::Keep
            &&& turn.wake is None
        }
    }

    /// The state after the source has completed: the pending item is flushed.
    pub open spec fn completed(self) -> Self {
        DebounceState { output: self.flushed().output.closed(), ..self.flushed() }
    }
}

/// A hot debounce stream with a bounded, drop-oldest output queue.
///
/// Upstream arrival time and the deadline determine which items survive. The
/// consumer only drains completed results and cannot delay the upstream.
pub struct DebounceStream<T, W> {
    channel: HotChannel<T, W>,
    pending: Option<T>,
    budget: WorkBudget,
}

impl<T, W> View for DebounceStream<T, W> {
    type V = DebounceState<T, W>;

    closed spec fn view(&self) -> DebounceState<T, W> {
        DebounceState { output: self.channel@, pending: self.pending, spent: self.budget.spent() }
    }
}

/// A debounce whose source has given nothing yet.
///
/// `capacity` bounds the completed results that have not been consumed. When it
/// is reached, the oldest completed result is dropped. The pending item is
/// separate from this queue.
pub fn debounce<T, W>(capacity: usize) -> (stream: DebounceStream<T, W>)
    requires
        capacity > 0,
    ensures
        stream@.wf(),
        stream@ == (DebounceState::<T, W> {
            output: HotState {
                queue: Seq::empty(),
                capacity: capacity as nat,
                done: false,
                waker: None,
                driver_started: false,
            },
            pending: None,
            spent: 0,
        }),
{
    DebounceStream { channel: HotChannel::new(capacity), pending: None, budget: WorkBudget::new() }
}

impl<T, W> DebounceStream<T, W> {
    /// Notes that the driver runs, and hands out the waker to wake.
    pub fn mark_driver_started(&mut self) -> (wake: Option<W>)
        requires
            old(self)@.wf(),
        ensures
            final(self)@.wf(),
            wake == old(self)@.output.waker,
            final(self)@ == (DebounceState {
                output: HotState { driver_started: true, waker: None, ..old(self)@.output },
                ..old(self)@
            }),
    {
        self.channel.mark_driver_started()
    }

    /// Reports what the driver's poll of the source gave.
    ///
    /// The source is asked before the deadline, so an item restarts the deadline
    /// even if that has passed too. The deadline is asked only when the source is
    /// silent and an item is pending.
    pub fn source_polled(&mut self, outcome: StreamPoll<T>) -> (turn: DriverTurn<W>)
        requires
            old(self)@.wf(),
        ensures
            final(self)@.wf(),
            old(self)@.reports(outcome, turn, final(self)@),
    {
        match outcome {
            StreamPoll::Item(item) => {
                self.pending = Some(item);
                let step = work(&mut self.budget);
                DriverTurn { step, timer: Timer::Start, wake: None }
            },
            StreamPoll::End => {
                let mut wake: Option<W> = None;
                if let Some(item) = self.pending.take() {
                    wake = self.channel.send(item);
                }
                if let Some(waker) = self.channel.close() {
                    wake = Some(waker);
                }
                DriverTurn { step: DriverStep::Finish, timer: Timer::Stop, wake }
            },
            StreamPoll::Pending => {
                let step = if self.pending.is_some() {
                    DriverStep::PollDeadline
                } else {
                    DriverStep::Park
                };
                DriverTurn { step, timer: Timer::Keep, wake: None }
            },
        }
    }

    /// Reports whether the deadline has passed. If so, the pending item is
    /// completed.
    pub fn deadline_polled(&mut self, ready: bool) -> (turn: DriverTurn<W>)
        requires
            old(self)@.wf(),
            old(self)@.pending is Some,
        ensures
            final(self)@.wf(),
            old(self)@.times(ready, turn, final(self)@),
    {
        if ready {
            let mut wake: Option<W> = None;
            if let Some(item) = self.pending.take() {
                wake = self.channel.send(item);
            }
            let step = work(&mut self.budget);
            DriverTurn { step, timer: Timer::Stop, wake }
        } else {
            DriverTurn { step: DriverStep::Park, timer: Timer::Keep, wake: None }
        }
    }

    /// The driver is gone, for whatever reason: completes the stream.
    pub fn close(&mut self) -> (wake: Option<W>)
        requires
            old(self)@.wf(),
        ensures
            final(self)@.wf(),
            wake == old(self)@.output.waker,
            final(self)@ == (DebounceState { output: old(self)@.output.closed(), ..old(self)@ }),
    {
        self.channel.close()
    }

    /// The consumer's poll, with the waker of the polling task.
    pub fn poll_next(&mut self, waker: W) -> (outcome: StreamPoll<T>)
        requires
            old(self)@.wf(),
        ensures
            final(self)@.wf(),
            final(self)@ == (DebounceState {
                output: old(self)@.output.polled(waker),
                ..old(self)@
            }),
            outcome == old(self)@.output.poll(),
    {
        self.channel.poll_next(waker)
    }
}

/// What a debounce sees.
pub enum DebounceEvent<T> {
    /// The source gave an item.
    Item(T),
    /// The deadline of the pending item passed.
    Fired,
}

/// The state after these events.
pub open spec fn debounce_after<T, W>(
    s: DebounceState<T, W>,
    events: Seq<DebounceEvent<T>>,
) -> DebounceState<T, W>
    decreases events.len(),
{
    if events.len() == 0 {
        s
    } else {
        let before = debounce_after(s, events.drop_last());
        match events.last() {
            DebounceEvent::Item(item) => before.arrived(item),
            DebounceEvent::Fired => before.fired(),
        }
    }
}

/// The items that survive: those that a deadline follows before any other item.
pub open spec fn survivors<T>(events: Seq<DebounceEvent<T>>) -> Seq<T>
    decreases events.len(),
{
    if events.len() < 2 {
        Seq::empty()
    } else {
        let before = survivors(events.drop_last());
        match (events[events.len() - 2], events.last()) {
            (DebounceEvent::Item(item), DebounceEvent::Fired) => before.push(item),
            _ => before,
        }
    }
}

/// The item that waits after these events: the last one, unless its deadline passed.
pub open spec fn waiting<T>(events: Seq<DebounceEvent<T>>) -> Option<T> {
    if events.len() == 0 {
        None
    } else {
        match events.last() {
            DebounceEvent::Item(item) => Some(item),
            DebounceEvent::Fired => None,
        }
    }
}

/// Exactly the items that a quiet period follows are completed, in their order;
/// of those that are not consumed, the newest are kept. The last item waits
/// apart from them until its own deadline.
pub proof fn law_quiet_period_decides_survival<T, W>(
    s: DebounceState<T, W>,
    events: Seq<DebounceEvent<T>>,
)
    requires
        s.wf(),
        !s.output.done,
        s.pending is None,
        s.output.queue.len() == 0,
    ensures
        debounce_after(s, events).output.queue == newest(survivors(events), s.output.capacity),
        debounce_after(s, events).pending == waiting(events),
{
    lemma_debounce_after(s, events);
}

proof fn lemma_debounce_after<T, W>(s: DebounceState<T, W>, events: Seq<DebounceEvent<T>>)
    requires
        s.wf(),
        !s.output.done,
        s.pending is None,
        s.output.queue.len() == 0,
    ensures
        ({
            let t = debounce_after(s, events);
            &&& t.wf()
            &&& !t.output.done
            &&& t.output.capacity == s.output.capacity
            &&& t.output.queue == newest(survivors(events), s.output.capacity)
            &&& t.pending == waiting(events)
        }),
    decreases events.len(),
{
    if events.len() == 0 {
        assert(s.output.queue =~= newest(survivors(events), s.output.capacity));
    } else {
        let init = events.drop_last();
        lemma_debounce_after(s, init);
        let before = debounce_after(s, init);
        let cap = s.output.capacity;
        if events.len() >= 2 {
            assert(init.last() == events[events.len() - 2]);
        }
        match events.last() {
            DebounceEvent::Item(_) => {},
            DebounceEvent::Fired => {
                match before.pending {
                    Some(item) => {
                        assert(newest(newest(survivors(init), cap).push(item), cap) =~= newest(
                            survivors(init).push(item),
                            cap,
                        ));
                    },
                    None => {},
                }
            },
        }
    }
}

/// Completion flushes the item that waits, and then the stream ends once the
/// completed results are drained.
pub proof fn law_completion_flushes_pending_item<T, W>(s: DebounceState<T, W>)
    requires
        s.wf(),
        !s.output.done,
    ensures
        s.completed().output.done,
        s.completed().pending is None,
        s.pending matches Some(item) ==> s.completed().output.queue == newest(
            s.output.queue.push(item),
            s.output.capacity,
        ),
        s.pending is None ==> s.completed().output.queue == s.output.queue,
{
}

/// One call on a debounce, with what it gave.
pub enum DebounceCall<T, W> {
    /// The driver runs.
    Started { wake: Option<W> },
    /// A poll of the source is reported.
    Source { outcome: StreamPoll<T>, turn: DriverTurn<W> },
    /// A poll of the deadline is reported.
    Deadline { ready: bool, turn: DriverTurn<W> },
    /// The driver is gone.
    Closed { wake: Option<W> },
    /// The consumer polls.
    Poll { waker: W, outcome: StreamPoll<T> },
}

/// The call leads from one state to the other. The driver reports until the source
/// has completed or the driver is gone, and a deadline runs only while an item is pending.
pub open spec fn debounce_leads<T, W>(
    s: DebounceState<T, W>,
    call: DebounceCall<T, W>,
    t: DebounceState<T, W>,
) -> bool {
    match call {
        DebounceCall::Started { wake } => {
            &&& wake == s.output.waker
            &&& t == (DebounceState {
                output: HotState { driver_started: true, waker: None, ..s.output },
                ..s
            })
        },
        DebounceCall::Source { outcome, turn } => !s.output.done && s.reports(outcome, turn, t),
        DebounceCall::Deadline { ready, turn } => !s.output.done && s.pending is Some && s.times(
            ready,
            turn,
            t,
        ),
        DebounceCall::Closed { wake } => {
            &&& wake == s.output.waker
            &&& t == (DebounceState { output: s.output.closed(), ..s })
        },
        DebounceCall::Poll { waker, outcome } => {
            &&& outcome == s.output.poll()
            &&& t == (DebounceState { output: s.output.polled(waker), ..s })
        },
    }
}

/// A run of calls on a new debounce: each state follows from the one before it.
pub open spec fn is_debounce_run<T, W>(
    states: Seq<DebounceState<T, W>>,
    calls: Seq<DebounceCall<T, W>>,
) -> bool {
    &&& states.len() == calls.len() + 1
    &&& states[0].wf()
    &&& !states[0].output.done
    &&& states[0].pending is None
    &&& states[0].output.queue.len() == 0
    &&& states[0].output.waker is None
    &&& states[0].spent == 0
    &&& forall|j: int|
        0 <= j < calls.len() ==> debounce_leads(states[j], #[trigger] calls[j], states[j + 1])
}

/// The items that the source gave in the run.
pub open spec fn source_items<T, W>(calls: Seq<DebounceCall<T, W>>) -> Seq<T>
    decreases calls.len(),
{
    if calls.len() == 0 {
        Seq::empty()
    } else {
        let before = source_items(calls.drop_last());
        match calls.last() {
            DebounceCall::Source { outcome: StreamPoll::Item(item), .. } => before.push(item),
            _ => before,
        }
    }
}

/// What decided in the run which items survive. The end of the source completes the
/// pending item as its deadline does.
pub open spec fn deciding<T, W>(calls: Seq<DebounceCall<T, W>>) -> Seq<DebounceEvent<T>>
    decreases calls.len(),
{
    if calls.len() == 0 {
        Seq::empty()
    } else {
        let before = deciding(calls.drop_last());
        match calls.last() {
            DebounceCall::Source { outcome: StreamPoll::Item(item), .. } => before.push(
                DebounceEvent::Item(item),
            ),
            DebounceCall::Source { outcome: StreamPoll::End, .. } => before.push(
                DebounceEvent::Fired,
            ),
            DebounceCall::Deadline { ready: true, .. } => before.push(DebounceEvent::Fired),
            _ => before,
        }
    }
}

/// The end of the source was reported in the run.
pub open spec fn source_ended<T, W>(calls: Seq<DebounceCall<T, W>>) -> bool {
    exists|j: int|
        0 <= j < calls.len() && (#[trigger] calls[j] matches DebounceCall::Source { outcome, .. }
            && outcome is End)
}

/// The items that the consumer took in the run.
pub open spec fn taken<T, W>(calls: Seq<DebounceCall<T, W>>) -> Seq<T>
    decreases calls.len(),
{
    if calls.len() == 0 {
        Seq::empty()
    } else {
        let before = taken(calls.drop_last());
        match calls.last() {
            DebounceCall::Poll { outcome: StreamPoll::Item(item), .. } => before.push(item),
            _ => before,
        }
    }
}

/// How often the run asked for a new deadline.
pub open spec fn deadlines<T, W>(calls: Seq<DebounceCall<T, W>>) -> nat
    decreases calls.len(),
{
    if calls.len() == 0 {
        0
    } else {
        let before = deadlines(calls.drop_last());
        match calls.last() {
            DebounceCall::Source { turn, .. } => if turn.timer == Timer::Start {
                before + 1
            } else {
                before
            },
            DebounceCall::Deadline { turn, .. } => if turn.timer == Timer::Start {
                before + 1
            } else {
                before
            },
            _ => before,
        }
    }
}

proof fn lemma_debounce_run<T, W>(
    states: Seq<DebounceState<T, W>>,
    calls: Seq<DebounceCall<T, W>>,
)
    requires
        is_debounce_run(states, calls),
    ensures
        ({
            let t = states.last();
            let items = source_items(calls);
            let survived = survivors(deciding(calls));
            &&& t.wf()
            &&& t.pending == waiting(deciding(calls))
            &&& is_subsequence(taken(calls) + t.output.queue, survived)
            &&& survived.len() > 0 ==> (taken(calls) + t.output.queue).len() > 0 && (taken(calls)
                + t.output.queue).last() == survived.last()
            &&& t.pending matches Some(item) ==> items.len() > 0 && item == items.last()
            &&& t.pending is None && items.len() > 0 ==> survived.len() > 0 && survived.last()
                == items.last()
            &&& is_subsequence(
                match t.pending {
                    Some(item) => survived.push(item),
                    None => survived,
                },
                items,
            )
            &&& source_ended(calls) ==> t.output.done && t.pending is None
            &&& deadlines(calls) == items.len()
        }),
    decreases calls.len(),
{
    if calls.len() == 0 {
        assert(taken(calls) + states.last().output.queue =~= Seq::empty());
    } else {
        let n = calls.len() - 1;
        let before = states.drop_last();
        let earlier = calls.drop_last();
        assert forall|j: int| 0 <= j < earlier.len() implies debounce_leads(
            before[j],
            #[trigger] earlier[j],
            before[j + 1],
        ) by {
            assert(earlier[j] == calls[j]);
        }
        lemma_debounce_run(before, earlier);
        let s = states[n];
        let t = states[n + 1];
        assert(debounce_leads(s, calls[n], t));
        let past = deciding(earlier);
        if source_ended(calls) && !source_ended(earlier) {
            let j = choose|j: int|
                0 <= j < calls.len() && (#[trigger] calls[j] matches DebounceCall::Source {
                    outcome,
                    ..
                } && outcome is End);
            if j < n {
                assert(earlier[j] == calls[j]);
            }
        }
        match calls.last() {
            DebounceCall::Started { .. } | DebounceCall::Closed { .. } => {},
            DebounceCall::Source { outcome, turn } => match outcome {
                StreamPoll::Item(item) => {
                    let events = past.push(DebounceEvent::Item(item));
                    assert(events.drop_last() =~= past);
                    assert(survivors(events) == survivors(past));
                    let survived = survivors(past);
                    if let Some(last) = s.pending {
                        lemma_subsequence_remove(
                            survived.push(last),
                            source_items(earlier),
                            survived.len() as int,
                        );
                        assert(survived.push(last).remove(survived.len() as int) =~= survived);
                    }
                    lemma_subsequence_push(survived, source_items(earlier), item);
                },
                StreamPoll::End => {
                    lemma_fires(s, past, taken(earlier));
                },
                StreamPoll::Pending => {},
            },
            DebounceCall::Deadline { ready, turn } => {
                if ready {
                    lemma_fires(s, past, taken(earlier));
                }
            },
            DebounceCall::Poll { waker, outcome } => {
                lemma_polled(taken(earlier), s.output, waker);
            },
        }
    }
}

proof fn lemma_fires<T, W>(s: DebounceState<T, W>, past: Seq<DebounceEvent<T>>, had: Seq<T>)
    requires
        s.wf(),
        !s.output.done,
        s.pending == waiting(past),
        is_subsequence(had + s.output.queue, survivors(past)),
        survivors(past).len() > 0 ==> (had + s.output.queue).len() > 0 && (had
            + s.output.queue).last() == survivors(past).last(),
    ensures
        ({
            let events = past.push(DebounceEvent::Fired);
            let t = s.flushed();
            &&& t.wf()
            &&& survivors(events) == (match s.pending {
                Some(item) => survivors(past).push(item),
                None => survivors(past),
            })
            &&& waiting(events) is None
            &&& is_subsequence(had + t.output.queue, survivors(events))
            &&& survivors(events).len() > 0 ==> (had + t.output.queue).len() > 0 && (had
                + t.output.queue).last() == survivors(events).last()
        }),
{
    let events = past.push(DebounceEvent::Fired);
    assert(events.drop_last() =~= past);
    if past.len() > 0 {
        assert(events[events.len() - 2] == past.last());
    }
    match s.pending {
        Some(item) => {
            lemma_sent(had, s.output, item, survivors(past));
        },
        None => {},
    }
}

/// However the consumer polls in between, what it takes, with what is kept for it,
/// are items that survived, in their order: those that a deadline, or the end of the
/// source, followed before any other item. A new deadline is asked for exactly once
/// per source item.
pub proof fn law_consumer_takes_survivors<T, W>(
    states: Seq<DebounceState<T, W>>,
    calls: Seq<DebounceCall<T, W>>,
)
    requires
        is_debounce_run(states, calls),
    ensures
        is_subsequence(
            taken(calls) + states.last().output.queue,
            survivors(deciding(calls)),
        ),
        is_subsequence(survivors(deciding(calls)), source_items(calls)),
        is_subsequence(taken(calls) + states.last().output.queue, source_items(calls)),
        deadlines(calls) == source_items(calls).len(),
{
    lemma_debounce_run(states, calls);
    let survived = survivors(deciding(calls));
    let items = source_items(calls);
    if let Some(last) = states.last().pending {
        lemma_subsequence_remove(survived.push(last), items, survived.len() as int);
        assert(survived.push(last).remove(survived.len() as int) =~= survived);
    }
    lemma_subsequence_transitive(taken(calls) + states.last().output.queue, survived, items);
}

/// Once the source has ended, a consumer that polls the debounce to its end takes the
/// last source item last.
pub proof fn law_last_item_is_taken_last<T, W>(
    states: Seq<DebounceState<T, W>>,
    calls: Seq<DebounceCall<T, W>>,
)
    requires
        is_debounce_run(states, calls),
        source_ended(calls),
        states.last().output.poll() is End,
        source_items(calls).len() > 0,
    ensures
        taken(calls).len() > 0,
        taken(calls).last() == source_items(calls).last(),
        is_subsequence(taken(calls), survivors(deciding(calls))),
{
    lemma_debounce_run(states, calls);
    assert(taken(calls) + states.last().output.queue =~= taken(calls));
}

/// Every call on a debounce is one of its run.
pub proof fn law_debounce_calls_are_run_calls<T, W>()
    ensures
        forall|capacity: usize, stream: DebounceStream<T, W>| #[trigger]
            call_ensures(debounce::<T, W>, (capacity,), stream) && capacity > 0
                ==> stream@.output.capacity == capacity && is_debounce_run(
                seq![stream@],
                Seq::<DebounceCall<T, W>>::empty(),
            ),
        forall|s: &mut DebounceStream<T, W>, wake: Option<W>| #[trigger]
            call_ensures(DebounceStream::<T, W>::mark_driver_started, (s,), wake) ==> debounce_leads(
                s@,
                DebounceCall::Started { wake },
                final(s)@,
            ),
        forall|s: &mut DebounceStream<T, W>, outcome: StreamPoll<T>, turn: DriverTurn<W>| #[trigger]
            call_ensures(DebounceStream::<T, W>::source_polled, (s, outcome), turn)
                && !s@.output.done ==> debounce_leads(
                s@,
                DebounceCall::Source { outcome, turn },
                final(s)@,
            ),
        forall|s: &mut DebounceStream<T, W>, ready: bool, turn: DriverTurn<W>| #[trigger]
            call_ensures(DebounceStream::<T, W>::deadline_polled, (s, ready), turn)
                && !s@.output.done && s@.pending is Some ==> debounce_leads(
                s@,
                DebounceCall::Deadline { ready, turn },
                final(s)@,
            ),
        forall|s: &mut DebounceStream<T, W>, wake: Option<W>| #[trigger]
            call_ensures(DebounceStream::<T, W>::close, (s,), wake) ==> debounce_leads(
                s@,
                DebounceCall::Closed { wake },
                final(s)@,
            ),
        forall|s: &mut DebounceStream<T, W>, waker: W, outcome: StreamPoll<T>| #[trigger]
            call_ensures(DebounceStream::<T, W>::poll_next, (s, waker), outcome) ==> debounce_leads(
                s@,
                DebounceCall::Poll { waker, outcome },
                final(s)@,
            ),
{
}

/// The item that waits for its quiet period after these calls: the last one of the
/// source, unless its deadline has passed or the source has ended.
pub open spec fn pending_item<T, W>(calls: Seq<DebounceCall<T, W>>) -> Option<T>
    decreases calls.len(),
{
    if calls.len() == 0 {
        None
    } else {
        match calls.last() {
            DebounceCall::Source { outcome: StreamPoll::Item(item), .. } => Some(item),
            DebounceCall::Source { outcome: StreamPoll::End, .. } => None,
            DebounceCall::Deadline { ready: true, .. } => None,
            _ => pending_item(calls.drop_last()),
        }
    }
}

/// The items that the end of a quiet period, or of the source, completed in these calls,
/// and the consumer's polls.
pub open spec fn debounce_acts<T, W>(calls: Seq<DebounceCall<T, W>>) -> Seq<HotAct<T>>
    decreases calls.len(),
{
    if calls.len() == 0 {
        Seq::empty()
    } else {
        let before = debounce_acts(calls.drop_last());
        let flushed = match pending_item(calls.drop_last()) {
            Some(item) => before.push(HotAct::Complete(item)),
            None => before,
        };
        match calls.last() {
            DebounceCall::Source { outcome: StreamPoll::End, .. } => flushed,
            DebounceCall::Deadline { ready: true, .. } => flushed,
            DebounceCall::Poll { .. } => before.push(HotAct::Take),
            _ => before,
        }
    }
}

/// The source has ended in these calls, or the driver is gone.
pub open spec fn is_over<T, W>(calls: Seq<DebounceCall<T, W>>) -> bool
    decreases calls.len(),
{
    calls.len() > 0 && (is_over(calls.drop_last()) || calls.last() is Closed || (
    calls.last() matches DebounceCall::Source { outcome, .. } && outcome is End))
}

/// How many items and passed deadlines the driver has handled in these calls.
pub open spec fn handled<T, W>(calls: Seq<DebounceCall<T, W>>) -> nat
    decreases calls.len(),
{
    if calls.len() == 0 {
        0
    } else {
        let before = handled(calls.drop_last());
        match calls.last() {
            DebounceCall::Source { outcome: StreamPoll::Item(_), .. } => before + 1,
            DebounceCall::Deadline { ready: true, .. } => before + 1,
            _ => before,
        }
    }
}

proof fn lemma_debounce_history<T, W>(
    states: Seq<DebounceState<T, W>>,
    calls: Seq<DebounceCall<T, W>>,
    n: int,
)
    requires
        is_debounce_run(states, calls),
        0 <= n <= calls.len(),
    ensures
        states[n].wf(),
        states[n].output.capacity == states[0].output.capacity,
        states[n].output.done == is_over(calls.take(n)),
        states[n].output.queue == backlog(debounce_acts(calls.take(n)), states[0].output.capacity),
        states[n].pending == pending_item(calls.take(n)),
        states[n].spent == handled(calls.take(n)) % (WORK_BUDGET as nat),
    decreases n,
{
    if n > 0 {
        lemma_debounce_history(states, calls, n - 1);
        let past = calls.take(n);
        assert(past.drop_last() =~= calls.take(n - 1));
        assert(past.last() == calls[n - 1]);
        let s = states[n - 1];
        assert(debounce_leads(s, calls[n - 1], states[n]));
        let acts = debounce_acts(calls.take(n - 1));
        lemma_whole_budgets(handled(calls.take(n - 1)));
        lemma_backlog_push(acts, HotAct::Take, s.output.capacity);
        if s.pending is Some && !s.output.done {
            lemma_sent_backlog(s.output, acts, s.pending->0);
        }
    } else {
        assert(states[0].output.queue =~= Seq::empty());
    }
}

/// The consumer gets exactly the items that a quiet period follows, and the last one
/// when the source ends, in their order and each once, but for those that a full queue
/// had to drop, the oldest first. It gets the end only after the source has ended or the
/// driver is gone, and then at once when nothing is left.
pub proof fn law_consumer_gets_what_survives<T, W>(
    states: Seq<DebounceState<T, W>>,
    calls: Seq<DebounceCall<T, W>>,
    j: int,
)
    requires
        is_debounce_run(states, calls),
        0 <= j < calls.len(),
        calls[j] is Poll,
    ensures
        calls[j]->Poll_outcome == found(
            backlog(debounce_acts(calls.take(j)), states[0].output.capacity),
            is_over(calls.take(j)),
        ),
{
    lemma_debounce_history(states, calls, j);
    assert(debounce_leads(states[j], calls[j], states[j + 1]));
}

/// What the driver has to do after each report: every item starts a new deadline, and
/// only that does; the deadline is asked exactly when the source is silent and an item
/// waits; the driver stops exactly at the end of the source, and waits only when there is
/// nothing to handle; it yields with every [`WORK_BUDGET`]-th item or passed deadline,
/// and else goes on with the source.
pub proof fn law_driver_is_told_what_to_do<T, W>(
    states: Seq<DebounceState<T, W>>,
    calls: Seq<DebounceCall<T, W>>,
    j: int,
)
    requires
        is_debounce_run(states, calls),
        0 <= j < calls.len(),
    ensures
        ({
            let goes_on = if handled(calls.take(j + 1)) % (WORK_BUDGET as nat) == 0 {
                DriverStep::Yield
            } else {
                DriverStep::PollSource
            };
            match calls[j] {
                DebounceCall::Source { outcome: StreamPoll::Item(_), turn } => {
                    &&& turn.timer == Timer::Start
                    &&& turn.step == goes_on
                },
                DebounceCall::Source { outcome: StreamPoll::End, turn } => {
                    &&& turn.timer == Timer::Stop
                    &&& turn.step == DriverStep::Finish
                },
                DebounceCall::Source { outcome: StreamPoll::Pending, turn } => {
                    &&& turn.timer == Timer::Keep
                    &&& turn.step == (if pending_item(calls.take(j)) is Some {
                        DriverStep::PollDeadline
                    } else {
                        DriverStep::Park
                    })
                },
                DebounceCall::Deadline { ready: true, turn } => {
                    &&& turn.timer == Timer::Stop
                    &&& turn.step == goes_on
                },
                DebounceCall::Deadline { ready: false, turn } => {
                    &&& turn.timer == Timer::Keep
                    &&& turn.step == DriverStep::Park
                },
                _ => true,
            }
        }),
{
    lemma_debounce_history(states, calls, j);
    assert(debounce_leads(states[j], calls[j], states[j + 1]));
    lemma_whole_budgets(handled(calls.take(j)));
    assert(calls.take(j + 1).drop_last() =~= calls.take(j));
    assert(calls.take(j + 1).last() == calls[j]);
}

/// What the call means to the consumer: its own poll, or the waker that is handed out.
pub open spec fn debounce_event<T, W>(call: DebounceCall<T, W>) -> HotEvent<T, W> {
    match call {
        DebounceCall::Started { wake } => HotEvent::Other { wake },
        DebounceCall::Source { turn, .. } => HotEvent::Other { wake: turn.wake },
        DebounceCall::Deadline { turn, .. } => HotEvent::Other { wake: turn.wake },
        DebounceCall::Closed { wake } => HotEvent::Other { wake },
        DebounceCall::Poll { waker, outcome } => HotEvent::Poll { waker, outcome },
    }
}

proof fn lemma_debounce_trace<T, W>(
    states: Seq<DebounceState<T, W>>,
    calls: Seq<DebounceCall<T, W>>,
) -> (trace: (Seq<HotState<T, W>>, Seq<HotEvent<T, W>>))
    requires
        is_debounce_run(states, calls),
    ensures
        trace.0 == Seq::new(states.len(), |j: int| states[j].output),
        trace.1 == Seq::new(calls.len(), |j: int| debounce_event(calls[j])),
        is_hot_trace(trace.0, trace.1),
{
    let outputs = Seq::new(states.len(), |j: int| states[j].output);
    let events = Seq::new(calls.len(), |j: int| debounce_event(calls[j]));
    assert forall|j: int| 0 <= j < events.len() implies match #[trigger] events[j] {
        HotEvent::Poll { waker, outcome } => outputs[j + 1] == outputs[j].polled(waker) && outcome
            == outputs[j].poll(),
        HotEvent::Other { wake } => tells(outputs[j], wake, outputs[j + 1]),
    } by {
        assert(debounce_leads(states[j], calls[j], states[j + 1]));
        lemma_debounce_history(states, calls, j);
    }
    lemma_hot_trace(outputs, events);
    (outputs, events)
}

/// A consumer whose last poll found nothing is woken, with the waker of that poll, no
/// later than by the call with which there is an item for it or the stream is over.
pub proof fn law_waiting_consumer_is_woken<T, W>(
    states: Seq<DebounceState<T, W>>,
    calls: Seq<DebounceCall<T, W>>,
    a: int,
    b: int,
)
    requires
        is_debounce_run(states, calls),
        0 <= a < b < states.len(),
        calls[a] matches DebounceCall::Poll { outcome, .. } && outcome is Pending,
        forall|c: int| a < c < b ==> !(#[trigger] calls[c] is Poll),
        states[b].output.queue.len() > 0 || states[b].output.done,
    ensures
        exists|c: int|
            a < c < b && debounce_event(#[trigger] calls[c]) == (HotEvent::<T, W>::Other {
                wake: Some(calls[a]->Poll_waker),
            }),
{
    let (outputs, events) = lemma_debounce_trace(states, calls);
    let waker = calls[a]->Poll_waker;
    assert(events[a] == debounce_event(calls[a]));
    assert forall|c: int| a < c < b implies #[trigger] events[c] is Other by {
        assert(!(calls[c] is Poll));
    }
    lemma_waiting_consumer_is_told(outputs, events, a, b, waker);
    let c = choose|c: int|
        a < c < b && (#[trigger] events[c] matches HotEvent::Other { wake } && wake == Some(waker));
    assert(debounce_event(calls[c]) == events[c]);
}

/// Nobody is woken but a consumer whose last poll found nothing, and that once.
pub proof fn law_only_the_waiting_consumer_is_woken<T, W>(
    states: Seq<DebounceState<T, W>>,
    calls: Seq<DebounceCall<T, W>>,
    c: int,
    waker: W,
)
    requires
        is_debounce_run(states, calls),
        0 <= c < calls.len(),
        debounce_event(calls[c]) == (HotEvent::<T, W>::Other { wake: Some(waker) }),
    ensures
        exists|a: int|
            0 <= a < c && debounce_event(#[trigger] calls[a]) == (HotEvent::Poll {
                waker,
                outcome: StreamPoll::<T>::Pending,
            }) && forall|d: int|
                a < d < c ==> debounce_event(#[trigger] calls[d]) == (HotEvent::<T, W>::Other {
                    wake: None,
                }),
{
    let (outputs, events) = lemma_debounce_trace(states, calls);
    assert(events[c] == debounce_event(calls[c]));
    lemma_told_consumer_waits(outputs, events, c, waker);
    let a = choose|a: int|
        0 <= a < c && (#[trigger] events[a] matches HotEvent::Poll { waker: w, outcome } && w
            == waker && outcome is Pending) && forall|d: int|
            a < d < c ==> (#[trigger] events[d] matches HotEvent::Other { wake: None });
    assert(debounce_event(calls[a]) == events[a]);
    assert forall|d: int| a < d < c implies debounce_event(#[trigger] calls[d]) == (
    HotEvent::<T, W>::Other { wake: None }) by {
        assert(events[d] == debounce_event(calls[d]));
    }
}

} // verus!
