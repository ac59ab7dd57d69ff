use vstd::prelude::*;

use crate::budget::{WorkBudget, WORK_BUDGET};
use crate::driver::{
    lemma_whole_budgets, spent_after_work, step_after_work, work, DriverStep, DriverTurn, Timer,
};
use crate::hot::{
    backlog, found, is_hot_trace, lemma_backlog_push, lemma_hot_trace, lemma_sent_backlog,
    lemma_told_consumer_waits, lemma_waiting_consumer_is_told, newest, tells, HotAct, HotChannel,
    HotEvent, HotState,
};
use crate::poll::StreamPoll;
use crate::subsequence::{
    is_subsequence, lemma_polled, lemma_sent, lemma_subsequence_push, lemma_subsequence_transitive,
};

verus! {

/// The mathematical state of a throttle.
#[verifier::ext_equal]
pub struct ThrottleState<T, W> {
    /// The completed results that the consumer has not taken.
    pub output: HotState<T, W>,
    /// A window is running, and with it a deadline.
    pub in_window: bool,
    /// An item of the running window was just discarded, and the deadline is to
    /// be asked whether the window ended with it.
    pub checking: bool,
    /// The work that the driver has done since it last yielded.
    pub spent: nat,
}

impl<T, W> ThrottleState<T, W> {
    pub open spec fn wf(self) -> bool {
        &&& self.output.wf()
        &&& self.spent < WORK_BUDGET
        &&& self.checking ==> self.in_window
    }

    /// The state after an item that found no window: it is completed and starts one.
    pub open spec fn opened(self, item: T) -> Self {
        ThrottleState {
            output: self.output.sent(item),
            in_window: true,
            spent: spent_after_work(self.spent),
            ..self
        }
    }

    /// The state after an item that belongs to the running window: it is discarded.
    pub open spec fn discarded(self) -> Self {
        ThrottleState { checking: true, ..self }
    }

    /// The state after the deadline was asked.
    pub open spec fn checked(self, ready: bool) -> Self {
        ThrottleState {
            in_window: !ready,
            checking: false,
            spent: if ready || self.checking {
                spent_after_work(self.spent)
            } else {
                self.spent
            },
            ..self
        }
    }

    /// What the report of a poll of the source does.
    pub open spec fn reports(self, outcome: StreamPoll<T>, turn: DriverTurn<W>, after: Self) -> bool {
        match outcome {
            StreamPoll::Item(item) => if self.in_window {
                &&& after == self.discarded()
                &&& turn.step == DriverStep::PollDeadline
                &&& turn.timer == Timer::Keep
                &&& turn.wake is None
            } else {
                &&& after == self.opened(item)
                &&& turn.step == step_after_work(self.spent)
                &&& turn.timer == Timer::Start
                &&& turn.wake == self.output.sent_wakes()
            },
            StreamPoll::End => {
                &&& after == self.completed()
                &&& turn.step == DriverStep::Finish
                &&& turn.timer == Timer::Stop
                &&& turn.wake == self.output.waker
            },
            StreamPoll::Pending => {
                &&& after == self
                &&& turn.step == (if self.in_window {
                    DriverStep::PollDeadline
                } else {
                    DriverStep::Park
                })
                &&& turn.timer == Timer::Keep
                &&& turn.wake is None
            },
        }
    }

    /// What the report of a poll of the deadline does.
    pub open spec fn times(self, ready: bool, turn: DriverTurn<W>, after: Self) -> bool {
        &&& after == self.checked(ready)
        &&& turn.step == (if ready || self.checking {
            step_after_work(self.spent)
        } else {
            DriverStep::Park
        })
        &&& turn.timer == (if ready {
            Timer::Stop
        } else {
            Timer::Keep
        })
        &&& turn.wake is None
    }

    /// The state after the source has completed. Nothing is flushed.
    pub open spec fn completed(self) -> Self {
        ThrottleState { output: self.output.closed(), in_window: false, ..self }
    }
}

/// A hot leading-edge throttle stream with a bounded, drop-oldest output queue.
pub struct ThrottleStream<T, W> {
    channel: HotChannel<T, W>,
    in_window: bool,
    checking: bool,
    budget: WorkBudget,
}

impl<T, W> View for ThrottleStream<T, W> {
    type V = ThrottleState<T, W>;

    closed spec fn view(&self) -> ThrottleState<T, W> {
        ThrottleState {
            output: self.channel@,
            in_window: self.in_window,
            checking: self.checking,
            spent: self.budget.spent(),
        }
    }
}

/// A throttle whose source has given nothing yet.
///
/// `capacity` bounds the completed, unconsumed results. A full queue drops its
/// oldest result.
pub fn throttle<T, W>(capacity: usize) -> (stream: ThrottleStream<T, W>)
    requires
        capacity > 0,
    ensures
        stream@.wf(),
        stream@ == (ThrottleState::<T, W> {
            output: HotState {
                queue: Seq::empty(),
                capacity: capacity as nat,
                done: false,
                waker: None,
                driver_started: false,
            },
            in_window: false,
            checking: false,
            spent: 0,
        }),
{
    ThrottleStream {
        channel: HotChannel::new(capacity),
        in_window: false,
        checking: false,
        budget: WorkBudget::new(),
    }
}

impl<T, W> ThrottleStream<T, W> {
    /// Notes that the driver runs, and hands out the waker to wake.
    pub fn mark_driver_started(&mut self) -> (wake: Option<W>)
        requires
            old(self)@.wf(),
        ensures
            final(self)@.wf(),
            wake == old(self)@.output.waker,
            final(self)@ == (ThrottleState {
                output: HotState { driver_started: true, waker: None, ..old(self)@.output },
                ..old(self)@
            }),
    {
        self.channel.mark_driver_started()
    }

    /// Reports what the driver's poll of the source gave.
    ///
    /// The source is asked before the deadline, so an item that is ready together
    /// with the deadline still belongs to the old window and is discarded. The
    /// deadline is asked right after it, so that a source that is always ready
    /// does not keep the window from ending.
    pub fn source_polled(&mut self, outcome: StreamPoll<T>) -> (turn: DriverTurn<W>)
        requires
            old(self)@.wf(),
            !old(self)@.checking,
        ensures
            final(self)@.wf(),
            old(self)@.reports(outcome, turn, final(self)@),
    {
        match outcome {
            StreamPoll::Item(item) => {
                if self.in_window {
                    self.checking = true;
                    DriverTurn { step: DriverStep::PollDeadline, timer: Timer::Keep, wake: None }
                } else {
                    let wake = self.channel.send(item);
                    self.in_window = true;
                    let step = work(&mut self.budget);
                    DriverTurn { step, timer: Timer::Start, wake }
                }
            },
            StreamPoll::End => {
                let wake = self.channel.close();
                self.in_window = false;
                DriverTurn { step: DriverStep::Finish, timer: Timer::Stop, wake }
            },
            StreamPoll::Pending => {
                let step = if self.in_window {
                    DriverStep::PollDeadline
                } else {
                    DriverStep::Park
                };
                DriverTurn { step, timer: Timer::Keep, wake: None }
            },
        }
    }

    /// Reports whether the deadline has passed. If so, the window is over.
    pub fn deadline_polled(&mut self, ready: bool) -> (turn: DriverTurn<W>)
        requires
            old(self)@.wf(),
            old(self)@.in_window,
        ensures
            final(self)@.wf(),
            old(self)@.times(ready, turn, final(self)@),
    {
        let worked = ready || self.checking;
        self.in_window = !ready;
        self.checking = false;
        let timer = if ready {
            Timer::Stop
        } else {
            Timer::Keep
        };
        let step = if worked {
            work(&mut self.budget)
        } else {
            DriverStep::Park
        };
        DriverTurn { step, timer, wake: None }
    }

    /// The driver is gone, for whatever reason: completes the stream.
    pub fn close(&mut self) -> (wake: Option<W>)
        requires
            old(self)@.wf(),
        ensures
            final(self)@.wf(),
            wake == old(self)@.output.waker,
            final(self)@ == (ThrottleState { output: old(self)@.output.closed(), ..old(self)@ }),
    {
        self.channel.close()
    }

    /// The consumer's poll, with the waker of the polling task.
    pub fn poll_next(&mut self, waker: W) -> (outcome: StreamPoll<T>)
        requires
            old(self)@.wf(),
        ensures
            final(self)@.wf(),
            final(self)@ == (ThrottleState {
                output: old(self)@.output.polled(waker),
                ..old(self)@
            }),
            outcome == old(self)@.output.poll(),
    {
        self.channel.poll_next(waker)
    }
}

/// What a throttle sees.
pub enum ThrottleEvent<T> {
    /// The source gave an item.
    Item(T),
    /// The running window ended.
    Elapsed,
}

/// The state after these events. An item of a running window is discarded, and
/// the deadline that is asked right after it has not passed yet; a window that
/// ends together with an item ends after it.
pub open spec fn throttle_after<T, W>(
    s: ThrottleState<T, W>,
    events: Seq<ThrottleEvent<T>>,
) -> ThrottleState<T, W>
    decreases events.len(),
{
    if events.len() == 0 {
        s
    } else {
        let before = throttle_after(s, events.drop_last());
        match events.last() {
            ThrottleEvent::Item(item) => if before.in_window {
                before.discarded().checked(false)
            } else {
                before.opened(item)
            },
            ThrottleEvent::Elapsed => before.checked(true),
        }
    }
}

/// The leading items: the first one, and every one that directly follows the end
/// of a window.
pub open spec fn leading<T>(events: Seq<ThrottleEvent<T>>) -> Seq<T>
    decreases events.len(),
{
    if events.len() == 0 {
        Seq::empty()
    } else {
        let before = leading(events.drop_last());
        match events.last() {
            ThrottleEvent::Item(item) => if events.len() == 1 || events[events.len() - 2] is Elapsed {
                before.push(item)
            } else {
                before
            },
            ThrottleEvent::Elapsed => before,
        }
    }
}

/// Exactly the leading item of each window is completed, in order; of those that
/// are not consumed, the newest are kept. No trailing item is ever kept.
pub proof fn law_leading_items_are_completed<T, W>(
    s: ThrottleState<T, W>,
    events: Seq<ThrottleEvent<T>>,
)
    requires
        s.wf(),
        !s.output.done,
        !s.in_window,
        s.output.queue.len() == 0,
    ensures
        throttle_after(s, events).output.queue == newest(leading(events), s.output.capacity),
        throttle_after(s, events).completed().output.queue == newest(
            leading(events),
            s.output.capacity,
        ),
{
    lemma_throttle_after(s, events);
}

proof fn lemma_throttle_after<T, W>(s: ThrottleState<T, W>, events: Seq<ThrottleEvent<T>>)
    requires
        s.wf(),
        !s.output.done,
        !s.in_window,
        s.output.queue.len() == 0,
    ensures
        ({
            let t = throttle_after(s, events);
            &&& t.wf()
            &&& !t.output.done
            &&& t.output.capacity == s.output.capacity
            &&& t.output.queue == newest(leading(events), s.output.capacity)
            &&& t.in_window == (events.len() > 0 && events.last() is Item)
        }),
    decreases events.len(),
{
    if events.len() == 0 {
        assert(s.output.queue =~= newest(leading(events), s.output.capacity));
    } else {
        let init = events.drop_last();
        lemma_throttle_after(s, init);
        let cap = s.output.capacity;
        if events.len() >= 2 {
            assert(init.last() == events[events.len() - 2]);
        }
        match events.last() {
            ThrottleEvent::Item(item) => {
                assert(newest(newest(leading(init), cap).push(item), cap) =~= newest(
                    leading(init).push(item),
                    cap,
                ));
            },
            ThrottleEvent::Elapsed => {},
        }
    }
}

/// One call on a throttle, with what it gave.
pub enum ThrottleCall<T, W> {
    /// The driver runs.
    Started { wake: Option<W> },
    /// A poll of the source is reported.
    Source { outcome: StreamPoll<T>, turn: DriverTurn<W> },
    /// A poll of the deadline is reported.
    Deadline { ready: bool, turn: DriverTurn<W> },
    /// The driver is gone.
    Closed { wake: Option<W> },
    /// The consumer polls.
    Poll { waker: W, outcome: StreamPoll<T> },
}

/// The call leads from one state to the other. The driver reports until the source
/// has completed or the driver is gone, and a deadline runs only while a window does.
pub open spec fn throttle_leads<T, W>(
    s: ThrottleState<T, W>,
    call: ThrottleCall<T, W>,
    t: ThrottleState<T, W>,
) -> bool {
    match call {
        ThrottleCall::Started { wake } => {
            &&& wake == s.output.waker
            &&& t == (ThrottleState {
                output: HotState { driver_started: true, waker: None, ..s.output },
                ..s
            })
        },
        ThrottleCall::Source { outcome, turn } => !s.output.done && !s.checking && s.reports(
            outcome,
            turn,
            t,
        ),
        ThrottleCall::Deadline { ready, turn } => !s.output.done && s.in_window && s.times(
            ready,
            turn,
            t,
        ),
        ThrottleCall::Closed { wake } => {
            &&& wake == s.output.waker
            &&& t == (ThrottleState { output: s.output.closed(), ..s })
        },
        ThrottleCall::Poll { waker, outcome } => {
            &&& outcome == s.output.poll()
            &&& t == (ThrottleState { output: s.output.polled(waker), ..s })
        },
    }
}

/// A run of calls on a new throttle: each state follows from the one before it.
pub open spec fn is_throttle_run<T, W>(
    states: Seq<ThrottleState<T, W>>,
    calls: Seq<ThrottleCall<T, W>>,
) -> bool {
    &&& states.len() == calls.len() + 1
    &&& states[0].wf()
    &&& !states[0].output.done
    &&& !states[0].in_window
    &&& states[0].output.queue.len() == 0
    &&& states[0].output.waker is None
    &&& states[0].spent == 0
    &&& forall|j: int|
        0 <= j < calls.len() ==> throttle_leads(states[j], #[trigger] calls[j], states[j + 1])
}

/// The items that the source gave in the run.
pub open spec fn source_items<T, W>(calls: Seq<ThrottleCall<T, W>>) -> Seq<T>
    decreases calls.len(),
{
    if calls.len() == 0 {
        Seq::empty()
    } else {
        let before = source_items(calls.drop_last());
        match calls.last() {
            ThrottleCall::Source { outcome: StreamPoll::Item(item), .. } => before.push(item),
            _ => before,
        }
    }
}

/// What decided in the run which items lead.
pub open spec fn deciding<T, W>(calls: Seq<ThrottleCall<T, W>>) -> Seq<ThrottleEvent<T>>
    decreases calls.len(),
{
    if calls.len() == 0 {
        Seq::empty()
    } else {
        let before = deciding(calls.drop_last());
        match calls.last() {
            ThrottleCall::Source { outcome: StreamPoll::Item(item), .. } => before.push(
                ThrottleEvent::Item(item),
            ),
            ThrottleCall::Deadline { ready: true, .. } => before.push(ThrottleEvent::Elapsed),
            _ => before,
        }
    }
}

/// The items that the consumer took in the run.
pub open spec fn taken<T, W>(calls: Seq<ThrottleCall<T, W>>) -> Seq<T>
    decreases calls.len(),
{
    if calls.len() == 0 {
        Seq::empty()
    } else {
        let before = taken(calls.drop_last());
        match calls.last() {
            ThrottleCall::Poll { outcome: StreamPoll::Item(item), .. } => before.push(item),
            _ => before,
        }
    }
}

/// How often the run asked for a new deadline.
pub open spec fn deadlines<T, W>(calls: Seq<ThrottleCall<T, W>>) -> nat
    decreases calls.len(),
{
    if calls.len() == 0 {
        0
    } else {
        let before = deadlines(calls.drop_last());
        match calls.last() {
            ThrottleCall::Source { turn, .. } => if turn.timer == Timer::Start {
                before + 1
            } else {
                before
            },
            ThrottleCall::Deadline { turn, .. } => if turn.timer == Timer::Start {
                before + 1
            } else {
                before
            },
            _ => before,
        }
    }
}

proof fn lemma_throttle_run<T, W>(
    states: Seq<ThrottleState<T, W>>,
    calls: Seq<ThrottleCall<T, W>>,
)
    requires
        is_throttle_run(states, calls),
    ensures
        ({
            let t = states.last();
            let items = source_items(calls);
            let events = deciding(calls);
            let led = leading(events);
            &&& t.wf()
            &&& t.output.capacity == states[0].output.capacity
            &&& !t.output.done ==> t.in_window == (events.len() > 0 && events.last() is Item)
            &&& is_subsequence(taken(calls) + t.output.queue, led)
            &&& is_subsequence(led, items)
            &&& events.len() == 0 <==> items.len() == 0
            &&& items.len() > 0 ==> led.len() > 0 && led[0] == items[0]
            &&& led.len() <= t.output.capacity ==> taken(calls) + t.output.queue == led
            &&& deadlines(calls) == led.len()
        }),
    decreases calls.len(),
{
    if calls.len() == 0 {
        assert(taken(calls) + states.last().output.queue =~= Seq::empty());
    } else {
        let n = calls.len() - 1;
        let before = states.drop_last();
        let earlier = calls.drop_last();
        assert forall|j: int| 0 <= j < earlier.len() implies throttle_leads(
            before[j],
            #[trigger] earlier[j],
            before[j + 1],
        ) by {
            assert(earlier[j] == calls[j]);
        }
        lemma_throttle_run(before, earlier);
        let s = states[n];
        let t = states[n + 1];
        assert(throttle_leads(s, calls[n], t));
        let past = deciding(earlier);
        match calls.last() {
            ThrottleCall::Started { .. } | ThrottleCall::Closed { .. } => {},
            ThrottleCall::Source { outcome, turn } => match outcome {
                StreamPoll::Item(item) => {
                    let events = past.push(ThrottleEvent::Item(item));
                    assert(events.drop_last() =~= past);
                    if past.len() > 0 {
                        assert(events[events.len() - 2] == past.last());
                    }
                    lemma_subsequence_push(leading(past), source_items(earlier), item);
                    if !s.in_window {
                        assert(leading(events) == leading(past).push(item));
                        lemma_sent(taken(earlier), s.output, item, leading(past));
                    } else {
                        assert(leading(events) == leading(past));
                    }
                },
                _ => {},
            },
            ThrottleCall::Deadline { ready, turn } => {
                if ready {
                    let events = past.push(ThrottleEvent::Elapsed);
                    assert(events.drop_last() =~= past);
                }
            },
            ThrottleCall::Poll { waker, outcome } => {
                lemma_polled(taken(earlier), s.output, waker);
            },
        }
    }
}

/// However the consumer polls in between, what it takes, with what is kept for it,
/// are leading items, in their order: the first source item, and each one that
/// directly follows the end of a window. Where the capacity holds all of them, they
/// are exactly the leading items. A new deadline is asked for exactly once per leading
/// item, and never for a discarded one.
pub proof fn law_consumer_takes_leading_items<T, W>(
    states: Seq<ThrottleState<T, W>>,
    calls: Seq<ThrottleCall<T, W>>,
)
    requires
        is_throttle_run(states, calls),
    ensures
        ({
            let led = leading(deciding(calls));
            let seen = taken(calls) + states.last().output.queue;
            &&& is_subsequence(seen, led)
            &&& is_subsequence(seen, source_items(calls))
            &&& led.len() <= states[0].output.capacity ==> seen == led
            &&& source_items(calls).len() > 0 ==> led.len() > 0 && led[0] == source_items(calls)[0]
            &&& deadlines(calls) == led.len()
        }),
{
    lemma_throttle_run(states, calls);
    lemma_subsequence_transitive(
        taken(calls) + states.last().output.queue,
        leading(deciding(calls)),
        source_items(calls),
    );
}

/// A consumer that polls a throttle to its end takes exactly the leading items, the
/// first source item first, where the capacity holds all of them.
pub proof fn law_polled_throttle_gives_leading_items<T, W>(
    states: Seq<ThrottleState<T, W>>,
    calls: Seq<ThrottleCall<T, W>>,
)
    requires
        is_throttle_run(states, calls),
        states.last().output.poll() is End,
        leading(deciding(calls)).len() <= states[0].output.capacity,
    ensures
        taken(calls) == leading(deciding(calls)),
        source_items(calls).len() > 0 ==> taken(calls).len() > 0 && taken(calls)[0] == source_items(
            calls,
        )[0],
{
    lemma_throttle_run(states, calls);
    assert(taken(calls) + states.last().output.queue =~= taken(calls));
}

/// Every call on a throttle is one of its run.
pub proof fn law_throttle_calls_are_run_calls<T, W>()
    ensures
        forall|capacity: usize, stream: ThrottleStream<T, W>| #[trigger]
            call_ensures(throttle::<T, W>, (capacity,), stream) && capacity > 0
                ==> stream@.output.capacity == capacity && is_throttle_run(
                seq![stream@],
                Seq::<ThrottleCall<T, W>>::empty(),
            ),
        forall|s: &mut ThrottleStream<T, W>, wake: Option<W>| #[trigger]
            call_ensures(ThrottleStream::<T, W>::mark_driver_started, (s,), wake) ==> throttle_leads(
                s@,
                ThrottleCall::Started { wake },
                final(s)@,
            ),
        forall|s: &mut ThrottleStream<T, W>, outcome: StreamPoll<T>, turn: DriverTurn<W>| #[trigger]
            call_ensures(ThrottleStream::<T, W>::source_polled, (s, outcome), turn)
                && !s@.output.done && !s@.checking ==> throttle_leads(
                s@,
                ThrottleCall::Source { outcome, turn },
                final(s)@,
            ),
        forall|s: &mut ThrottleStream<T, W>, ready: bool, turn: DriverTurn<W>| #[trigger]
            call_ensures(ThrottleStream::<T, W>::deadline_polled, (s, ready), turn)
                && !s@.output.done && s@.in_window ==> throttle_leads(
                s@,
                ThrottleCall::Deadline { ready, turn },
                final(s)@,
            ),
        forall|s: &mut ThrottleStream<T, W>, wake: Option<W>| #[trigger]
            call_ensures(ThrottleStream::<T, W>::close, (s,), wake) ==> throttle_leads(
                s@,
                ThrottleCall::Closed { wake },
                final(s)@,
            ),
        forall|s: &mut ThrottleStream<T, W>, waker: W, outcome: StreamPoll<T>| #[trigger]
            call_ensures(ThrottleStream::<T, W>::poll_next, (s, waker), outcome) ==> throttle_leads(
                s@,
                ThrottleCall::Poll { waker, outcome },
                final(s)@,
            ),
{
}

/// A window runs after these calls: an item came, and no deadline has passed since.
pub open spec fn window_runs<T, W>(calls: Seq<ThrottleCall<T, W>>) -> bool
    decreases calls.len(),
{
    if calls.len() == 0 {
        false
    } else {
        match calls.last() {
            ThrottleCall::Source { outcome: StreamPoll::Item(_), .. } => true,
            ThrottleCall::Source { outcome: StreamPoll::End, .. } => false,
            ThrottleCall::Deadline { ready: true, .. } => false,
            _ => window_runs(calls.drop_last()),
        }
    }
}

/// An item was discarded since the deadline was last asked.
pub open spec fn item_discarded<T, W>(calls: Seq<ThrottleCall<T, W>>) -> bool
    decreases calls.len(),
{
    if calls.len() == 0 {
        false
    } else {
        match calls.last() {
            ThrottleCall::Source { outcome: StreamPoll::Item(_), .. } => window_runs(
                calls.drop_last(),
            ),
            ThrottleCall::Deadline { .. } => false,
            _ => item_discarded(calls.drop_last()),
        }
    }
}

/// The items that came in these calls while no window ran, and the consumer's polls.
pub open spec fn throttle_acts<T, W>(calls: Seq<ThrottleCall<T, W>>) -> Seq<HotAct<T>>
    decreases calls.len(),
{
    if calls.len() == 0 {
        Seq::empty()
    } else {
        let before = throttle_acts(calls.drop_last());
        match calls.last() {
            ThrottleCall::Source { outcome: StreamPoll::Item(item), .. } => if window_runs(
                calls.drop_last(),
            ) {
                before
            } else {
                before.push(HotAct::Complete(item))
            },
            ThrottleCall::Poll { .. } => before.push(HotAct::Take),
            _ => before,
        }
    }
}

/// The source has ended in these calls, or the driver is gone.
pub open spec fn is_over<T, W>(calls: Seq<ThrottleCall<T, W>>) -> bool
    decreases calls.len(),
{
    calls.len() > 0 && (is_over(calls.drop_last()) || calls.last() is Closed || (
    calls.last() matches ThrottleCall::Source { outcome, .. } && outcome is End))
}

/// How much the driver has handled in these calls: the items that lead a window, and the
/// deadlines that it asked about after a discarded item or found passed.
pub open spec fn handled<T, W>(calls: Seq<ThrottleCall<T, W>>) -> nat
    decreases calls.len(),
{
    if calls.len() == 0 {
        0
    } else {
        let before = handled(calls.drop_last());
        match calls.last() {
            ThrottleCall::Source { outcome: StreamPoll::Item(_), .. } => if window_runs(
                calls.drop_last(),
            ) {
                before
            } else {
                before + 1
            },
            ThrottleCall::Deadline { ready, .. } => if ready || item_discarded(calls.drop_last()) {
                before + 1
            } else {
                before
            },
            _ => before,
        }
    }
}

proof fn lemma_throttle_history<T, W>(
    states: Seq<ThrottleState<T, W>>,
    calls: Seq<ThrottleCall<T, W>>,
    n: int,
)
    requires
        is_throttle_run(states, calls),
        0 <= n <= calls.len(),
    ensures
        states[n].wf(),
        states[n].output.capacity == states[0].output.capacity,
        states[n].output.done == is_over(calls.take(n)),
        states[n].output.queue == backlog(throttle_acts(calls.take(n)), states[0].output.capacity),
        states[n].in_window == window_runs(calls.take(n)),
        states[n].checking == item_discarded(calls.take(n)),
        states[n].spent == handled(calls.take(n)) % (WORK_BUDGET as nat),
    decreases n,
{
    if n > 0 {
        lemma_throttle_history(states, calls, n - 1);
        let past = calls.take(n);
        assert(past.drop_last() =~= calls.take(n - 1));
        assert(past.last() == calls[n - 1]);
        let s = states[n - 1];
        assert(throttle_leads(s, calls[n - 1], states[n]));
        let acts = throttle_acts(calls.take(n - 1));
        lemma_whole_budgets(handled(calls.take(n - 1)));
        lemma_backlog_push(acts, HotAct::Take, s.output.capacity);
        if let ThrottleCall::Source { outcome: StreamPoll::Item(item), .. } = calls[n - 1] {
            lemma_sent_backlog(s.output, acts, item);
        }
    } else {
        assert(states[0].output.queue =~= Seq::empty());
    }
}

/// The consumer gets exactly the items that came while no window ran, in their order and
/// each once, but for those that a full queue had to drop, the oldest first. It gets the
/// end only after the source has ended or the driver is gone, and then at once when
/// nothing is left.
pub proof fn law_consumer_gets_what_leads<T, W>(
    states: Seq<ThrottleState<T, W>>,
    calls: Seq<ThrottleCall<T, W>>,
    j: int,
)
    requires
        is_throttle_run(states, calls),
        0 <= j < calls.len(),
        calls[j] is Poll,
    ensures
        calls[j]->Poll_outcome == found(
            backlog(throttle_acts(calls.take(j)), states[0].output.capacity),
            is_over(calls.take(j)),
        ),
{
    lemma_throttle_history(states, calls, j);
    assert(throttle_leads(states[j], calls[j], states[j + 1]));
}

/// What the driver has to do after each report: an item that leads a window starts a
/// deadline, and only that does; the deadline is asked after every item of a running
/// window and when the source is silent during one; the driver stops exactly at the end
/// of the source, and waits only when both source and deadline are silent; it yields with
/// every [`WORK_BUDGET`]-th thing it handles, and else goes on with the source.
pub proof fn law_driver_is_told_what_to_do<T, W>(
    states: Seq<ThrottleState<T, W>>,
    calls: Seq<ThrottleCall<T, W>>,
    j: int,
)
    requires
        is_throttle_run(states, calls),
        0 <= j < calls.len(),
    ensures
        ({
            let goes_on = if handled(calls.take(j + 1)) % (WORK_BUDGET as nat) == 0 {
                DriverStep::Yield
            } else {
                DriverStep::PollSource
            };
            match calls[j] {
                ThrottleCall::Source { outcome: StreamPoll::Item(_), turn } => if window_runs(
                    calls.take(j),
                ) {
                    &&& turn.timer == Timer::Keep
                    &&& turn.step == DriverStep::PollDeadline
                } else {
                    &&& turn.timer == Timer::Start
                    &&& turn.step == goes_on
                },
                ThrottleCall::Source { outcome: StreamPoll::End, turn } => {
                    &&& turn.timer == Timer::Stop
                    &&& turn.step == DriverStep::Finish
                },
                ThrottleCall::Source { outcome: StreamPoll::Pending, turn } => {
                    &&& turn.timer == Timer::Keep
                    &&& turn.step == (if window_runs(calls.take(j)) {
                        DriverStep::PollDeadline
                    } else {
                        DriverStep::Park
                    })
                },
                ThrottleCall::Deadline { ready: true, turn } => {
                    &&& turn.timer == Timer::Stop
                    &&& turn.step == goes_on
                },
                ThrottleCall::Deadline { ready: false, turn } => {
                    &&& turn.timer == Timer::Keep
                    &&& turn.step == (if item_discarded(calls.take(j)) {
                        goes_on
                    } else {
                        DriverStep::Park
                    })
                },
                _ => true,
            }
        }),
{
    lemma_throttle_history(states, calls, j);
    assert(throttle_leads(states[j], calls[j], states[j + 1]));
    lemma_whole_budgets(handled(calls.take(j)));
    assert(calls.take(j + 1).drop_last() =~= calls.take(j));
    assert(calls.take(j + 1).last() == calls[j]);
}

/// What the call means to the consumer: its own poll, or the waker that is handed out.
pub open spec fn throttle_event<T, W>(call: ThrottleCall<T, W>) -> HotEvent<T, W> {
    match call {
        ThrottleCall::Started { wake } => HotEvent::Other { wake },
        ThrottleCall::Source { turn, .. } => HotEvent::Other { wake: turn.wake },
        ThrottleCall::Deadline { turn, .. } => HotEvent::Other { wake: turn.wake },
        ThrottleCall::Closed { wake } => HotEvent::Other { wake },
        ThrottleCall::Poll { waker, outcome } => HotEvent::Poll { waker, outcome },
    }
}

proof fn lemma_throttle_trace<T, W>(
    states: Seq<ThrottleState<T, W>>,
    calls: Seq<ThrottleCall<T, W>>,
) -> (trace: (Seq<HotState<T, W>>, Seq<HotEvent<T, W>>))
    requires
        is_throttle_run(states, calls),
    ensures
        trace.0 == Seq::new(states.len(), |j: int| states[j].output),
        trace.1 == Seq::new(calls.len(), |j: int| throttle_event(calls[j])),
        is_hot_trace(trace.0, trace.1),
{
    let outputs = Seq::new(states.len(), |j: int| states[j].output);
    let events = Seq::new(calls.len(), |j: int| throttle_event(calls[j]));
    assert forall|j: int| 0 <= j < events.len() implies match #[trigger] events[j] {
        HotEvent::Poll { waker, outcome } => outputs[j + 1] == outputs[j].polled(waker) && outcome
            == outputs[j].poll(),
        HotEvent::Other { wake } => tells(outputs[j], wake, outputs[j + 1]),
    } by {
        assert(throttle_leads(states[j], calls[j], states[j + 1]));
        lemma_throttle_history(states, calls, j);
    }
    lemma_hot_trace(outputs, events);
    (outputs, events)
}

/// A consumer whose last poll found nothing is woken, with the waker of that poll, no
/// later than by the call with which there is an item for it or the stream is over.
pub proof fn law_waiting_consumer_is_woken<T, W>(
    states: Seq<ThrottleState<T, W>>,
    calls: Seq<ThrottleCall<T, W>>,
    a: int,
    b: int,
)
    requires
        is_throttle_run(states, calls),
        0 <= a < b < states.len(),
        calls[a] matches ThrottleCall::Poll { outcome, .. } && outcome is Pending,
        forall|c: int| a < c < b ==> !(#[trigger] calls[c] is Poll),
        states[b].output.queue.len() > 0 || states[b].output.done,
    ensures
        exists|c: int|
            a < c < b && throttle_event(#[trigger] calls[c]) == (HotEvent::<T, W>::Other {
                wake: Some(calls[a]->Poll_waker),
            }),
{
    let (outputs, events) = lemma_throttle_trace(states, calls);
    let waker = calls[a]->Poll_waker;
    assert(events[a] == throttle_event(calls[a]));
    assert forall|c: int| a < c < b implies #[trigger] events[c] is Other by {
        assert(!(calls[c] is Poll));
    }
    lemma_waiting_consumer_is_told(outputs, events, a, b, waker);
    let c = choose|c: int|
        a < c < b && (#[trigger] events[c] matches HotEvent::Other { wake } && wake == Some(waker));
    assert(throttle_event(calls[c]) == events[c]);
}

/// Nobody is woken but a consumer whose last poll found nothing, and that once.
pub proof fn law_only_the_waiting_consumer_is_woken<T, W>(
    states: Seq<ThrottleState<T, W>>,
    calls: Seq<ThrottleCall<T, W>>,
    c: int,
    waker: W,
)
    requires
        is_throttle_run(states, calls),
        0 <= c < calls.len(),
        throttle_event(calls[c]) == (HotEvent::<T, W>::Other { wake: Some(waker) }),
    ensures
        exists|a: int|
            0 <= a < c && throttle_event(#[trigger] calls[a]) == (HotEvent::Poll {
                waker,
                outcome: StreamPoll::<T>::Pending,
            }) && forall|d: int|
                a < d < c ==> throttle_event(#[trigger] calls[d]) == (HotEvent::<T, W>::Other {
                    wake: None,
                }),
{
    let (outputs, events) = lemma_throttle_trace(states, calls);
    assert(events[c] == throttle_event(calls[c]));
    lemma_told_consumer_waits(outputs, events, c, waker);
    let a = choose|a: int|
        0 <= a < c && (#[trigger] events[a] matches HotEvent::Poll { waker: w, outcome } && w
            == waker && outcome is Pending) && forall|d: int|
            a < d < c ==> (#[trigger] events[d] matches HotEvent::Other { wake: None });
    assert(throttle_event(calls[a]) == events[a]);
    assert forall|d: int| a < d < c implies throttle_event(#[trigger] calls[d]) == (
    HotEvent::<T, W>::Other { wake: None }) by {
        assert(events[d] == throttle_event(calls[d]));
    }
}

} // verus!
