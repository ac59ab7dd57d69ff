use vstd::prelude::*;

use crate::budget::{WorkBudget, WORK_BUDGET};
use crate::driver::{
    lemma_whole_budgets, spent_after_work, step_after_work, work, DriverStep, DriverTurn, Timer,
};
use crate::hot::{
    found, is_hot_trace, law_oldest_outputs_are_dropped, lemma_hot_trace, lemma_still_waiting,
    lemma_told_consumer_waits, lemma_waiting_consumer_is_told, newest, tells, HotChannel, HotEvent,
    HotState,
};
use crate::poll::StreamPoll;
use crate::subsequence::{is_subsequence, lemma_polled, lemma_sent};

verus! {

/// The mathematical state of a latest-value stream.
#[verifier::ext_equal]
pub struct LatestState<T, W> {
    /// What is kept for the consumer.
    pub output: HotState<T, W>,
    /// The work that the driver has done since it last yielded.
    pub spent: nat,
}

impl<T, W> LatestState<T, W> {
    /// At most one item is retained.
    pub open spec fn wf(self) -> bool {
        self.output.wf() && self.output.capacity == 1 && self.spent < WORK_BUDGET
    }

    /// The state after the driver's poll of the source is first reported.
    pub open spec fn begun(self) -> Self {
        LatestState {
            output: if self.output.driver_started {
                self.output
            } else {
                HotState { driver_started: true, waker: None, ..self.output }
            },
            ..self
        }
    }

    /// The state after the source gave an item.
    pub open spec fn arrived(self, item: T) -> Self {
        LatestState {
            output: self.begun().output.sent(item),
            spent: spent_after_work(self.spent),
        }
    }

    /// What reporting a poll of the source does.
    pub open spec fn reports(self, outcome: StreamPoll<T>, turn: DriverTurn<W>, after: Self) -> bool {
        &&& turn.timer == Timer::Keep
        &&& match outcome {
            StreamPoll::Item(item) => {
                &&& after == self.arrived(item)
                &&& turn.step == step_after_work(self.spent)
                &&& turn.wake == (if self.output.driver_started {
                    self.output.sent_wakes()
                } else {
                    self.output.waker
                })
            },
            StreamPoll::End => {
                &&& after == (LatestState { output: self.begun().output.closed(), ..self })
                &&& turn.step == DriverStep::Finish
                &&& turn.wake == self.output.waker
            },
            StreamPoll::Pending => {
                &&& after == self.begun()
                &&& turn.step == DriverStep::Park
                &&& turn.wake == (if self.output.driver_started {
                    None
                } else {
                    self.output.waker
                })
            },
        }
    }

    /// The state after the source gave these items.
    pub open spec fn arrived_all(self, items: Seq<T>) -> Self
        decreases items.len(),
    {
        if items.len() == 0 {
            self
        } else {
            self.arrived_all(items.drop_last()).arrived(items.last())
        }
    }
}

/// A hot stream that retains at most one unconsumed upstream item.
///
/// A background driver polls the upstream and reports here; downstream polling
/// only observes the newest available item and never controls upstream progress.
pub struct LatestStream<T, W> {
    channel: HotChannel<T, W>,
    budget: WorkBudget,
}

impl<T, W> View for LatestStream<T, W> {
    type V = LatestState<T, W>;

    closed spec fn view(&self) -> LatestState<T, W> {
        LatestState { output: self.channel@, spent: self.budget.spent() }
    }
}

/// A latest-value stream whose source has given nothing yet.
pub fn latest<T, W>() -> (stream: LatestStream<T, W>)
    ensures
        stream@.wf(),
        stream@ == (LatestState::<T, W> {
            output: HotState {
                queue: Seq::empty(),
                capacity: 1,
                done: false,
                waker: None,
                driver_started: false,
            },
            spent: 0,
        }),
{
    LatestStream { channel: HotChannel::new(1), budget: WorkBudget::new() }
}

impl<T, W> LatestStream<T, W> {
    /// Whether a poll of the source was reported.
    pub fn driver_started(&self) -> (started: bool)
        ensures
            started == self@.output.driver_started,
    {
        self.channel.driver_started()
    }

    /// Reports what the driver's poll of the source gave: an item replaces the
    /// retained one, and the end completes the stream.
    ///
    /// The first report, whatever it is, marks the start of the driver and wakes a
    /// consumer that waits for it.
    pub fn source_polled(&mut self, outcome: StreamPoll<T>) -> (turn: DriverTurn<W>)
        requires
            old(self)@.wf(),
        ensures
            final(self)@.wf(),
            old(self)@.reports(outcome, turn, final(self)@),
    {
        let mut wake: Option<W> = None;
        if !self.channel.driver_started() {
            wake = self.channel.mark_driver_started();
        }
        match outcome {
            StreamPoll::Item(item) => {
                if let Some(waker) = self.channel.send(item) {
                    wake = Some(waker);
                }
                let step = work(&mut self.budget);
                DriverTurn { step, timer: Timer::Keep, wake }
            },
            StreamPoll::End => {
                if let Some(waker) = self.channel.close() {
                    wake = Some(waker);
                }
                DriverTurn { step: DriverStep::Finish, timer: Timer::Keep, wake }
            },
            StreamPoll::Pending => DriverTurn { step: DriverStep::Park, timer: Timer::Keep, wake },
        }
    }

    /// The driver is gone, for whatever reason: completes the stream.
    pub fn close(&mut self) -> (wake: Option<W>)
        requires
            old(self)@.wf(),
        ensures
            final(self)@.wf(),
            wake == old(self)@.output.waker,
            final(self)@ == (LatestState { output: old(self)@.output.closed(), ..old(self)@ }),
    {
        self.channel.close()
    }

    /// The consumer's poll, with the waker of the polling task.
    pub fn poll_next(&mut self, waker: W) -> (outcome: StreamPoll<T>)
        requires
            old(self)@.wf(),
        ensures
            final(self)@.wf(),
            final(self)@ == (LatestState {
                output: old(self)@.output.polled(waker),
                ..old(self)@
            }),
            outcome == old(self)@.output.poll(),
    {
        self.channel.poll_next(waker)
    }
}

proof fn lemma_arrived_all<T, W>(s: LatestState<T, W>, items: Seq<T>)
    ensures
        items.len() > 0 ==> s.arrived_all(items).output == s.begun().output.sent_all(items),
    decreases items.len(),
{
    if items.len() > 0 {
        let init = items.drop_last();
        lemma_arrived_all(s, init);
        lemma_sent_all_started(s.begun().output, init);
    }
}

proof fn lemma_sent_all_started<T, W>(output: HotState<T, W>, items: Seq<T>)
    requires
        output.driver_started,
    ensures
        output.sent_all(items).driver_started,
    decreases items.len(),
{
    if items.len() > 0 {
        lemma_sent_all_started(output, items.drop_last());
    }
}

/// However many items arrive between two polls, the consumer observes the newest
/// one, and nothing is left behind it.
pub proof fn law_consumer_observes_newest_item<T, W>(s: LatestState<T, W>, items: Seq<T>, waker: W)
    requires
        s.wf(),
        !s.output.done,
        items.len() > 0,
    ensures
        s.arrived_all(items).output.poll() == StreamPoll::Item(items.last()),
        s.arrived_all(items).output.polled(waker).queue.len() == 0,
{
    lemma_arrived_all(s, items);
    law_oldest_outputs_are_dropped(s.begun().output, items);
    assert(newest(s.output.queue + items, 1) =~= seq![items.last()]);
}

/// The final item is given out before completion.
pub proof fn law_final_item_precedes_completion<T, W>(
    s: LatestState<T, W>,
    items: Seq<T>,
    waker: W,
)
    requires
        s.wf(),
        !s.output.done,
        items.len() > 0,
    ensures
        ({
            let closed = s.arrived_all(items).output.closed();
            &&& closed.poll() == StreamPoll::Item(items.last())
            &&& closed.polled(waker).poll() == StreamPoll::<T>::End
        }),
{
    law_consumer_observes_newest_item(s, items, waker);
}

/// One call on a latest-value stream, with what it gave.
pub enum LatestCall<T, W> {
    /// A poll of the source is reported.
    Source { outcome: StreamPoll<T>, turn: DriverTurn<W> },
    /// The driver is gone.
    Closed { wake: Option<W> },
    /// The consumer polls.
    Poll { waker: W, outcome: StreamPoll<T> },
}

/// The call leads from one state to the other. The driver reports until the source
/// has completed or the driver is gone.
pub open spec fn latest_leads<T, W>(
    s: LatestState<T, W>,
    call: LatestCall<T, W>,
    t: LatestState<T, W>,
) -> bool {
    match call {
        LatestCall::Source { outcome, turn } => !s.output.done && s.reports(outcome, turn, t),
        LatestCall::Closed { wake } => {
            &&& wake == s.output.waker
            &&& t == (LatestState { output: s.output.closed(), ..s })
        },
        LatestCall::Poll { waker, outcome } => {
            &&& outcome == s.output.poll()
            &&& t == (LatestState { output: s.output.polled(waker), ..s })
        },
    }
}

/// A run of calls on a new latest-value stream: each state follows from the one before
/// it.
pub open spec fn is_latest_run<T, W>(
    states: Seq<LatestState<T, W>>,
    calls: Seq<LatestCall<T, W>>,
) -> bool {
    &&& states.len() == calls.len() + 1
    &&& states[0].wf()
    &&& states[0].output.queue.len() == 0
    &&& !states[0].output.done
    &&& !states[0].output.driver_started
    &&& states[0].output.waker is None
    &&& states[0].spent == 0
    &&& forall|j: int|
        0 <= j < calls.len() ==> latest_leads(states[j], #[trigger] calls[j], states[j + 1])
}

/// The items that the source gave in the run.
pub open spec fn source_items<T, W>(calls: Seq<LatestCall<T, W>>) -> Seq<T>
    decreases calls.len(),
{
    if calls.len() == 0 {
        Seq::empty()
    } else {
        let before = source_items(calls.drop_last());
        match calls.last() {
            LatestCall::Source { outcome: StreamPoll::Item(item), .. } => before.push(item),
            _ => before,
        }
    }
}

/// The items that the consumer took in the run.
pub open spec fn taken<T, W>(calls: Seq<LatestCall<T, W>>) -> Seq<T>
    decreases calls.len(),
{
    if calls.len() == 0 {
        Seq::empty()
    } else {
        let before = taken(calls.drop_last());
        match calls.last() {
            LatestCall::Poll { outcome: StreamPoll::Item(item), .. } => before.push(item),
            _ => before,
        }
    }
}

/// However the consumer polls in between, what it takes, with what is kept for it, are
/// source items, in their order, and the last of them is the last source item.
pub proof fn law_consumer_takes_newest_items<T, W>(
    states: Seq<LatestState<T, W>>,
    calls: Seq<LatestCall<T, W>>,
)
    requires
        is_latest_run(states, calls),
    ensures
        states.last().wf(),
        is_subsequence(taken(calls) + states.last().output.queue, source_items(calls)),
        source_items(calls).len() > 0 ==> {
            let seen = taken(calls) + states.last().output.queue;
            seen.len() > 0 && seen.last() == source_items(calls).last()
        },
    decreases calls.len(),
{
    if calls.len() == 0 {
        assert(taken(calls) + states.last().output.queue =~= Seq::empty());
    } else {
        let n = calls.len() - 1;
        let before = states.drop_last();
        let earlier = calls.drop_last();
        assert forall|j: int| 0 <= j < earlier.len() implies latest_leads(
            before[j],
            #[trigger] earlier[j],
            before[j + 1],
        ) by {
            assert(earlier[j] == calls[j]);
        }
        law_consumer_takes_newest_items(before, earlier);
        let s = states[n];
        assert(latest_leads(s, calls[n], states[n + 1]));
        match calls.last() {
            LatestCall::Source { outcome: StreamPoll::Item(item), .. } => {
                lemma_sent(taken(earlier), s.begun().output, item, source_items(earlier));
            },
            LatestCall::Poll { waker, outcome } => {
                lemma_polled(taken(earlier), s.output, waker);
            },
            _ => {},
        }
    }
}

/// A consumer that polls to the end takes the last source item last.
pub proof fn law_last_item_is_taken_last<T, W>(
    states: Seq<LatestState<T, W>>,
    calls: Seq<LatestCall<T, W>>,
)
    requires
        is_latest_run(states, calls),
        states.last().output.poll() is End,
        source_items(calls).len() > 0,
    ensures
        taken(calls).len() > 0,
        taken(calls).last() == source_items(calls).last(),
        is_subsequence(taken(calls), source_items(calls)),
{
    law_consumer_takes_newest_items(states, calls);
    assert(taken(calls) + states.last().output.queue =~= taken(calls));
}

/// Every call on a latest-value stream is one of its run.
pub proof fn law_latest_calls_are_run_calls<T, W>()
    ensures
        forall|stream: LatestStream<T, W>| #[trigger]
            call_ensures(latest::<T, W>, (), stream) ==> is_latest_run(
                seq![stream@],
                Seq::<LatestCall<T, W>>::empty(),
            ),
        forall|s: &LatestStream<T, W>, started: bool| #[trigger]
            call_ensures(LatestStream::<T, W>::driver_started, (s,), started) ==> started
                == s@.output.driver_started,
        forall|s: &mut LatestStream<T, W>, outcome: StreamPoll<T>, turn: DriverTurn<W>| #[trigger]
            call_ensures(LatestStream::<T, W>::source_polled, (s, outcome), turn) && !s@.output.done
                ==> latest_leads(s@, LatestCall::Source { outcome, turn }, final(s)@),
        forall|s: &mut LatestStream<T, W>, wake: Option<W>| #[trigger]
            call_ensures(LatestStream::<T, W>::close, (s,), wake) ==> latest_leads(
                s@,
                LatestCall::Closed { wake },
                final(s)@,
            ),
        forall|s: &mut LatestStream<T, W>, waker: W, outcome: StreamPoll<T>| #[trigger]
            call_ensures(LatestStream::<T, W>::poll_next, (s, waker), outcome) ==> latest_leads(
                s@,
                LatestCall::Poll { waker, outcome },
                final(s)@,
            ),
{
}

/// The last item of the source that the consumer has not taken, if there is one.
pub open spec fn untaken<T, W>(calls: Seq<LatestCall<T, W>>) -> Seq<T>
    decreases calls.len(),
{
    if calls.len() == 0 {
        Seq::empty()
    } else {
        match calls.last() {
            LatestCall::Source { outcome: StreamPoll::Item(item), .. } => seq![item],
            LatestCall::Poll { .. } => Seq::empty(),
            _ => untaken(calls.drop_last()),
        }
    }
}

/// The source has ended in these calls, or the driver is gone.
pub open spec fn is_over<T, W>(calls: Seq<LatestCall<T, W>>) -> bool
    decreases calls.len(),
{
    calls.len() > 0 && (is_over(calls.drop_last()) || calls.last() is Closed || (
    calls.last() matches LatestCall::Source { outcome, .. } && outcome is End))
}

/// A poll of the source was reported in these calls.
pub open spec fn is_reported<T, W>(calls: Seq<LatestCall<T, W>>) -> bool
    decreases calls.len(),
{
    calls.len() > 0 && (is_reported(calls.drop_last()) || calls.last() is Source)
}

proof fn lemma_latest_history<T, W>(
    states: Seq<LatestState<T, W>>,
    calls: Seq<LatestCall<T, W>>,
    n: int,
)
    requires
        is_latest_run(states, calls),
        0 <= n <= calls.len(),
    ensures
        states[n].wf(),
        states[n].output.done == is_over(calls.take(n)),
        states[n].output.queue == untaken(calls.take(n)),
        states[n].output.driver_started == is_reported(calls.take(n)),
        states[n].spent == source_items(calls.take(n)).len() % (WORK_BUDGET as nat),
    decreases n,
{
    if n > 0 {
        lemma_latest_history(states, calls, n - 1);
        let past = calls.take(n);
        assert(past.drop_last() =~= calls.take(n - 1));
        assert(past.last() == calls[n - 1]);
        let s = states[n - 1];
        assert(latest_leads(s, calls[n - 1], states[n]));
        lemma_whole_budgets(source_items(calls.take(n - 1)).len());
        match calls[n - 1] {
            LatestCall::Source { outcome: StreamPoll::Item(item), .. } => {
                assert(states[n].output.queue =~= seq![item]);
            },
            LatestCall::Poll { .. } => {
                assert(states[n].output.queue =~= Seq::empty());
            },
            _ => {},
        }
    } else {
        assert(states[0].output.queue =~= Seq::empty());
    }
}

/// The consumer gets the last item of the source, if it has not taken it before, and
/// nothing older. It gets the end only after the source has ended or the driver is gone,
/// and then at once when nothing is left.
pub proof fn law_consumer_gets_the_last_item<T, W>(
    states: Seq<LatestState<T, W>>,
    calls: Seq<LatestCall<T, W>>,
    j: int,
)
    requires
        is_latest_run(states, calls),
        0 <= j < calls.len(),
        calls[j] is Poll,
    ensures
        calls[j]->Poll_outcome == found(untaken(calls.take(j)), is_over(calls.take(j))),
{
    lemma_latest_history(states, calls, j);
    assert(latest_leads(states[j], calls[j], states[j + 1]));
}

/// What the driver has to do after each report: it stops exactly at the end of the
/// source, waits exactly when the source is silent, yields with every
/// [`WORK_BUDGET`]-th item and else goes on with the source. No deadline is involved. The
/// driver has started exactly when it has reported.
pub proof fn law_driver_is_told_what_to_do<T, W>(
    states: Seq<LatestState<T, W>>,
    calls: Seq<LatestCall<T, W>>,
    j: int,
)
    requires
        is_latest_run(states, calls),
        0 <= j < calls.len(),
    ensures
        states[j].output.driver_started == is_reported(calls.take(j)),
        calls[j] matches LatestCall::Source { outcome, turn } ==> {
            &&& turn.timer == Timer::Keep
            &&& turn.step == (match outcome {
                StreamPoll::Item(_) => if source_items(calls.take(j + 1)).len() % (
                WORK_BUDGET as nat) == 0 {
                    DriverStep::Yield
                } else {
                    DriverStep::PollSource
                },
                StreamPoll::End => DriverStep::Finish,
                StreamPoll::Pending => DriverStep::Park,
            })
        },
{
    lemma_latest_history(states, calls, j);
    assert(latest_leads(states[j], calls[j], states[j + 1]));
    lemma_whole_budgets(source_items(calls.take(j)).len());
    assert(calls.take(j + 1).drop_last() =~= calls.take(j));
    assert(calls.take(j + 1).last() == calls[j]);
}

/// The first report, whatever it is, wakes a consumer whose last poll found nothing.
pub proof fn law_first_report_wakes<T, W>(
    states: Seq<LatestState<T, W>>,
    calls: Seq<LatestCall<T, W>>,
    a: int,
    b: int,
)
    requires
        is_latest_run(states, calls),
        0 <= a < b < calls.len(),
        calls[a] matches LatestCall::Poll { outcome, .. } && outcome is Pending,
        forall|c: int| a < c < b ==> !(#[trigger] calls[c] is Poll),
        !is_reported(calls.take(b)),
        calls[b] is Source,
    ensures
        calls[b]->Source_turn.wake == Some(calls[a]->Poll_waker) || (exists|c: int|
            a < c < b && latest_event(#[trigger] calls[c]) == (HotEvent::<T, W>::Other {
                wake: Some(calls[a]->Poll_waker),
            })),
{
    lemma_latest_history(states, calls, b);
    assert(latest_leads(states[b], calls[b], states[b + 1]));
    let (outputs, events) = lemma_latest_trace(states, calls);
    assert(events[a] == latest_event(calls[a]));
    assert forall|c: int| a < c < b implies #[trigger] events[c] is Other by {
        assert(!(calls[c] is Poll));
    }
    let waker = calls[a]->Poll_waker;
    lemma_still_waiting(outputs, events, a, b, waker);
    if states[b].output.waker != Some(waker) {
        let c = choose|c: int|
            a < c < b && (#[trigger] events[c] matches HotEvent::Other { wake } && wake == Some(
                waker,
            ));
        assert(latest_event(calls[c]) == events[c]);
    }
}

/// What the call means to the consumer: its own poll, or the waker that is handed out.
pub open spec fn latest_event<T, W>(call: LatestCall<T, W>) -> HotEvent<T, W> {
    match call {
        LatestCall::Source { turn, .. } => HotEvent::Other { wake: turn.wake },
        LatestCall::Closed { wake } => HotEvent::Other { wake },
        LatestCall::Poll { waker, outcome } => HotEvent::Poll { waker, outcome },
    }
}

proof fn lemma_latest_trace<T, W>(
    states: Seq<LatestState<T, W>>,
    calls: Seq<LatestCall<T, W>>,
) -> (trace: (Seq<HotState<T, W>>, Seq<HotEvent<T, W>>))
    requires
        is_latest_run(states, calls),
    ensures
        trace.0 == Seq::new(states.len(), |j: int| states[j].output),
        trace.1 == Seq::new(calls.len(), |j: int| latest_event(calls[j])),
        is_hot_trace(trace.0, trace.1),
{
    let outputs = Seq::new(states.len(), |j: int| states[j].output);
    let events = Seq::new(calls.len(), |j: int| latest_event(calls[j]));
    assert forall|j: int| 0 <= j < events.len() implies match #[trigger] events[j] {
        HotEvent::Poll { waker, outcome } => outputs[j + 1] == outputs[j].polled(waker) && outcome
            == outputs[j].poll(),
        HotEvent::Other { wake } => tells(outputs[j], wake, outputs[j + 1]),
    } by {
        assert(latest_leads(states[j], calls[j], states[j + 1]));
        lemma_latest_history(states, calls, j);
    }
    lemma_hot_trace(outputs, events);
    (outputs, events)
}

/// A consumer whose last poll found nothing is woken, with the waker of that poll, no
/// later than by the call with which there is an item for it or the stream is over.
pub proof fn law_waiting_consumer_is_woken<T, W>(
    states: Seq<LatestState<T, W>>,
    calls: Seq<LatestCall<T, W>>,
    a: int,
    b: int,
)
    requires
        is_latest_run(states, calls),
        0 <= a < b < states.len(),
        calls[a] matches LatestCall::Poll { outcome, .. } && outcome is Pending,
        forall|c: int| a < c < b ==> !(#[trigger] calls[c] is Poll),
        states[b].output.queue.len() > 0 || states[b].output.done,
    ensures
        exists|c: int|
            a < c < b && latest_event(#[trigger] calls[c]) == (HotEvent::<T, W>::Other {
                wake: Some(calls[a]->Poll_waker),
            }),
{
    let (outputs, events) = lemma_latest_trace(states, calls);
    let waker = calls[a]->Poll_waker;
    assert(events[a] == latest_event(calls[a]));
    assert forall|c: int| a < c < b implies #[trigger] events[c] is Other by {
        assert(!(calls[c] is Poll));
    }
    lemma_waiting_consumer_is_told(outputs, events, a, b, waker);
    let c = choose|c: int|
        a < c < b && (#[trigger] events[c] matches HotEvent::Other { wake } && wake == Some(waker));
    assert(latest_event(calls[c]) == events[c]);
}

/// Nobody is woken but a consumer whose last poll found nothing, and that once.
pub proof fn law_only_the_waiting_consumer_is_woken<T, W>(
    states: Seq<LatestState<T, W>>,
    calls: Seq<LatestCall<T, W>>,
    c: int,
    waker: W,
)
    requires
        is_latest_run(states, calls),
        0 <= c < calls.len(),
        latest_event(calls[c]) == (HotEvent::<T, W>::Other { wake: Some(waker) }),
    ensures
        exists|a: int|
            0 <= a < c && latest_event(#[trigger] calls[a]) == (HotEvent::Poll {
                waker,
                outcome: StreamPoll::<T>::Pending,
            }) && forall|d: int|
                a < d < c ==> latest_event(#[trigger] calls[d]) == (HotEvent::<T, W>::Other {
                    wake: None,
                }),
{
    let (outputs, events) = lemma_latest_trace(states, calls);
    assert(events[c] == latest_event(calls[c]));
    lemma_told_consumer_waits(outputs, events, c, waker);
    let a = choose|a: int|
        0 <= a < c && (#[trigger] events[a] matches HotEvent::Poll { waker: w, outcome } && w
            == waker && outcome is Pending) && forall|d: int|
            a < d < c ==> (#[trigger] events[d] matches HotEvent::Other { wake: None });
    assert(latest_event(calls[a]) == events[a]);
    assert forall|d: int| a < d < c implies latest_event(#[trigger] calls[d]) == (
    HotEvent::<T, W>::Other { wake: None }) by {
        assert(events[d] == latest_event(calls[d]));
    }
}

} // verus!
