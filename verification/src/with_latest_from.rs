use vstd::prelude::*;

use crate::budget::WORK_BUDGET;
use crate::driver::DriverTurn;
use crate::hot::HotState;
use crate::latest::{latest, LatestState, LatestStream};
use crate::poll::StreamPoll;
use crate::subsequence::lemma_polled;

verus! {

/// The mathematical state of a sampling stream.
pub struct WithLatestState<B> {
    /// The latest item of the secondary.
    pub latest: Option<B>,
    /// The secondary has not completed and is still held.
    pub has_secondary: bool,
    /// The primary has completed.
    pub source_done: bool,
    /// The primary items that the running poll has discarded.
    pub discarded: nat,
}

impl<B> WithLatestState<B> {
    pub open spec fn wf(self) -> bool {
        &&& self.discarded < WORK_BUDGET
        &&& self.source_done ==> !self.has_secondary
    }

    /// The state after the secondary was polled: an item replaces the latest one;
    /// a completed secondary is let go, and its last item is kept.
    pub open spec fn observed(self, outcome: StreamPoll<B>) -> Self {
        match outcome {
            StreamPoll::Item(item) => WithLatestState { latest: Some(item), ..self },
            StreamPoll::End => WithLatestState { has_secondary: false, ..self },
            StreamPoll::Pending => self,
        }
    }

    /// The state after a primary item is discarded for want of a secondary item.
    pub open spec fn discards(self) -> Self {
        WithLatestState {
            discarded: if self.discarded + 1 == WORK_BUDGET {
                0
            } else {
                self.discarded + 1
            },
            ..self
        }
    }

    /// The state after this many primary items are discarded in a row.
    pub open spec fn discards_times(self, n: nat) -> Self
        decreases n,
    {
        if n == 0 {
            self
        } else {
            self.discards_times((n - 1) as nat).discards()
        }
    }

    /// Discarding one more item uses up the work budget of the poll.
    pub open spec fn budget_ends(self) -> bool {
        self.discarded + 1 == WORK_BUDGET
    }

    /// The secondary was not polled yet, so nothing is known of its state.
    pub open spec fn awaits_start(self, driver_started: bool) -> bool {
        self.latest is None && self.has_secondary && !driver_started
    }
}

/// What a poll of a sampling stream has to do next.
pub enum WithLatestStep<A, B> {
    /// Poll the secondary.
    PollSecondary,
    /// Poll the primary and report the outcome.
    PollPrimary,
    /// Return this pair.
    Emit(A, B),
    /// Wake the polling task and return pending.
    Yield,
    /// Return pending.
    Pending,
    /// Return the end, and let the secondary go.
    Finished,
}

impl<B: Clone> WithLatestState<B> {
    /// What starting a poll does.
    pub open spec fn begins<A>(self, step: WithLatestStep<A, B>, after: Self) -> bool {
        &&& after == (WithLatestState { discarded: 0, ..self })
        &&& step == (if self.source_done {
            WithLatestStep::<A, B>::Finished
        } else if self.has_secondary {
            WithLatestStep::PollSecondary
        } else {
            WithLatestStep::PollPrimary
        })
    }

    /// What polling the secondary does, given what is kept there.
    pub open spec fn observes<A, W>(
        self,
        secondary: HotState<B, W>,
        step: WithLatestStep<A, B>,
        after: Self,
    ) -> bool {
        &&& after == self.observed(secondary.poll())
        &&& step == (if after.awaits_start(secondary.driver_started) {
            WithLatestStep::<A, B>::Pending
        } else {
            WithLatestStep::PollPrimary
        })
    }

    /// What reporting a poll of the primary does.
    pub open spec fn reports<A>(
        self,
        outcome: StreamPoll<A>,
        step: WithLatestStep<A, B>,
        after: Self,
    ) -> bool {
        match outcome {
            StreamPoll::Item(item) => match self.latest {
                Some(latest) => {
                    &&& after == self
                    &&& step matches WithLatestStep::Emit(primary, secondary) && primary == item
                        && cloned(latest, secondary)
                },
                None => {
                    &&& after == self.discards()
                    &&& step == (if self.budget_ends() {
                        WithLatestStep::<A, B>::Yield
                    } else {
                        WithLatestStep::PollPrimary
                    })
                },
            },
            StreamPoll::End => {
                &&& after == (WithLatestState { source_done: true, has_secondary: false, ..self })
                &&& step is Finished
            },
            StreamPoll::Pending => {
                &&& after == self
                &&& step is Pending
            },
        }
    }
}

/// A pull-based primary stream paired with a hot, conflating secondary stream.
pub struct WithLatestFromStream<B> {
    latest: Option<B>,
    has_secondary: bool,
    source_done: bool,
    discarded: usize,
}

impl<B> View for WithLatestFromStream<B> {
    type V = WithLatestState<B>;

    closed spec fn view(&self) -> WithLatestState<B> {
        WithLatestState {
            latest: self.latest,
            has_secondary: self.has_secondary,
            source_done: self.source_done,
            discarded: self.discarded as nat,
        }
    }
}

/// Pairs primary items with the latest secondary item.
///
/// Only primary items trigger output and remain downstream-backpressured. The
/// secondary is polled by its own driver and is conflated to one latest value.
pub fn with_latest_from<B>() -> (stream: WithLatestFromStream<B>)
    ensures
        stream@.wf(),
        stream@ == (WithLatestState::<B> {
            latest: None,
            has_secondary: true,
            source_done: false,
            discarded: 0,
        }),
{
    WithLatestFromStream { latest: None, has_secondary: true, source_done: false, discarded: 0 }
}

impl<B: Clone> WithLatestFromStream<B> {
    /// Whether the secondary is still to be held.
    pub fn has_secondary(&self) -> (has_secondary: bool)
        ensures
            has_secondary == self@.has_secondary,
    {
        self.has_secondary
    }

    /// Starts a poll.
    pub fn begin_poll<A>(&mut self) -> (step: WithLatestStep<A, B>)
        requires
            old(self)@.wf(),
        ensures
            final(self)@.wf(),
            old(self)@.begins(step, final(self)@),
    {
        self.discarded = 0;
        if self.source_done {
            WithLatestStep::Finished
        } else if self.has_secondary {
            WithLatestStep::PollSecondary
        } else {
            WithLatestStep::PollPrimary
        }
    }

    /// Polls the secondary, with the waker of the polling task.
    ///
    /// Until the driver of the secondary has reported its first poll, the primary
    /// waits: otherwise a primary that is ready at once could complete before the
    /// secondary was polled at all. That report wakes the polling task.
    pub fn poll_secondary<A, W>(
        &mut self,
        secondary: &mut LatestStream<B, W>,
        waker: W,
    ) -> (step: WithLatestStep<A, B>)
        requires
            old(self)@.wf(),
            !old(self)@.source_done,
            old(self)@.has_secondary,
            old(secondary)@.wf(),
        ensures
            final(self)@.wf(),
            final(secondary)@.wf(),
            final(secondary)@ == (LatestState {
                output: old(secondary)@.output.polled(waker),
                ..old(secondary)@
            }),
            old(self)@.observes(old(secondary)@.output, step, final(self)@),
    {
        match secondary.poll_next(waker) {
            StreamPoll::Item(item) => {
                self.latest = Some(item);
            },
            StreamPoll::End => {
                self.has_secondary = false;
            },
            StreamPoll::Pending => {},
        }
        if self.latest.is_none() && self.has_secondary && !secondary.driver_started() {
            WithLatestStep::Pending
        } else {
            WithLatestStep::PollPrimary
        }
    }

    /// Reports what the poll of the primary gave.
    ///
    /// An item is paired with a clone of the latest secondary item; without one it
    /// is discarded and the next is asked for, within the work budget of the poll.
    pub fn primary_polled<A>(&mut self, outcome: StreamPoll<A>) -> (step: WithLatestStep<A, B>)
        requires
            old(self)@.wf(),
            !old(self)@.source_done,
        ensures
            final(self)@.wf(),
            old(self)@.reports(outcome, step, final(self)@),
    {
        match outcome {
            StreamPoll::Item(item) => {
                if let Some(latest) = &self.latest {
                    return WithLatestStep::Emit(item, latest.clone());
                }
                self.discarded = self.discarded + 1;
                if self.discarded == WORK_BUDGET {
                    self.discarded = 0;
                    WithLatestStep::Yield
                } else {
                    WithLatestStep::PollPrimary
                }
            },
            StreamPoll::End => {
                self.source_done = true;
                self.has_secondary = false;
                WithLatestStep::Finished
            },
            StreamPoll::Pending => WithLatestStep::Pending,
        }
    }
}

/// A sampling stream with its secondary.
pub struct SampleState<B, W> {
    pub stream: WithLatestState<B>,
    pub secondary: LatestState<B, W>,
}

/// One call on a sampling stream or on its secondary, with what it gave.
pub enum SampleCall<A, B, W> {
    /// A poll starts.
    Begin { step: WithLatestStep<A, B> },
    /// The poll polls the secondary.
    Secondary { waker: W, step: WithLatestStep<A, B> },
    /// A poll of the primary is reported.
    Primary { outcome: StreamPoll<A>, step: WithLatestStep<A, B> },
    /// The driver of the secondary reports a poll of its source.
    Driver { outcome: StreamPoll<B>, turn: DriverTurn<W> },
    /// The driver of the secondary is gone.
    Closed { wake: Option<W> },
}

/// The call leads from one state to the other. Neither input is polled after the end of
/// the primary, nor the secondary after its own.
pub open spec fn sample_leads<A, B: Clone, W>(
    s: SampleState<B, W>,
    call: SampleCall<A, B, W>,
    t: SampleState<B, W>,
) -> bool {
    match call {
        SampleCall::Begin { step } => {
            &&& s.stream.begins(step, t.stream)
            &&& t.secondary == s.secondary
        },
        SampleCall::Secondary { waker, step } => {
            &&& !s.stream.source_done
            &&& s.stream.has_secondary
            &&& s.stream.observes(s.secondary.output, step, t.stream)
            &&& t.secondary == (LatestState {
                output: s.secondary.output.polled(waker),
                ..s.secondary
            })
        },
        SampleCall::Primary { outcome, step } => {
            &&& !s.stream.source_done
            &&& s.stream.reports(outcome, step, t.stream)
            &&& t.secondary == s.secondary
        },
        SampleCall::Driver { outcome, turn } => {
            &&& !s.secondary.output.done
            &&& s.secondary.reports(outcome, turn, t.secondary)
            &&& t.stream == s.stream
        },
        SampleCall::Closed { wake } => {
            &&& wake == s.secondary.output.waker
            &&& t.secondary == (LatestState { output: s.secondary.output.closed(), ..s.secondary })
            &&& t.stream == s.stream
        },
    }
}

/// A run of calls on a new sampling stream and its secondary: each state follows from
/// the one before it.
pub open spec fn is_sample_run<A, B: Clone, W>(
    states: Seq<SampleState<B, W>>,
    calls: Seq<SampleCall<A, B, W>>,
) -> bool {
    &&& states.len() == calls.len() + 1
    &&& states[0].stream == (WithLatestState::<B> {
        latest: None,
        has_secondary: true,
        source_done: false,
        discarded: 0,
    })
    &&& states[0].secondary.wf()
    &&& states[0].secondary.output.queue.len() == 0
    &&& !states[0].secondary.output.done
    &&& !states[0].secondary.output.driver_started
    &&& states[0].secondary.output.waker is None
    &&& forall|j: int|
        0 <= j < calls.len() ==> sample_leads(states[j], #[trigger] calls[j], states[j + 1])
}

/// The items that the primary gave in the run.
pub open spec fn primary_items<A, B, W>(calls: Seq<SampleCall<A, B, W>>) -> Seq<A>
    decreases calls.len(),
{
    if calls.len() == 0 {
        Seq::empty()
    } else {
        let before = primary_items(calls.drop_last());
        match calls.last() {
            SampleCall::Primary { outcome: StreamPoll::Item(item), .. } => before.push(item),
            _ => before,
        }
    }
}

/// The items that the source of the secondary gave in the run.
pub open spec fn secondary_items<A, B, W>(calls: Seq<SampleCall<A, B, W>>) -> Seq<B>
    decreases calls.len(),
{
    if calls.len() == 0 {
        Seq::empty()
    } else {
        let before = secondary_items(calls.drop_last());
        match calls.last() {
            SampleCall::Driver { outcome: StreamPoll::Item(item), .. } => before.push(item),
            _ => before,
        }
    }
}

/// The secondary items that the stream received in the run.
pub open spec fn received<A, B, W>(
    states: Seq<SampleState<B, W>>,
    calls: Seq<SampleCall<A, B, W>>,
) -> Seq<B>
    decreases calls.len(),
{
    if calls.len() == 0 {
        Seq::empty()
    } else {
        let before = received(states.drop_last(), calls.drop_last());
        match (calls.last(), states[calls.len() - 1].secondary.output.poll()) {
            (SampleCall::Secondary { .. }, StreamPoll::Item(item)) => before.push(item),
            _ => before,
        }
    }
}

/// The pairs that the stream emitted in the run.
pub open spec fn pairs<A, B, W>(calls: Seq<SampleCall<A, B, W>>) -> Seq<(A, B)>
    decreases calls.len(),
{
    if calls.len() == 0 {
        Seq::empty()
    } else {
        let before = pairs(calls.drop_last());
        match calls.last() {
            SampleCall::Primary { step: WithLatestStep::Emit(primary, secondary), .. } => before.push(
                (primary, secondary),
            ),
            _ => before,
        }
    }
}

/// How many primary items came in the run before the stream had received a secondary
/// item.
pub open spec fn unpaired<A, B, W>(
    states: Seq<SampleState<B, W>>,
    calls: Seq<SampleCall<A, B, W>>,
) -> nat
    decreases calls.len(),
{
    if calls.len() == 0 {
        0
    } else {
        let before = unpaired(states.drop_last(), calls.drop_last());
        match calls.last() {
            SampleCall::Primary { outcome: StreamPoll::Item(_), .. } => if received(
                states.drop_last(),
                calls.drop_last(),
            ).len() == 0 {
                before + 1
            } else {
                before
            },
            _ => before,
        }
    }
}

/// The end of the primary was reported in the run.
pub open spec fn primary_ended<A, B, W>(calls: Seq<SampleCall<A, B, W>>) -> bool {
    exists|j: int|
        0 <= j < calls.len() && (#[trigger] calls[j] matches SampleCall::Primary { outcome, .. }
            && outcome is End)
}

proof fn lemma_shorter_sample_run<A, B: Clone, W>(
    states: Seq<SampleState<B, W>>,
    calls: Seq<SampleCall<A, B, W>>,
    n: int,
)
    requires
        is_sample_run(states, calls),
        0 <= n <= calls.len(),
    ensures
        is_sample_run(states.take(n + 1), calls.take(n)),
        states.take(n + 1).last() == states[n],
        n < calls.len() ==> sample_leads(states[n], calls[n], states[n + 1]),
{
    let before = states.take(n + 1);
    let earlier = calls.take(n);
    assert forall|j: int| 0 <= j < earlier.len() implies sample_leads(
        before[j],
        #[trigger] earlier[j],
        before[j + 1],
    ) by {
        assert(earlier[j] == calls[j]);
    }
}

proof fn lemma_sample_run<A, B: Clone, W>(
    states: Seq<SampleState<B, W>>,
    calls: Seq<SampleCall<A, B, W>>,
)
    requires
        is_sample_run(states, calls),
    ensures
        ({
            let t = states.last();
            let got = received(states, calls);
            let items = secondary_items(calls);
            let known = got + t.secondary.output.queue;
            let skipped = unpaired(states, calls);
            &&& t.secondary.wf()
            &&& t.stream.latest == (if got.len() == 0 {
                None
            } else {
                Some(got.last())
            })
            &&& known.len() == 0 <==> items.len() == 0
            &&& items.len() > 0 ==> known.last() == items.last()
            &&& t.stream.source_done <==> primary_ended(calls)
            &&& skipped + pairs(calls).len() == primary_items(calls).len()
            &&& forall|i: int|
                0 <= i < pairs(calls).len() ==> (#[trigger] pairs(calls)[i]).0 == primary_items(
                    calls,
                )[skipped + i]
            &&& got.len() == 0 ==> pairs(calls).len() == 0
        }),
    decreases calls.len(),
{
    if calls.len() > 0 {
        let n = calls.len() - 1;
        let before = states.drop_last();
        let earlier = calls.drop_last();
        lemma_shorter_sample_run(states, calls, n);
        assert(states.take(n + 1) =~= before);
        assert(calls.take(n) =~= earlier);
        lemma_sample_run(before, earlier);
        let s = states[n];
        let t = states[n + 1];
        let call = calls.last();
        let had = received(before, earlier);
        let queue = s.secondary.output.queue;
        if primary_ended(calls) && !primary_ended(earlier) {
            let j = choose|j: int|
                0 <= j < calls.len() && (#[trigger] calls[j] matches SampleCall::Primary {
                    outcome,
                    ..
                } && outcome is End);
            if j < n {
                assert(earlier[j] == calls[j]);
            }
        }
        if primary_ended(earlier) {
            let j = choose|j: int|
                0 <= j < earlier.len() && (#[trigger] earlier[j] matches SampleCall::Primary {
                    outcome,
                    ..
                } && outcome is End);
            assert(calls[j] == earlier[j]);
        }
        match call {
            SampleCall::Secondary { waker, .. } => {
                lemma_polled(had, s.secondary.output, waker);
            },
            SampleCall::Primary { outcome, .. } => {
                assert(calls[n] == call);
            },
            SampleCall::Driver { outcome, .. } => match outcome {
                StreamPoll::Item(item) => {
                    let sent = s.secondary.begun().output.sent(item);
                    assert(sent.queue =~= seq![item]);
                },
                _ => {},
            },
            _ => {},
        }
    } else {
        assert(received(states, calls) + states.last().secondary.output.queue =~= Seq::empty());
    }
}

/// A primary item is emitted in the call that reports it, with a clone of the secondary
/// item that was received last, if one ever was; otherwise it is discarded. Nothing else
/// is emitted.
pub proof fn law_primary_item_is_paired_with_the_newest_secondary_item<A, B: Clone, W>(
    states: Seq<SampleState<B, W>>,
    calls: Seq<SampleCall<A, B, W>>,
    j: int,
)
    requires
        is_sample_run(states, calls),
        0 <= j < calls.len(),
    ensures
        ({
            let got = received(states.take(j + 1), calls.take(j));
            match calls[j] {
                SampleCall::Primary { outcome: StreamPoll::Item(item), step } => if got.len() > 0 {
                    &&& step is Emit
                    &&& step->Emit_0 == item
                    &&& cloned(got.last(), step->Emit_1)
                } else {
                    step is PollPrimary || step is Yield
                },
                SampleCall::Primary { step, .. } => !(step is Emit),
                SampleCall::Secondary { step, .. } => !(step is Emit),
                SampleCall::Begin { step } => !(step is Emit),
                _ => true,
            }
        }),
{
    lemma_shorter_sample_run(states, calls, j);
    lemma_sample_run(states.take(j + 1), calls.take(j));
}

/// What the stream knows of the secondary once a poll has polled it is the last item
/// that the source of the secondary has given so far, if it has given one.
pub proof fn law_polled_secondary_is_up_to_date<A, B: Clone, W>(
    states: Seq<SampleState<B, W>>,
    calls: Seq<SampleCall<A, B, W>>,
    j: int,
)
    requires
        is_sample_run(states, calls),
        0 <= j < calls.len(),
        calls[j] is Secondary,
    ensures
        states[j + 1].stream.latest == (if secondary_items(calls.take(j)).len() == 0 {
            None
        } else {
            Some(secondary_items(calls.take(j)).last())
        }),
{
    lemma_shorter_sample_run(states, calls, j);
    lemma_shorter_sample_run(states, calls, j + 1);
    let earlier = calls.take(j);
    lemma_sample_run(states.take(j + 1), earlier);
    let queue = states[j].secondary.output.queue;
    let got = received(states.take(j + 1), earlier);
    if queue.len() > 0 {
        assert((got + queue).last() == queue[0]);
    } else {
        assert(got + queue =~= got);
    }
}

/// Nothing of the primary is lost or reordered: the pairs hold its items, one each and
/// in order, but for those that came before the stream had received a secondary item.
pub proof fn law_primary_is_sampled_losslessly<A, B: Clone, W>(
    states: Seq<SampleState<B, W>>,
    calls: Seq<SampleCall<A, B, W>>,
)
    requires
        is_sample_run(states, calls),
    ensures
        pairs(calls).len() + unpaired(states, calls) == primary_items(calls).len(),
        forall|i: int|
            0 <= i < pairs(calls).len() ==> (#[trigger] pairs(calls)[i]).0 == primary_items(
                calls,
            )[unpaired(states, calls) + i],
        received(states, calls).len() == 0 ==> pairs(calls).len() == 0,
{
    lemma_sample_run(states, calls);
}

/// The stream ends with the end of the primary and with nothing else: the report of it
/// gives the end, every later poll gives the end at once, and neither input is polled
/// any more.
pub proof fn law_only_the_primary_ends_the_stream<A, B: Clone, W>(
    states: Seq<SampleState<B, W>>,
    calls: Seq<SampleCall<A, B, W>>,
    j: int,
)
    requires
        is_sample_run(states, calls),
        0 <= j < calls.len(),
    ensures
        match calls[j] {
            SampleCall::Begin { step } => step is Finished <==> primary_ended(calls.take(j)),
            SampleCall::Secondary { step, .. } => !(step is Finished) && !primary_ended(
                calls.take(j),
            ),
            SampleCall::Primary { outcome, step } => {
                &&& step is Finished <==> outcome is End
                &&& !primary_ended(calls.take(j))
            },
            _ => true,
        },
{
    lemma_shorter_sample_run(states, calls, j);
    lemma_sample_run(states.take(j + 1), calls.take(j));
}

/// Until the driver of the secondary has reported a poll of its source, or is gone, no
/// poll of the stream gets beyond the secondary: the primary is not asked.
pub proof fn law_primary_is_asked_only_after_the_secondary<A, B: Clone, W>(
    states: Seq<SampleState<B, W>>,
    calls: Seq<SampleCall<A, B, W>>,
    j: int,
)
    requires
        is_sample_run(states, calls),
        0 <= j < calls.len(),
        forall|i: int| 0 <= i < j ==> !(#[trigger] calls[i] is Driver) && !(calls[i] is Closed),
    ensures
        calls[j] matches SampleCall::Secondary { step, .. } ==> step is Pending,
        calls[j] matches SampleCall::Begin { step } ==> step is PollSecondary || step is Finished,
{
    lemma_unreported_secondary(states, calls, j);
    assert(sample_leads(states[j], calls[j], states[j + 1]));
}

proof fn lemma_unreported_secondary<A, B: Clone, W>(
    states: Seq<SampleState<B, W>>,
    calls: Seq<SampleCall<A, B, W>>,
    j: int,
)
    requires
        is_sample_run(states, calls),
        0 <= j <= calls.len(),
        forall|i: int| 0 <= i < j ==> !(#[trigger] calls[i] is Driver) && !(calls[i] is Closed),
    ensures
        !states[j].secondary.output.driver_started,
        !states[j].secondary.output.done,
        states[j].secondary.output.queue.len() == 0,
        states[j].stream.latest is None,
        states[j].stream.has_secondary || states[j].stream.source_done,
    decreases j,
{
    if j > 0 {
        lemma_unreported_secondary(states, calls, j - 1);
        assert(sample_leads(states[j - 1], calls[j - 1], states[j]));
    }
}

/// A completed secondary keeps its last item, and only the end of the primary
/// completes the stream.
pub proof fn law_completed_secondary_keeps_its_last_item<B>(s: WithLatestState<B>)
    ensures
        s.observed(StreamPoll::End).latest == s.latest,
        s.observed(StreamPoll::End).source_done == s.source_done,
        !s.observed(StreamPoll::End).awaits_start(false),
{
}

proof fn lemma_discards_times<B>(s: WithLatestState<B>, n: nat)
    requires
        s.discarded + n < WORK_BUDGET,
    ensures
        s.discards_times(n).discarded == s.discarded + n,
    decreases n,
{
    if n > 0 {
        lemma_discards_times(s, (n - 1) as nat);
    }
}

/// However many primary items are ready before the secondary has given one, a poll
/// yields within the work budget.
pub proof fn law_drained_primary_yields<B>(s: WithLatestState<B>)
    requires
        s.wf(),
    ensures
        exists|n: nat| n < WORK_BUDGET && (#[trigger] s.discards_times(n)).budget_ends(),
{
    let n = (WORK_BUDGET - 1 - s.discarded) as nat;
    lemma_discards_times(s, n);
    assert(s.discards_times(n).budget_ends());
}

/// A secondary that its driver has not polled yet, after these polls by consumers.
pub open spec fn unpolled_secondary<B, W>(wakers: Seq<W>) -> LatestState<B, W>
    decreases wakers.len(),
{
    if wakers.len() == 0 {
        LatestState {
            output: HotState {
                queue: Seq::empty(),
                capacity: 1,
                done: false,
                waker: None,
                driver_started: false,
            },
            spent: 0,
        }
    } else {
        let before = unpolled_secondary::<B, W>(wakers.drop_last());
        LatestState { output: before.output.polled(wakers.last()), ..before }
    }
}

/// As long as no poll of the secondary was reported, the primary is not asked: its
/// items are not lost, and it cannot complete the stream. The first report, whatever
/// it is, ends the wait, and the waker of the latest poll is the one it wakes.
pub proof fn law_primary_waits_for_the_first_secondary_poll<B, W>(
    s: WithLatestState<B>,
    wakers: Seq<W>,
)
    requires
        s.latest is None,
        s.has_secondary,
    ensures
        ({
            let secondary = unpolled_secondary::<B, W>(wakers).output;
            &&& s.observed(secondary.poll()) == s
            &&& s.awaits_start(secondary.driver_started)
            &&& wakers.len() > 0 ==> secondary.waker == Some(wakers.last())
        }),
        !s.awaits_start(unpolled_secondary::<B, W>(wakers).begun().output.driver_started),
{
    lemma_unpolled_secondary::<B, W>(wakers);
}

proof fn lemma_unpolled_secondary<B, W>(wakers: Seq<W>)
    ensures
        ({
            let output = unpolled_secondary::<B, W>(wakers).output;
            &&& output.queue.len() == 0
            &&& !output.done
            &&& !output.driver_started
            &&& wakers.len() > 0 ==> output.waker == Some(wakers.last())
        }),
    decreases wakers.len(),
{
    if wakers.len() > 0 {
        lemma_unpolled_secondary::<B, W>(wakers.drop_last());
    }
}

/// Every call on a sampling stream and its secondary is one of their run.
pub proof fn law_sampling_calls_are_run_calls<A, B: Clone, W>()
    ensures
        forall|stream: WithLatestFromStream<B>, secondary: LatestStream<B, W>|
            #![trigger call_ensures(with_latest_from::<B>, (), stream), call_ensures(latest::<B, W>, (), secondary)]
            call_ensures(with_latest_from::<B>, (), stream) && call_ensures(
                latest::<B, W>,
                (),
                secondary,
            ) ==> is_sample_run(
                seq![SampleState { stream: stream@, secondary: secondary@ }],
                Seq::<SampleCall<A, B, W>>::empty(),
            ),
        forall|s: &WithLatestFromStream<B>, has: bool| #[trigger]
            call_ensures(WithLatestFromStream::<B>::has_secondary, (s,), has) ==> has
                == s@.has_secondary,
        forall|s: &mut WithLatestFromStream<B>, secondary: LatestState<B, W>, step: WithLatestStep<
            A,
            B,
        >|
            #![trigger call_ensures(WithLatestFromStream::<B>::begin_poll::<A>, (s,), step), secondary.wf()]
            call_ensures(WithLatestFromStream::<B>::begin_poll::<A>, (s,), step) ==> sample_leads(
                SampleState { stream: s@, secondary },
                SampleCall::<A, B, W>::Begin { step },
                SampleState { stream: final(s)@, secondary },
            ),
        forall|
            s: &mut WithLatestFromStream<B>,
            secondary: &mut LatestStream<B, W>,
            waker: W,
            step: WithLatestStep<A, B>,
        | #[trigger]
            call_ensures(
                WithLatestFromStream::<B>::poll_secondary::<A, W>,
                (s, secondary, waker),
                step,
            ) && !s@.source_done && s@.has_secondary ==> sample_leads(
                SampleState { stream: s@, secondary: secondary@ },
                SampleCall::Secondary { waker, step },
                SampleState { stream: final(s)@, secondary: final(secondary)@ },
            ),
        forall|
            s: &mut WithLatestFromStream<B>,
            secondary: LatestState<B, W>,
            outcome: StreamPoll<A>,
            step: WithLatestStep<A, B>,
        |
            #![trigger call_ensures(WithLatestFromStream::<B>::primary_polled::<A>, (s, outcome), step), secondary.wf()]
            call_ensures(WithLatestFromStream::<B>::primary_polled::<A>, (s, outcome), step)
                && !s@.source_done ==> sample_leads(
                SampleState { stream: s@, secondary },
                SampleCall::<A, B, W>::Primary { outcome, step },
                SampleState { stream: final(s)@, secondary },
            ),
{
}

/// What the last call on the stream asked for.
pub open spec fn asked<A, B, W>(calls: Seq<SampleCall<A, B, W>>) -> Option<WithLatestStep<A, B>>
    decreases calls.len(),
{
    if calls.len() == 0 {
        None
    } else {
        match calls.last() {
            SampleCall::Begin { step } => Some(step),
            SampleCall::Secondary { step, .. } => Some(step),
            SampleCall::Primary { step, .. } => Some(step),
            _ => asked(calls.drop_last()),
        }
    }
}

/// In the run, an input is polled only when the stream has asked for it.
pub open spec fn does_as_asked<A, B, W>(calls: Seq<SampleCall<A, B, W>>) -> bool {
    forall|j: int|
        0 <= j < calls.len() ==> match #[trigger] calls[j] {
            SampleCall::Secondary { .. } => asked(calls.take(j)) matches Some(step)
                && step is PollSecondary,
            SampleCall::Primary { .. } => asked(calls.take(j)) matches Some(step)
                && step is PollPrimary,
            _ => true,
        }
}

/// The stream has found the secondary at its end: nothing left, and nothing to come.
pub open spec fn secondary_ended<A, B, W>(
    states: Seq<SampleState<B, W>>,
    calls: Seq<SampleCall<A, B, W>>,
    n: int,
) -> bool {
    exists|j: int|
        0 <= j < n && #[trigger] calls[j] is Secondary
            && states[j].secondary.output.queue.len() == 0 && states[j].secondary.output.done
}

/// The last of the items, if there is one.
pub open spec fn last_of<T>(items: Seq<T>) -> Option<T> {
    if items.len() == 0 {
        None
    } else {
        Some(items.last())
    }
}

proof fn lemma_secondary_held<A, B: Clone, W>(
    states: Seq<SampleState<B, W>>,
    calls: Seq<SampleCall<A, B, W>>,
    n: int,
)
    requires
        is_sample_run(states, calls),
        0 <= n <= calls.len(),
    ensures
        states[n].stream.has_secondary <==> !states[n].stream.source_done && !secondary_ended(
            states,
            calls,
            n,
        ),
        secondary_ended(states, calls, n) ==> states[n].secondary.output.queue.len() == 0
            && states[n].secondary.output.done,
        states[n].secondary.output.queue.len() == 0 ==> states[n].stream.latest == last_of(
            secondary_items(calls.take(n)),
        ),
        states[n].stream.source_done <==> primary_ended(calls.take(n)),
    decreases n,
{
    lemma_shorter_sample_run(states, calls, n);
    lemma_sample_run(states.take(n + 1), calls.take(n));
    let got = received(states.take(n + 1), calls.take(n));
    if states[n].secondary.output.queue.len() == 0 {
        assert(got + states[n].secondary.output.queue =~= got);
    }
    if n > 0 {
        lemma_secondary_held(states, calls, n - 1);
        assert(sample_leads(states[n - 1], calls[n - 1], states[n]));
        if secondary_ended(states, calls, n) && !secondary_ended(states, calls, n - 1) {
            let j = choose|j: int|
                0 <= j < n && #[trigger] calls[j] is Secondary
                    && states[j].secondary.output.queue.len() == 0
                    && states[j].secondary.output.done;
            assert(j == n - 1);
        }
        if secondary_ended(states, calls, n - 1) {
            let j = choose|j: int|
                0 <= j < n - 1 && #[trigger] calls[j] is Secondary
                    && states[j].secondary.output.queue.len() == 0
                    && states[j].secondary.output.done;
            assert(calls[j] is Secondary);
        }
        if calls[n - 1] is Secondary && states[n - 1].secondary.output.queue.len() == 0
            && states[n - 1].secondary.output.done {
            assert(secondary_ended(states, calls, n));
        }
    }
}

/// A poll that begins asks the secondary first, unless the primary has ended, which ends
/// the stream, or the secondary was found at its end, and then the primary is asked.
pub proof fn law_poll_asks_the_secondary_first<A, B: Clone, W>(
    states: Seq<SampleState<B, W>>,
    calls: Seq<SampleCall<A, B, W>>,
    j: int,
)
    requires
        is_sample_run(states, calls),
        0 <= j < calls.len(),
        calls[j] is Begin,
    ensures
        calls[j]->Begin_step == (if primary_ended(calls.take(j)) {
            WithLatestStep::<A, B>::Finished
        } else if secondary_ended(states, calls, j) {
            WithLatestStep::PollPrimary
        } else {
            WithLatestStep::PollSecondary
        }),
{
    lemma_secondary_held(states, calls, j);
    assert(sample_leads(states[j], calls[j], states[j + 1]));
}

proof fn lemma_knows_the_secondary<A, B: Clone, W>(
    states: Seq<SampleState<B, W>>,
    calls: Seq<SampleCall<A, B, W>>,
    b: int,
    k: int,
)
    requires
        is_sample_run(states, calls),
        does_as_asked(calls),
        0 <= b < k <= calls.len(),
        calls[b] is Begin,
        forall|i: int| b < i < k ==> !(#[trigger] calls[i] is Begin),
    ensures
        asked(calls.take(k)) matches Some(step) && (step is PollSecondary || step is Finished || (
        exists|c: int|
            b <= c <= k && states[k].stream.latest == last_of(
                #[trigger] secondary_items(calls.take(c)),
            ))),
    decreases k - b,
{
    let past = calls.take(k);
    assert(past.drop_last() =~= calls.take(k - 1));
    assert(past.last() == calls[k - 1]);
    assert(sample_leads(states[k - 1], calls[k - 1], states[k]));
    lemma_secondary_held(states, calls, k - 1);
    lemma_secondary_held(states, calls, k);
    if k == b + 1 {
        if secondary_ended(states, calls, b) {
            assert(states[k].stream.latest == last_of(secondary_items(calls.take(k))));
        }
    } else {
        lemma_knows_the_secondary(states, calls, b, k - 1);
        assert(!(calls[k - 1] is Begin));
        if calls[k - 1] is Secondary {
            law_polled_secondary_is_up_to_date(states, calls, k - 1);
            assert(states[k].stream.latest == last_of(secondary_items(calls.take(k - 1))));
        } else if asked(calls.take(k - 1)) matches Some(step) && !(step is PollSecondary) && !(
        step is Finished) {
            let c = choose|c: int|
                b <= c <= k - 1 && states[k - 1].stream.latest == last_of(
                    #[trigger] secondary_items(calls.take(c)),
                );
            assert(states[k].stream.latest == last_of(secondary_items(calls.take(c))));
        }
    }
}

/// Each primary item is paired with the latest secondary item: a clone of the last one
/// that the source of the secondary had given by some moment of the very poll in which
/// the primary item came. If it had given none by then, the primary item is discarded.
pub proof fn law_primary_item_is_paired_with_the_latest<A, B: Clone, W>(
    states: Seq<SampleState<B, W>>,
    calls: Seq<SampleCall<A, B, W>>,
    b: int,
    j: int,
)
    requires
        is_sample_run(states, calls),
        does_as_asked(calls),
        0 <= b < j < calls.len(),
        calls[b] is Begin,
        forall|i: int| b < i < j ==> !(#[trigger] calls[i] is Begin),
        calls[j] matches SampleCall::Primary { outcome, .. } && outcome is Item,
    ensures
        exists|c: int|
            b <= c <= j && (match last_of(#[trigger] secondary_items(calls.take(c))) {
                Some(newest) => {
                    &&& calls[j]->Primary_step is Emit
                    &&& calls[j]->Primary_step->Emit_0 == calls[j]->Primary_outcome->Item_0
                    &&& cloned(newest, calls[j]->Primary_step->Emit_1)
                },
                None => calls[j]->Primary_step is PollPrimary || calls[j]->Primary_step is Yield,
            }),
{
    lemma_knows_the_secondary(states, calls, b, j);
    assert(sample_leads(states[j], calls[j], states[j + 1]));
    let c = choose|c: int|
        b <= c <= j && states[j].stream.latest == last_of(
            #[trigger] secondary_items(calls.take(c)),
        );
    assert(states[j].stream.latest == last_of(secondary_items(calls.take(c))));
}

/// The driver of the secondary has reported or is gone.
pub open spec fn secondary_reported<A, B, W>(calls: Seq<SampleCall<A, B, W>>) -> bool
    decreases calls.len(),
{
    calls.len() > 0 && (secondary_reported(calls.drop_last()) || calls.last() is Driver
        || calls.last() is Closed)
}

/// How many primary items came in the running poll.
pub open spec fn pulled_in_poll<A, B, W>(calls: Seq<SampleCall<A, B, W>>) -> nat
    decreases calls.len(),
{
    if calls.len() == 0 {
        0
    } else {
        match calls.last() {
            SampleCall::Begin { .. } => 0,
            SampleCall::Primary { outcome: StreamPoll::Item(_), .. } => pulled_in_poll(
                calls.drop_last(),
            ) + 1,
            _ => pulled_in_poll(calls.drop_last()),
        }
    }
}

proof fn lemma_sample_progress<A, B: Clone, W>(
    states: Seq<SampleState<B, W>>,
    calls: Seq<SampleCall<A, B, W>>,
    n: int,
)
    requires
        is_sample_run(states, calls),
        0 <= n <= calls.len(),
    ensures
        states[n].stream.discarded < WORK_BUDGET,
        states[n].stream.latest is None ==> states[n].stream.discarded == pulled_in_poll(
            calls.take(n),
        ) % (WORK_BUDGET as nat),
        secondary_reported(calls.take(n)) <==> states[n].secondary.output.driver_started
            || states[n].secondary.output.done,
        !states[n].secondary.output.driver_started ==> states[n].secondary.output.queue.len() == 0
            && states[n].stream.latest is None,
    decreases n,
{
    if n > 0 {
        lemma_sample_progress(states, calls, n - 1);
        let past = calls.take(n);
        assert(past.drop_last() =~= calls.take(n - 1));
        assert(past.last() == calls[n - 1]);
        assert(sample_leads(states[n - 1], calls[n - 1], states[n]));
    }
}

/// What the stream does next: it waits at the secondary exactly until the driver of the
/// secondary has reported or is gone; it returns pending exactly when the primary is
/// silent, and ends with it; and of primary items that cannot be paired it drains
/// [`WORK_BUDGET`] in one poll and then yields.
pub proof fn law_stream_asks_on<A, B: Clone, W>(
    states: Seq<SampleState<B, W>>,
    calls: Seq<SampleCall<A, B, W>>,
    j: int,
)
    requires
        is_sample_run(states, calls),
        0 <= j < calls.len(),
    ensures
        match calls[j] {
            SampleCall::Secondary { step, .. } => step == (if secondary_reported(calls.take(j)) {
                WithLatestStep::<A, B>::PollPrimary
            } else {
                WithLatestStep::Pending
            }),
            SampleCall::Primary { outcome: StreamPoll::Pending, step } => step is Pending,
            SampleCall::Primary { outcome: StreamPoll::End, step } => step is Finished,
            SampleCall::Primary { outcome: StreamPoll::Item(_), step } => step is Emit || step == (
            if pulled_in_poll(calls.take(j + 1)) % (WORK_BUDGET as nat) == 0 {
                WithLatestStep::<A, B>::Yield
            } else {
                WithLatestStep::PollPrimary
            }),
            _ => true,
        },
{
    lemma_sample_progress(states, calls, j);
    lemma_secondary_held(states, calls, j);
    assert(sample_leads(states[j], calls[j], states[j + 1]));
    assert(calls.take(j + 1).drop_last() =~= calls.take(j));
    assert(calls.take(j + 1).last() == calls[j]);
}

/// A poll that waits at the secondary is woken, with its own waker, by the first report of
/// the driver of the secondary or by its going.
pub proof fn law_waiting_poll_is_woken<A, B: Clone, W>(
    states: Seq<SampleState<B, W>>,
    calls: Seq<SampleCall<A, B, W>>,
    a: int,
    b: int,
)
    requires
        is_sample_run(states, calls),
        0 <= a < b < calls.len(),
        calls[a] matches SampleCall::Secondary { step, .. } && step is Pending,
        calls[b] is Driver || calls[b] is Closed,
        forall|c: int|
            a < c < b ==> !(#[trigger] calls[c] is Secondary) && !(calls[c] is Driver) && !(
            calls[c] is Closed),
    ensures
        calls[b] matches SampleCall::Driver { turn, .. } ==> turn.wake == Some(
            calls[a]->Secondary_waker,
        ),
        calls[b] matches SampleCall::Closed { wake } ==> wake == Some(calls[a]->Secondary_waker),
{
    lemma_waits_at_the_secondary(states, calls, a, b);
    assert(sample_leads(states[b], calls[b], states[b + 1]));
}

proof fn lemma_waits_at_the_secondary<A, B: Clone, W>(
    states: Seq<SampleState<B, W>>,
    calls: Seq<SampleCall<A, B, W>>,
    a: int,
    b: int,
)
    requires
        is_sample_run(states, calls),
        0 <= a < b <= calls.len(),
        calls[a] matches SampleCall::Secondary { step, .. } && step is Pending,
        forall|c: int|
            a < c < b ==> !(#[trigger] calls[c] is Secondary) && !(calls[c] is Driver) && !(
            calls[c] is Closed),
    ensures
        states[b].secondary.output.waker == Some(calls[a]->Secondary_waker),
        !states[b].secondary.output.driver_started,
    decreases b - a,
{
    assert(sample_leads(states[b - 1], calls[b - 1], states[b]));
    if b == a + 1 {
        lemma_sample_progress(states, calls, a);
    } else {
        assert(!(calls[b - 1] is Secondary));
        lemma_waits_at_the_secondary(states, calls, a, b - 1);
    }
}

} // verus!
