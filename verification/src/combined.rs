use vstd::prelude::*;

use crate::budget::{WorkBudget, WORK_BUDGET};
use crate::driver::{
    lemma_whole_budgets, spent_after_work, step_after_work, work, DriverStep, DriverTurn, Timer,
};
use crate::hot::{
    is_hot_trace, lemma_hot_trace, lemma_told_consumer_waits, lemma_waiting_consumer_is_told, tells,
    HotChannel, HotEvent, HotState,
};
use crate::poll::StreamPoll;

verus! {

/// The latest values of a fixed number of unlike inputs.
pub trait CombineInputs: Sized {
    /// One value of each input.
    type Snapshot;

    /// An item of one of the inputs.
    type Item;

    /// How many inputs there are.
    spec fn arity() -> nat;

    /// The input that the item belongs to.
    spec fn index_of(item: Self::Item) -> int;

    /// The latest item of an input, if it has given one.
    spec fn latest(self, index: int) -> Option<Self::Item>;

    /// An input has completed.
    spec fn is_done(self, index: int) -> bool;

    /// The inputs after one of them gave an item.
    spec fn with_item(self, item: Self::Item) -> Self;

    /// The inputs after one of them completed.
    spec fn with_end(self, index: int) -> Self;

    /// The value that the snapshot holds of the item's input is a clone of the item.
    spec fn shows(snapshot: Self::Snapshot, item: Self::Item) -> bool;

    /// Every input has produced a value.
    spec fn all_present(self) -> bool;

    /// Nothing more can come: some input completed without a value, or every
    /// input has completed.
    spec fn is_over(self) -> bool;

    /// The snapshot holds a clone of the latest value of each input.
    spec fn is_snapshot(self, snapshot: Self::Snapshot) -> bool;

    proof fn lemma_snapshot_needs_every_value(self, snapshot: Self::Snapshot)
        ensures
            self.is_snapshot(snapshot) ==> self.all_present(),
    ;

    proof fn lemma_item_replaces_the_latest(self, item: Self::Item, index: int)
        ensures
            0 <= Self::index_of(item) < Self::arity(),
            self.with_item(item).is_done(index) == self.is_done(index),
            self.with_item(item).latest(index) == (if index == Self::index_of(item) {
                Some(item)
            } else {
                self.latest(index)
            }),
    ;

    proof fn lemma_end_keeps_the_latest(self, ended: int, index: int)
        ensures
            self.with_end(ended).latest(index) == self.latest(index),
            0 <= ended < Self::arity() ==> self.with_end(ended).is_done(index) == (index == ended
                || self.is_done(index)),
    ;

    /// A combination is over when some input has completed without an item, or every
    /// input has completed.
    proof fn lemma_over(self)
        ensures
            self.is_over() <==> (exists|i: int|
                0 <= i < Self::arity() && #[trigger] self.is_done(i) && self.latest(i) is None) || (
            forall|i: int| 0 <= i < Self::arity() ==> #[trigger] self.is_done(i)),
    ;

    proof fn lemma_values_are_the_latest(self, snapshot: Self::Snapshot)
        ensures
            self.all_present() <==> forall|i: int|
                0 <= i < Self::arity() ==> #[trigger] self.latest(i) is Some,
            self.is_snapshot(snapshot) <==> forall|i: int|
                0 <= i < Self::arity() ==> #[trigger] self.latest(i) is Some && Self::shows(
                    snapshot,
                    self.latest(i)->0,
                ),
    ;

    /// A snapshot of the latest values, if there is one.
    fn snapshot(&self) -> (snapshot: Option<Self::Snapshot>)
        ensures
            match snapshot {
                Some(snapshot) => self.is_snapshot(snapshot),
                None => !self.all_present(),
            },
    ;

    /// Whether nothing more can come.
    fn over(&self) -> (over: bool)
        ensures
            over == self.is_over(),
    ;
}

/// The mathematical state of a combination.
#[verifier::ext_equal]
pub struct CombineState<I: CombineInputs, W> {
    /// The latest values, and which inputs have completed.
    pub inputs: I,
    /// The snapshot that the consumer has not taken.
    pub output: HotState<I::Snapshot, W>,
    /// The work that the driver has done since it last yielded.
    pub spent: nat,
}

impl<I: CombineInputs, W> CombineState<I, W> {
    /// The state of a new combination.
    pub open spec fn fresh(inputs: I) -> Self {
        CombineState {
            inputs,
            output: HotState {
                queue: Seq::empty(),
                capacity: 1,
                done: false,
                waker: None,
                driver_started: false,
            },
            spent: 0,
        }
    }

    /// At most one snapshot is retained, and it is one of the present latest
    /// values. The stream is completed when nothing more can come.
    pub open spec fn wf(self) -> bool {
        &&& self.output.wf()
        &&& self.output.capacity == 1
        &&& self.output.queue.len() > 0 ==> self.inputs.is_snapshot(self.output.queue[0])
        &&& self.inputs.is_over() ==> self.output.done
        &&& self.spent < WORK_BUDGET
    }

    /// What a new latest value leads to: a new snapshot, once every input has a
    /// value, in place of one that is not taken yet.
    pub open spec fn published(self, inputs: I, after: Self, turn: DriverTurn<W>) -> bool {
        &&& turn.timer == Timer::Keep
        &&& turn.step == step_after_work(self.spent)
        &&& after.inputs == inputs
        &&& after.spent == spent_after_work(self.spent)
        &&& if inputs.all_present() {
            &&& turn.wake == self.output.sent_wakes()
            &&& exists|snapshot: I::Snapshot| #[trigger]
                inputs.is_snapshot(snapshot) && after.output == self.output.sent(snapshot)
        } else {
            &&& turn.wake is None
            &&& after.output == self.output
        }
    }

    /// What the end of an input leads to: the end of the stream, if nothing more
    /// can come.
    pub open spec fn settled(self, inputs: I, after: Self, turn: DriverTurn<W>) -> bool {
        &&& turn.timer == Timer::Keep
        &&& after.inputs == inputs
        &&& if inputs.is_over() {
            &&& turn.step == DriverStep::Finish
            &&& turn.wake == self.output.waker
            &&& after.output == self.output.closed()
            &&& after.spent == self.spent
        } else {
            &&& turn.step == step_after_work(self.spent)
            &&& turn.wake is None
            &&& after.output == self.output
            &&& after.spent == spent_after_work(self.spent)
        }
    }
}

/// The part of a combination that does not depend on the number of its inputs.
pub struct Combined<S, W> {
    channel: HotChannel<S, W>,
    budget: WorkBudget,
}

impl<S, W> Combined<S, W> {
    /// The snapshot that the consumer has not taken.
    pub closed spec fn output(&self) -> HotState<S, W> {
        self.channel@
    }

    /// The work that the driver has done since it last yielded.
    pub closed spec fn spent(&self) -> nat {
        self.budget.spent()
    }

    /// The state of the combination, given that of its inputs.
    pub open spec fn with<I: CombineInputs<Snapshot = S>>(&self, inputs: I) -> CombineState<I, W> {
        CombineState { inputs, output: self.output(), spent: self.spent() }
    }

    pub(crate) fn new<I: CombineInputs<Snapshot = S>>(inputs: &I) -> (combined: Self)
        requires
            !inputs.is_over(),
        ensures
            combined.with(*inputs).wf(),
            combined.with(*inputs) == CombineState::<I, W>::fresh(*inputs),
    {
        Combined { channel: HotChannel::new(1), budget: WorkBudget::new() }
    }

    pub(crate) fn mark_driver_started<I: CombineInputs<Snapshot = S>>(
        &mut self,
        inputs: &I,
    ) -> (wake: Option<W>)
        requires
            old(self).with(*inputs).wf(),
        ensures
            final(self).with(*inputs).wf(),
            wake == old(self).with(*inputs).output.waker,
            final(self).with(*inputs) == (CombineState {
                output: HotState {
                    driver_started: true,
                    waker: None,
                    ..old(self).with(*inputs).output
                },
                ..old(self).with(*inputs)
            }),
    {
        self.channel.mark_driver_started()
    }

    /// Sends a snapshot after a latest value was set.
    pub(crate) fn publish<I: CombineInputs<Snapshot = S>>(&mut self, inputs: &I) -> (turn: DriverTurn<
        W,
    >)
        requires
            old(self).with(*inputs).output.wf(),
            old(self).with(*inputs).output.capacity == 1,
            !old(self).with(*inputs).output.done,
            old(self).with(*inputs).output.queue.len() > 0 ==> inputs.all_present(),
            !inputs.is_over(),
            old(self).with(*inputs).spent < WORK_BUDGET,
        ensures
            final(self).with(*inputs).wf(),
            old(self).with(*inputs).published(*inputs, final(self).with(*inputs), turn),
    {
        let mut wake: Option<W> = None;
        if let Some(snapshot) = inputs.snapshot() {
            proof {
                inputs.lemma_snapshot_needs_every_value(snapshot);
            }
            wake = self.channel.send(snapshot);
        }
        let step = work(&mut self.budget);
        DriverTurn { step, timer: Timer::Keep, wake }
    }

    /// Completes the stream after the end of an input, if nothing more can come.
    pub(crate) fn settle<I: CombineInputs<Snapshot = S>>(&mut self, inputs: &I) -> (turn: DriverTurn<
        W,
    >)
        requires
            old(self).with(*inputs).output.wf(),
            old(self).with(*inputs).output.capacity == 1,
            old(self).with(*inputs).output.queue.len() > 0 ==> inputs.is_snapshot(
                old(self).with(*inputs).output.queue[0],
            ),
            old(self).with(*inputs).spent < WORK_BUDGET,
        ensures
            final(self).with(*inputs).wf(),
            old(self).with(*inputs).settled(*inputs, final(self).with(*inputs), turn),
    {
        if inputs.over() {
            let wake = self.channel.close();
            DriverTurn { step: DriverStep::Finish, timer: Timer::Keep, wake }
        } else {
            let step = work(&mut self.budget);
            DriverTurn { step, timer: Timer::Keep, wake: None }
        }
    }

    pub(crate) fn close<I: CombineInputs<Snapshot = S>>(&mut self, inputs: &I) -> (wake: Option<W>)
        requires
            old(self).with(*inputs).wf(),
        ensures
            final(self).with(*inputs).wf(),
            wake == old(self).with(*inputs).output.waker,
            final(self).with(*inputs) == (CombineState {
                output: old(self).with(*inputs).output.closed(),
                ..old(self).with(*inputs)
            }),
    {
        self.channel.close()
    }

    pub(crate) fn poll_next<I: CombineInputs<Snapshot = S>>(
        &mut self,
        inputs: &I,
        waker: W,
    ) -> (outcome: StreamPoll<S>)
        requires
            old(self).with(*inputs).wf(),
        ensures
            final(self).with(*inputs).wf(),
            final(self).with(*inputs) == (CombineState {
                output: old(self).with(*inputs).output.polled(waker),
                ..old(self).with(*inputs)
            }),
            outcome == old(self).with(*inputs).output.poll(),
    {
        self.channel.poll_next(waker)
    }
}

/// No output exists until every input has produced a value.
pub proof fn law_no_output_before_every_value<I: CombineInputs, W>(s: CombineState<I, W>)
    requires
        s.wf(),
        !s.inputs.all_present(),
    ensures
        !(s.output.poll() is Item),
{
    if s.output.queue.len() > 0 {
        s.inputs.lemma_snapshot_needs_every_value(s.output.queue[0]);
    }
}

/// However many updates the consumer has missed, what it observes is a snapshot
/// of the values that are the latest when it polls.
pub proof fn law_observed_snapshot_is_current<I: CombineInputs, W>(s: CombineState<I, W>)
    requires
        s.wf(),
    ensures
        s.output.poll() matches StreamPoll::Item(snapshot) ==> s.inputs.is_snapshot(snapshot),
{
}

/// One call on a combination, with what it gave.
pub enum CombinedCall<I: CombineInputs, W> {
    /// The driver runs.
    Started { wake: Option<W> },
    /// An input gave an item.
    Input { item: I::Item, turn: DriverTurn<W> },
    /// An input ended.
    Ended { index: int, turn: DriverTurn<W> },
    /// The driver is gone.
    Closed { wake: Option<W> },
    /// The consumer polls.
    Poll { waker: W, outcome: StreamPoll<I::Snapshot> },
}

/// The call leads from one state to the other. Only an input that has not completed
/// reports, and only until the combination has.
pub open spec fn combined_leads<I: CombineInputs, W>(
    s: CombineState<I, W>,
    call: CombinedCall<I, W>,
    t: CombineState<I, W>,
) -> bool {
    match call {
        CombinedCall::Started { wake } => {
            &&& wake == s.output.waker
            &&& t == (CombineState {
                output: HotState { driver_started: true, waker: None, ..s.output },
                ..s
            })
        },
        CombinedCall::Input { item, turn } => {
            &&& !s.output.done
            &&& !s.inputs.is_done(I::index_of(item))
            &&& s.published(s.inputs.with_item(item), t, turn)
        },
        CombinedCall::Ended { index, turn } => {
            &&& 0 <= index < I::arity()
            &&& !s.output.done
            &&& !s.inputs.is_done(index)
            &&& s.settled(s.inputs.with_end(index), t, turn)
        },
        CombinedCall::Closed { wake } => {
            &&& wake == s.output.waker
            &&& t == (CombineState { output: s.output.closed(), ..s })
        },
        CombinedCall::Poll { waker, outcome } => {
            &&& outcome == s.output.poll()
            &&& t == (CombineState { output: s.output.polled(waker), ..s })
        },
    }
}

/// A run of calls on a new combination: each state follows from the one before it.
pub open spec fn is_combined_run<I: CombineInputs, W>(
    states: Seq<CombineState<I, W>>,
    calls: Seq<CombinedCall<I, W>>,
) -> bool {
    &&& states.len() == calls.len() + 1
    &&& states[0] == CombineState::<I, W>::fresh(states[0].inputs)
    &&& forall|i: int| #[trigger] states[0].inputs.latest(i) is None
    &&& forall|i: int| 0 <= i < I::arity() ==> !#[trigger] states[0].inputs.is_done(i)
    &&& forall|j: int|
        0 <= j < calls.len() ==> combined_leads(states[j], #[trigger] calls[j], states[j + 1])
}

/// The items that an input gave in the run.
pub open spec fn input_items<I: CombineInputs, W>(
    calls: Seq<CombinedCall<I, W>>,
    index: int,
) -> Seq<I::Item>
    decreases calls.len(),
{
    if calls.len() == 0 {
        Seq::empty()
    } else {
        let before = input_items(calls.drop_last(), index);
        match calls.last() {
            CombinedCall::Input { item, .. } => if I::index_of(item) == index {
                before.push(item)
            } else {
                before
            },
            _ => before,
        }
    }
}

/// The snapshots that the consumer took in the run.
pub open spec fn snapshots<I: CombineInputs, W>(calls: Seq<CombinedCall<I, W>>) -> Seq<I::Snapshot>
    decreases calls.len(),
{
    if calls.len() == 0 {
        Seq::empty()
    } else {
        let before = snapshots(calls.drop_last());
        match calls.last() {
            CombinedCall::Poll { outcome: StreamPoll::Item(snapshot), .. } => before.push(snapshot),
            _ => before,
        }
    }
}

/// The snapshot holds, of each input, a clone of the last item that it gave in these
/// calls.
pub open spec fn is_of_last_items<I: CombineInputs, W>(
    snapshot: I::Snapshot,
    calls: Seq<CombinedCall<I, W>>,
) -> bool {
    forall|i: int|
        0 <= i < I::arity() ==> (#[trigger] input_items(calls, i)).len() > 0 && I::shows(
            snapshot,
            input_items(calls, i).last(),
        )
}

proof fn lemma_shorter_combined_run<I: CombineInputs, W>(
    states: Seq<CombineState<I, W>>,
    calls: Seq<CombinedCall<I, W>>,
    n: int,
)
    requires
        is_combined_run(states, calls),
        0 <= n <= calls.len(),
    ensures
        is_combined_run(states.take(n + 1), calls.take(n)),
        states.take(n + 1).last() == states[n],
        n < calls.len() ==> combined_leads(states[n], calls[n], states[n + 1]),
{
    let before = states.take(n + 1);
    let earlier = calls.take(n);
    assert forall|j: int| 0 <= j < earlier.len() implies combined_leads(
        before[j],
        #[trigger] earlier[j],
        before[j + 1],
    ) by {
        assert(earlier[j] == calls[j]);
    }
}

proof fn lemma_combined_run<I: CombineInputs, W>(
    states: Seq<CombineState<I, W>>,
    calls: Seq<CombinedCall<I, W>>,
)
    requires
        is_combined_run(states, calls),
    ensures
        ({
            let t = states.last();
            &&& forall|i: int| #[trigger]
                t.inputs.latest(i) == (if input_items(calls, i).len() == 0 {
                    None
                } else {
                    Some(input_items(calls, i).last())
                })
            &&& t.output.capacity == 1
            &&& t.output.queue.len() <= 1
            &&& t.output.queue.len() == 1 ==> t.inputs.is_snapshot(t.output.queue[0])
            &&& t.inputs.all_present() && t.output.queue.len() == 0 && I::arity() > 0 ==> snapshots(
                calls,
            ).len() > 0 && t.inputs.is_snapshot(snapshots(calls).last())
        }),
    decreases calls.len(),
{
    if calls.len() == 0 {
        let inputs = states[0].inputs;
        if inputs.all_present() {
            inputs.lemma_values_are_the_latest(arbitrary());
            assert(inputs.latest(0) is None);
        }
    } else {
        let n = calls.len() - 1;
        let before = states.drop_last();
        let earlier = calls.drop_last();
        lemma_shorter_combined_run(states, calls, n);
        assert(states.take(n + 1) =~= before);
        assert(calls.take(n) =~= earlier);
        lemma_combined_run(before, earlier);
        let s = states[n];
        let t = states[n + 1];
        assert(combined_leads(s, calls[n], t));
        let call = calls.last();
        assert forall|i: int| #[trigger] t.inputs.latest(i) == (if input_items(calls, i).len() == 0 {
            None
        } else {
            Some(input_items(calls, i).last())
        }) by {
            assert(s.inputs.latest(i) == (if input_items(earlier, i).len() == 0 {
                None
            } else {
                Some(input_items(earlier, i).last())
            }));
            match call {
                CombinedCall::Input { item, .. } => {
                    s.inputs.lemma_item_replaces_the_latest(item, i);
                },
                CombinedCall::Ended { index, .. } => {
                    s.inputs.lemma_end_keeps_the_latest(index, i);
                },
                _ => {},
            }
        }
        match call {
            CombinedCall::Input { item, .. } => {
                if !t.inputs.all_present() && s.output.queue.len() > 0 {
                    s.inputs.lemma_snapshot_needs_every_value(s.output.queue[0]);
                    s.inputs.lemma_values_are_the_latest(s.output.queue[0]);
                    t.inputs.lemma_values_are_the_latest(s.output.queue[0]);
                    assert forall|i: int| 0 <= i < I::arity() implies #[trigger] t.inputs.latest(
                        i,
                    ) is Some by {
                        s.inputs.lemma_item_replaces_the_latest(item, i);
                    }
                }
            },
            CombinedCall::Ended { index, .. } => {
                assert forall|snapshot: I::Snapshot| #[trigger]
                    t.inputs.is_snapshot(snapshot) == s.inputs.is_snapshot(snapshot)
                    && t.inputs.all_present() == s.inputs.all_present() by {
                    lemma_end_keeps_snapshots(s.inputs, index, snapshot);
                }
                lemma_end_keeps_snapshots(s.inputs, index, arbitrary());
            },
            _ => {},
        }
    }
}

proof fn lemma_end_keeps_snapshots<I: CombineInputs>(inputs: I, index: int, snapshot: I::Snapshot)
    ensures
        inputs.with_end(index).is_snapshot(snapshot) == inputs.is_snapshot(snapshot),
        inputs.with_end(index).all_present() == inputs.all_present(),
{
    let after = inputs.with_end(index);
    inputs.lemma_values_are_the_latest(snapshot);
    after.lemma_values_are_the_latest(snapshot);
    assert forall|i: int|
        #![trigger after.latest(i)]
        #![trigger inputs.latest(i)]
        after.latest(i) == inputs.latest(i) by {
        inputs.lemma_end_keeps_the_latest(index, i);
    }
}

proof fn lemma_of_last_items<I: CombineInputs, W>(
    states: Seq<CombineState<I, W>>,
    calls: Seq<CombinedCall<I, W>>,
    snapshot: I::Snapshot,
)
    requires
        is_combined_run(states, calls),
        states.last().inputs.is_snapshot(snapshot),
    ensures
        is_of_last_items(snapshot, calls),
{
    lemma_combined_run(states, calls);
    let inputs = states.last().inputs;
    inputs.lemma_values_are_the_latest(snapshot);
    assert forall|i: int| 0 <= i < I::arity() implies (#[trigger] input_items(calls, i)).len() > 0
        && I::shows(snapshot, input_items(calls, i).last()) by {
        assert(inputs.latest(i) is Some);
    }
}

proof fn lemma_items_grow<I: CombineInputs, W>(
    calls: Seq<CombinedCall<I, W>>,
    a: int,
    b: int,
    index: int,
)
    requires
        0 <= a <= b <= calls.len(),
    ensures
        input_items(calls.take(a), index).is_prefix_of(input_items(calls.take(b), index)),
    decreases b - a,
{
    if a < b {
        lemma_items_grow(calls, a, b - 1, index);
        assert(calls.take(b).drop_last() =~= calls.take(b - 1));
    }
}

proof fn lemma_polled_snapshot<I: CombineInputs, W>(
    states: Seq<CombineState<I, W>>,
    calls: Seq<CombinedCall<I, W>>,
    a: int,
)
    requires
        is_combined_run(states, calls),
        0 <= a < calls.len(),
        calls[a] matches CombinedCall::Poll { outcome, .. } && outcome is Item,
    ensures
        is_of_last_items(calls[a]->outcome->Item_0, calls.take(a)),
{
    lemma_shorter_combined_run(states, calls, a);
    lemma_combined_run(states.take(a + 1), calls.take(a));
    lemma_of_last_items(states.take(a + 1), calls.take(a), calls[a]->outcome->Item_0);
}

/// Every snapshot that the consumer takes holds, of each input, a clone of the last item
/// that this input had given when the consumer polled. From one snapshot to a later one,
/// that item's place among the input's items never moves back.
pub proof fn law_snapshots_never_move_back<I: CombineInputs, W>(
    states: Seq<CombineState<I, W>>,
    calls: Seq<CombinedCall<I, W>>,
    a: int,
    b: int,
    index: int,
)
    requires
        is_combined_run(states, calls),
        0 <= a <= b < calls.len(),
        calls[a] matches CombinedCall::Poll { outcome, .. } && outcome is Item,
        calls[b] matches CombinedCall::Poll { outcome, .. } && outcome is Item,
    ensures
        is_of_last_items(calls[a]->outcome->Item_0, calls.take(a)),
        is_of_last_items(calls[b]->outcome->Item_0, calls.take(b)),
        input_items(calls.take(a), index).is_prefix_of(input_items(calls.take(b), index)),
        input_items(calls.take(b), index).is_prefix_of(input_items(calls, index)),
{
    lemma_polled_snapshot(states, calls, a);
    lemma_polled_snapshot(states, calls, b);
    lemma_items_grow(calls, a, b, index);
    lemma_items_grow(calls, b, calls.len() as int, index);
    assert(calls.take(calls.len() as int) =~= calls);
}

/// A consumer that has taken all there is, of a combination every input of which has
/// given an item, has taken at least one snapshot, and the last one is of the last items.
pub proof fn law_last_snapshot_is_of_last_items<I: CombineInputs, W>(
    states: Seq<CombineState<I, W>>,
    calls: Seq<CombinedCall<I, W>>,
)
    requires
        is_combined_run(states, calls),
        I::arity() > 0,
        states.last().output.queue.len() == 0,
        forall|i: int| 0 <= i < I::arity() ==> (#[trigger] input_items(calls, i)).len() > 0,
    ensures
        snapshots(calls).len() > 0,
        is_of_last_items(snapshots(calls).last(), calls),
{
    lemma_combined_run(states, calls);
    let inputs = states.last().inputs;
    inputs.lemma_values_are_the_latest(arbitrary());
    assert forall|i: int| 0 <= i < I::arity() implies #[trigger] inputs.latest(i) is Some by {
        assert(input_items(calls, i).len() > 0);
    }
    lemma_of_last_items(states, calls, snapshots(calls).last());
}

/// The end of this input was reported in these calls.
pub open spec fn has_ended<I: CombineInputs, W>(calls: Seq<CombinedCall<I, W>>, i: int) -> bool
    decreases calls.len(),
{
    calls.len() > 0 && (has_ended(calls.drop_last(), i) || (
    calls.last() matches CombinedCall::Ended { index, .. } && index == i))
}

/// The driver has gone in these calls.
pub open spec fn driver_gone<I: CombineInputs, W>(calls: Seq<CombinedCall<I, W>>) -> bool
    decreases calls.len(),
{
    calls.len() > 0 && (driver_gone(calls.drop_last()) || calls.last() is Closed)
}

/// Some input has ended without an item, or all of them have ended.
pub open spec fn inputs_are_over<I: CombineInputs, W>(calls: Seq<CombinedCall<I, W>>) -> bool {
    ||| exists|i: int|
        0 <= i < I::arity() && #[trigger] has_ended(calls, i) && input_items(calls, i).len() == 0
    ||| forall|i: int| 0 <= i < I::arity() ==> #[trigger] has_ended(calls, i)
}

/// An input gave an item since the consumer last polled, and by then all had given one.
pub open spec fn is_news<I: CombineInputs, W>(calls: Seq<CombinedCall<I, W>>) -> bool
    decreases calls.len(),
{
    if calls.len() == 0 {
        false
    } else {
        match calls.last() {
            CombinedCall::Input { .. } => forall|i: int|
                0 <= i < I::arity() ==> (#[trigger] input_items(calls, i)).len() > 0,
            CombinedCall::Poll { .. } => false,
            _ => is_news(calls.drop_last()),
        }
    }
}

/// How many items and ends of inputs the driver has reported.
pub open spec fn handled<I: CombineInputs, W>(calls: Seq<CombinedCall<I, W>>) -> nat
    decreases calls.len(),
{
    if calls.len() == 0 {
        0
    } else if calls.last() is Input || calls.last() is Ended {
        handled(calls.drop_last()) + 1
    } else {
        handled(calls.drop_last())
    }
}

proof fn lemma_inputs_are_over<I: CombineInputs, W>(inputs: I, calls: Seq<CombinedCall<I, W>>)
    requires
        forall|i: int|
            0 <= i < I::arity() ==> #[trigger] inputs.is_done(i) == has_ended(calls, i),
        forall|i: int|
            0 <= i < I::arity() ==> (#[trigger] inputs.latest(i) is None <==> input_items(
                calls,
                i,
            ).len() == 0),
    ensures
        inputs.is_over() == inputs_are_over(calls),
{
    inputs.lemma_over();
    if exists|i: int| 0 <= i < I::arity() && #[trigger] inputs.is_done(i) && inputs.latest(i) is None {
        let i = choose|i: int|
            0 <= i < I::arity() && #[trigger] inputs.is_done(i) && inputs.latest(i) is None;
        assert(has_ended(calls, i) && input_items(calls, i).len() == 0);
    }
    if exists|i: int|
        0 <= i < I::arity() && #[trigger] has_ended(calls, i) && input_items(calls, i).len() == 0 {
        let i = choose|i: int|
            0 <= i < I::arity() && #[trigger] has_ended(calls, i) && input_items(calls, i).len()
                == 0;
        assert(inputs.is_done(i) && inputs.latest(i) is None);
    }
    if forall|i: int| 0 <= i < I::arity() ==> #[trigger] inputs.is_done(i) {
        assert forall|i: int| 0 <= i < I::arity() implies #[trigger] has_ended(calls, i) by {
            assert(inputs.is_done(i));
        }
    }
    if forall|i: int| 0 <= i < I::arity() ==> #[trigger] has_ended(calls, i) {
        assert forall|i: int| 0 <= i < I::arity() implies #[trigger] inputs.is_done(i) by {
            assert(has_ended(calls, i));
        }
    }
}

proof fn lemma_combined_history<I: CombineInputs, W>(
    states: Seq<CombineState<I, W>>,
    calls: Seq<CombinedCall<I, W>>,
    n: int,
)
    requires
        is_combined_run(states, calls),
        I::arity() > 0,
        0 <= n <= calls.len(),
    ensures
        ({
            let past = calls.take(n);
            let t = states[n];
            &&& forall|i: int|
                0 <= i < I::arity() ==> #[trigger] t.inputs.is_done(i) == has_ended(past, i)
            &&& t.inputs.is_over() == inputs_are_over(past)
            &&& t.inputs.all_present() <==> forall|i: int|
                0 <= i < I::arity() ==> (#[trigger] input_items(past, i)).len() > 0
            &&& t.output.done <==> driver_gone(past) || inputs_are_over(past)
            &&& t.output.queue.len() > 0 <==> is_news(past)
            &&& t.output.queue.len() <= 1
            &&& t.output.capacity == 1
            &&& t.output.queue.len() > 0 ==> t.inputs.is_snapshot(t.output.queue[0])
            &&& !t.output.done ==> t.spent == handled(past) % (WORK_BUDGET as nat)
        }),
    decreases n,
{
    let past = calls.take(n);
    let t = states[n];
    lemma_shorter_combined_run(states, calls, n);
    lemma_combined_run(states.take(n + 1), past);
    t.inputs.lemma_values_are_the_latest(arbitrary());
    assert(t.inputs.all_present() <==> forall|i: int|
        0 <= i < I::arity() ==> (#[trigger] input_items(past, i)).len() > 0) by {
        if t.inputs.all_present() {
            assert forall|i: int| 0 <= i < I::arity() implies (#[trigger] input_items(past, i)).len() > 0 by {
                assert(t.inputs.latest(i) is Some);
            }
        }
        if forall|i: int| 0 <= i < I::arity() ==> (#[trigger] input_items(past, i)).len() > 0 {
            assert forall|i: int| 0 <= i < I::arity() implies #[trigger] t.inputs.latest(i) is Some by {
                assert(input_items(past, i).len() > 0);
            }
        }
    }
    if n > 0 {
        lemma_combined_history(states, calls, n - 1);
        let earlier = calls.take(n - 1);
        let s = states[n - 1];
        assert(past.drop_last() =~= earlier);
        assert(past.last() == calls[n - 1]);
        assert(combined_leads(s, calls[n - 1], t));
        lemma_whole_budgets(handled(earlier));
        assert forall|i: int| 0 <= i < I::arity() implies #[trigger] t.inputs.is_done(i) == has_ended(past, i) by {
            assert(s.inputs.is_done(i) == has_ended(earlier, i));
            match calls[n - 1] {
                CombinedCall::Input { item, .. } => {
                    s.inputs.lemma_item_replaces_the_latest(item, i);
                },
                CombinedCall::Ended { index, .. } => {
                    s.inputs.lemma_end_keeps_the_latest(index, i);
                },
                _ => {},
            }
        }
        lemma_inputs_are_over(t.inputs, past);
        match calls[n - 1] {
            CombinedCall::Input { item, .. } => {
                s.inputs.lemma_item_replaces_the_latest(item, 0);
                let index = I::index_of(item);
                assert(!s.inputs.is_done(index));
                assert(!has_ended(past, index));
                assert forall|i: int| 0 <= i < I::arity() && #[trigger] has_ended(past, i) implies input_items(past, i).len() > 0 by {
                    assert(has_ended(earlier, i));
                    assert(!inputs_are_over(earlier));
                    assert(input_items(earlier, i).len() > 0);
                }
                assert(!inputs_are_over(past));
                if s.output.queue.len() > 0 {
                    s.inputs.lemma_snapshot_needs_every_value(s.output.queue[0]);
                    assert forall|i: int| 0 <= i < I::arity() implies (#[trigger] input_items(past, i)).len() > 0 by {
                        assert(input_items(earlier, i).len() > 0);
                    }
                }
            },
            CombinedCall::Ended { .. } => {},
            _ => {
                assert(t.inputs == s.inputs);
            },
        }
    } else {
        assert forall|i: int| 0 <= i < I::arity() implies #[trigger] t.inputs.is_done(i) == has_ended(past, i) by {}
        lemma_inputs_are_over(t.inputs, past);
        assert(!t.inputs.is_done(0));
        assert(!has_ended(past, 0));
    }
}

/// The consumer gets a snapshot exactly if an input gave an item since it last polled and
/// all inputs have given one; else the end, if the driver is gone, an input ended without
/// an item, or every input ended; and else it is to wait. The end of an input that has
/// given an item is therefore not the end of the combination.
pub proof fn law_consumer_gets_a_snapshot_of_news<I: CombineInputs, W>(
    states: Seq<CombineState<I, W>>,
    calls: Seq<CombinedCall<I, W>>,
    j: int,
)
    requires
        is_combined_run(states, calls),
        I::arity() > 0,
        0 <= j < calls.len(),
        calls[j] is Poll,
    ensures
        ({
            let past = calls.take(j);
            let outcome = calls[j]->Poll_outcome;
            if is_news(past) {
                outcome is Item && is_of_last_items(outcome->Item_0, past)
            } else if driver_gone(past) || inputs_are_over(past) {
                outcome is End
            } else {
                outcome is Pending
            }
        }),
{
    lemma_combined_history(states, calls, j);
    assert(combined_leads(states[j], calls[j], states[j + 1]));
    if calls[j]->Poll_outcome is Item {
        lemma_polled_snapshot(states, calls, j);
    }
}

/// What the driver has to do after each report: it stops exactly when an input ended
/// without an item or every input has ended; else it yields with every
/// [`WORK_BUDGET`]-th report, and else goes on. No deadline is involved.
pub proof fn law_driver_is_told_what_to_do<I: CombineInputs, W>(
    states: Seq<CombineState<I, W>>,
    calls: Seq<CombinedCall<I, W>>,
    j: int,
)
    requires
        is_combined_run(states, calls),
        I::arity() > 0,
        0 <= j < calls.len(),
        calls[j] is Input || calls[j] is Ended,
    ensures
        ({
            let past = calls.take(j + 1);
            let turn = match calls[j] {
                CombinedCall::Input { turn, .. } => turn,
                _ => calls[j]->Ended_turn,
            };
            &&& turn.timer == Timer::Keep
            &&& turn.step == (if inputs_are_over(past) {
                DriverStep::Finish
            } else if handled(past) % (WORK_BUDGET as nat) == 0 {
                DriverStep::Yield
            } else {
                DriverStep::PollSource
            })
        }),
{
    lemma_combined_history(states, calls, j);
    lemma_combined_history(states, calls, j + 1);
    assert(combined_leads(states[j], calls[j], states[j + 1]));
    lemma_whole_budgets(handled(calls.take(j)));
    assert(calls.take(j + 1).drop_last() =~= calls.take(j));
    assert(calls.take(j + 1).last() == calls[j]);
}

/// What the call means to the consumer: its own poll, or the waker that is handed out.
pub open spec fn combined_event<I: CombineInputs, W>(call: CombinedCall<I, W>) -> HotEvent<
    I::Snapshot,
    W,
> {
    match call {
        CombinedCall::Started { wake } => HotEvent::Other { wake },
        CombinedCall::Input { turn, .. } => HotEvent::Other { wake: turn.wake },
        CombinedCall::Ended { turn, .. } => HotEvent::Other { wake: turn.wake },
        CombinedCall::Closed { wake } => HotEvent::Other { wake },
        CombinedCall::Poll { waker, outcome } => HotEvent::Poll { waker, outcome },
    }
}

proof fn lemma_combined_trace<I: CombineInputs, W>(
    states: Seq<CombineState<I, W>>,
    calls: Seq<CombinedCall<I, W>>,
) -> (trace: (Seq<HotState<I::Snapshot, W>>, Seq<HotEvent<I::Snapshot, W>>))
    requires
        is_combined_run(states, calls),
        I::arity() > 0,
    ensures
        trace.0 == Seq::new(states.len(), |j: int| states[j].output),
        trace.1 == Seq::new(calls.len(), |j: int| combined_event(calls[j])),
        is_hot_trace(trace.0, trace.1),
{
    let outputs = Seq::new(states.len(), |j: int| states[j].output);
    let events = Seq::new(calls.len(), |j: int| combined_event(calls[j]));
    assert forall|j: int| 0 <= j < events.len() implies match #[trigger] events[j] {
        HotEvent::Poll { waker, outcome } => outputs[j + 1] == outputs[j].polled(waker) && outcome
            == outputs[j].poll(),
        HotEvent::Other { wake } => tells(outputs[j], wake, outputs[j + 1]),
    } by {
        assert(combined_leads(states[j], calls[j], states[j + 1]));
        lemma_combined_history(states, calls, j);
    }
    lemma_hot_trace(outputs, events);
    (outputs, events)
}

/// A consumer whose last poll found nothing is woken, with the waker of that poll, no
/// later than by the call with which there is an item for it or the stream is over.
pub proof fn law_waiting_consumer_is_woken<I: CombineInputs, W>(
    states: Seq<CombineState<I, W>>,
    calls: Seq<CombinedCall<I, W>>,
    a: int,
    b: int,
)
    requires
        is_combined_run(states, calls),
        I::arity() > 0,
        0 <= a < b < states.len(),
        calls[a] matches CombinedCall::Poll { outcome, .. } && outcome is Pending,
        forall|c: int| a < c < b ==> !(#[trigger] calls[c] is Poll),
        states[b].output.queue.len() > 0 || states[b].output.done,
    ensures
        exists|c: int|
            a < c < b && combined_event(#[trigger] calls[c]) == (HotEvent::<I::Snapshot, W>::Other {
                wake: Some(calls[a]->Poll_waker),
            }),
{
    let (outputs, events) = lemma_combined_trace(states, calls);
    let waker = calls[a]->Poll_waker;
    assert(events[a] == combined_event(calls[a]));
    assert forall|c: int| a < c < b implies #[trigger] events[c] is Other by {
        assert(!(calls[c] is Poll));
    }
    lemma_waiting_consumer_is_told(outputs, events, a, b, waker);
    let c = choose|c: int|
        a < c < b && (#[trigger] events[c] matches HotEvent::Other { wake } && wake == Some(waker));
    assert(combined_event(calls[c]) == events[c]);
}

/// Nobody is woken but a consumer whose last poll found nothing, and that once.
pub proof fn law_only_the_waiting_consumer_is_woken<I: CombineInputs, W>(
    states: Seq<CombineState<I, W>>,
    calls: Seq<CombinedCall<I, W>>,
    c: int,
    waker: W,
)
    requires
        is_combined_run(states, calls),
        I::arity() > 0,
        0 <= c < calls.len(),
        combined_event(calls[c]) == (HotEvent::<I::Snapshot, W>::Other { wake: Some(waker) }),
    ensures
        exists|a: int|
            0 <= a < c && combined_event(#[trigger] calls[a]) == (HotEvent::Poll {
                waker,
                outcome: StreamPoll::<I::Snapshot>::Pending,
            }) && forall|d: int|
                a < d < c ==> combined_event(#[trigger] calls[d]) == (HotEvent::<I::Snapshot, W>::Other {
                    wake: None,
                }),
{
    let (outputs, events) = lemma_combined_trace(states, calls);
    assert(events[c] == combined_event(calls[c]));
    lemma_told_consumer_waits(outputs, events, c, waker);
    let a = choose|a: int|
        0 <= a < c && (#[trigger] events[a] matches HotEvent::Poll { waker: w, outcome } && w
            == waker && outcome is Pending) && forall|d: int|
            a < d < c ==> (#[trigger] events[d] matches HotEvent::Other { wake: None });
    assert(combined_event(calls[a]) == events[a]);
    assert forall|d: int| a < d < c implies combined_event(#[trigger] calls[d]) == (
    HotEvent::<I::Snapshot, W>::Other { wake: None }) by {
        assert(events[d] == combined_event(calls[d]));
    }
}

} // verus!
