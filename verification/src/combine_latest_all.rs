use vstd::prelude::*;

use crate::budget::{WorkBudget, WORK_BUDGET};
use crate::driver::{
    lemma_whole_budgets, spent_after_work, step_after_work, work, DriverStep, DriverTurn, Timer,
};
use crate::hot::{
    is_hot_trace, lemma_hot_trace, lemma_told_consumer_waits, lemma_waiting_consumer_is_told, tells,
    HotChannel, HotEvent, HotState,
};
use crate::poll::StreamPoll;

verus! {

/// Every input has produced a value.
pub open spec fn all_present<T>(latest: Seq<Option<T>>) -> bool {
    forall|i: int| 0 <= i < latest.len() ==> latest[i] is Some
}

/// The snapshot holds a clone of the latest value of each input, in input order.
pub open spec fn is_snapshot<T: Clone>(latest: Seq<Option<T>>, snapshot: Seq<T>) -> bool {
    &&& snapshot.len() == latest.len()
    &&& forall|i: int|
        0 <= i < latest.len() ==> latest[i] is Some && cloned(latest[i]->0, #[trigger] snapshot[i])
}

/// Nothing more can come: some input completed without a value, or every input
/// has completed.
pub open spec fn is_over<T>(latest: Seq<Option<T>>, done: Seq<bool>) -> bool {
    ||| exists|i: int| 0 <= i < done.len() && #[trigger] done[i] && latest[i] is None
    ||| forall|i: int| 0 <= i < done.len() ==> done[i]
}

/// The mathematical state of a combination of like inputs.
#[verifier::ext_equal]
pub struct CombineIterState<T, W> {
    /// The latest value of each input.
    pub latest: Seq<Option<T>>,
    /// The inputs that have completed.
    pub done: Seq<bool>,
    /// The snapshot that the consumer has not taken.
    pub output: HotState<Vec<T>, W>,
    /// The work that the driver has done since it last yielded.
    pub spent: nat,
}

impl<T: Clone, W> CombineIterState<T, W> {
    /// At most one snapshot is retained, and it is one of the present latest
    /// values. The stream is completed when nothing more can come.
    pub open spec fn wf(self) -> bool {
        &&& self.done.len() == self.latest.len()
        &&& self.output.wf()
        &&& self.output.capacity == 1
        &&& self.output.queue.len() > 0 ==> is_snapshot(self.latest, self.output.queue[0]@)
        &&& is_over(self.latest, self.done) ==> self.output.done
        &&& self.spent < WORK_BUDGET
    }

    /// The state after an input gave an item, apart from the snapshot.
    pub open spec fn updated(self, index: int, item: T) -> Self {
        CombineIterState {
            latest: self.latest.update(index, Some(item)),
            spent: spent_after_work(self.spent),
            ..self
        }
    }

    /// What the report of an input's next item, or of its end, does.
    pub open spec fn reports(
        self,
        index: int,
        item: Option<T>,
        turn: DriverTurn<W>,
        after: Self,
    ) -> bool {
        &&& turn.timer == Timer::Keep
        &&& match item {
            Some(item) => {
                let updated = self.updated(index, item);
                &&& turn.step == step_after_work(self.spent)
                &&& if all_present(updated.latest) {
                    exists|snapshot: Vec<T>| #[trigger]
                        is_snapshot(updated.latest, snapshot@) && after == (CombineIterState {
                            output: self.output.sent(snapshot),
                            ..updated
                        }) && turn.wake == self.output.sent_wakes()
                } else {
                    after == updated && turn.wake is None
                }
            },
            None => {
                let ended = self.ended(index);
                if is_over(ended.latest, ended.done) {
                    &&& turn.step == DriverStep::Finish
                    &&& turn.wake == self.output.waker
                    &&& after == (CombineIterState { output: self.output.closed(), ..ended })
                } else {
                    &&& turn.step == step_after_work(self.spent)
                    &&& turn.wake is None
                    &&& after == (CombineIterState { spent: spent_after_work(self.spent), ..ended })
                }
            },
        }
    }

    /// The state after an input has completed, apart from what that makes of the
    /// stream. Its latest value remains.
    pub open spec fn ended(self, index: int) -> Self {
        CombineIterState { done: self.done.update(index, true), ..self }
    }
}

/// A hot, conflating combination of homogeneous input streams.
///
/// A background driver polls the inputs and reports here.
pub struct CombineLatestIterStream<T, W> {
    latest: Vec<Option<T>>,
    done: Vec<bool>,
    channel: HotChannel<Vec<T>, W>,
    budget: WorkBudget,
}

impl<T, W> View for CombineLatestIterStream<T, W> {
    type V = CombineIterState<T, W>;

    closed spec fn view(&self) -> CombineIterState<T, W> {
        CombineIterState {
            latest: self.latest@,
            done: self.done@,
            output: self.channel@,
            spent: self.budget.spent(),
        }
    }
}

/// A hot, conflating combination of this many inputs, none of which has produced
/// anything yet.
pub fn combine_latest_all<T: Clone, W>(inputs: usize) -> (stream: CombineLatestIterStream<T, W>)
    ensures
        stream@.wf(),
        stream@.latest == Seq::new(inputs as nat, |i: int| None::<T>),
        stream@.done == Seq::new(inputs as nat, |i: int| false),
        stream@.output == (HotState::<Vec<T>, W> {
            queue: Seq::empty(),
            capacity: 1,
            done: inputs == 0,
            waker: None,
            driver_started: false,
        }),
        stream@.spent == 0,
{
    CombineLatestIterStream::new(inputs)
}

impl<T: Clone, W> CombineLatestIterStream<T, W> {
    /// A combination of this many inputs. Without inputs it has completed.
    pub fn new(inputs: usize) -> (stream: Self)
        ensures
            stream@.wf(),
            stream@.latest == Seq::new(inputs as nat, |i: int| None::<T>),
            stream@.done == Seq::new(inputs as nat, |i: int| false),
            stream@.output == (HotState::<Vec<T>, W> {
                queue: Seq::empty(),
                capacity: 1,
                done: inputs == 0,
                waker: None,
                driver_started: false,
            }),
            stream@.spent == 0,
    {
        let mut latest: Vec<Option<T>> = Vec::new();
        let mut done: Vec<bool> = Vec::new();
        for i in 0..inputs
            invariant
                latest@ == Seq::new(i as nat, |j: int| None::<T>),
                done@ == Seq::new(i as nat, |j: int| false),
        {
            latest.push(None);
            done.push(false);
        }
        let mut channel: HotChannel<Vec<T>, W> = HotChannel::new(1);
        if inputs == 0 {
            let _ = channel.close();
        }
        assert(inputs > 0 ==> !done@[0]);
        CombineLatestIterStream { latest, done, channel, budget: WorkBudget::new() }
    }

    /// Notes that the driver runs, and hands out the waker to wake.
    pub fn mark_driver_started(&mut self) -> (wake: Option<W>)
        requires
            old(self)@.wf(),
        ensures
            final(self)@.wf(),
            wake == old(self)@.output.waker,
            final(self)@ == (CombineIterState {
                output: HotState { driver_started: true, waker: None, ..old(self)@.output },
                ..old(self)@
            }),
    {
        self.channel.mark_driver_started()
    }

    fn all_latest_present(&self) -> (present: bool)
        ensures
            present == all_present(self@.latest),
    {
        for i in 0..self.latest.len()
            invariant
                forall|j: int| 0 <= j < i ==> self.latest@[j] is Some,
        {
            if self.latest[i].is_none() {
                assert(self@.latest[i as int] is None);
                return false;
            }
        }
        true
    }

    fn snapshot(&self) -> (snapshot: Vec<T>)
        requires
            all_present(self@.latest),
        ensures
            is_snapshot(self@.latest, snapshot@),
    {
        let mut snapshot: Vec<T> = Vec::new();
        for i in 0..self.latest.len()
            invariant
                all_present(self@.latest),
                snapshot@.len() == i,
                forall|j: int|
                    0 <= j < i ==> cloned(self.latest@[j]->0, #[trigger] snapshot@[j]),
        {
            assert(self@.latest[i as int] is Some);
            if let Some(item) = &self.latest[i] {
                snapshot.push(item.clone());
            }
        }
        snapshot
    }

    fn all_done(&self) -> (over: bool)
        ensures
            over == forall|i: int| 0 <= i < self@.done.len() ==> self@.done[i],
    {
        for i in 0..self.done.len()
            invariant
                forall|j: int| 0 <= j < i ==> self.done@[j],
        {
            if !self.done[i] {
                assert(!self@.done[i as int]);
                return false;
            }
        }
        true
    }

    /// Reports what an unfinished input gave next: an item, or its end.
    ///
    /// An item becomes the input's latest value. Once every input has one, each
    /// item creates a new snapshot, in place of one that is not taken yet. The end
    /// of an input completes the stream if nothing more can come; otherwise the
    /// input's latest value remains.
    pub fn input_next(&mut self, index: usize, item: Option<T>) -> (turn: DriverTurn<W>)
        requires
            old(self)@.wf(),
            !old(self)@.output.done,
            index < old(self)@.latest.len(),
            !old(self)@.done[index as int],
        ensures
            final(self)@.wf(),
            old(self)@.reports(index as int, item, turn, final(self)@),
    {
        match item {
            Some(item) => {
                let mut wake: Option<W> = None;
                self.latest.set(index, Some(item));
                proof {
                    assert(!self@.done[index as int]);
                    assert forall|i: int| 0 <= i < self@.done.len() && #[trigger] self@.done[i] implies !(
                    self@.latest[i] is None) by {
                        assert(old(self)@.done[i]);
                    }
                }
                if self.all_latest_present() {
                    let snapshot = self.snapshot();
                    wake = self.channel.send(snapshot);
                } else {
                    proof {
                        if old(self)@.output.queue.len() > 0 {
                            assert forall|i: int| 0 <= i < self@.latest.len() implies self@.latest[i] is Some by {
                                assert(cloned(
                                    old(self)@.latest[i]->0,
                                    old(self)@.output.queue[0]@[i],
                                ));
                            }
                        }
                    }
                }
                let step = work(&mut self.budget);
                DriverTurn { step, timer: Timer::Keep, wake }
            },
            None => {
                self.done.set(index, true);
                if self.latest[index].is_none() || self.all_done() {
                    assert(self@.done[index as int]);
                    let wake = self.channel.close();
                    DriverTurn { step: DriverStep::Finish, timer: Timer::Keep, wake }
                } else {
                    proof {
                        assert forall|i: int| 0 <= i < self@.done.len() && #[trigger] self@.done[i] implies !(
                        self@.latest[i] is None) by {
                            if i != index {
                                assert(old(self)@.done[i]);
                            }
                        }
                    }
                    let step = work(&mut self.budget);
                    DriverTurn { step, timer: Timer::Keep, wake: None }
                }
            },
        }
    }

    /// The driver is gone, for whatever reason: completes the stream.
    pub fn close(&mut self) -> (wake: Option<W>)
        requires
            old(self)@.wf(),
        ensures
            final(self)@.wf(),
            wake == old(self)@.output.waker,
            final(self)@ == (CombineIterState { output: old(self)@.output.closed(), ..old(self)@ }),
    {
        self.channel.close()
    }

    /// The consumer's poll, with the waker of the polling task.
    pub fn poll_next(&mut self, waker: W) -> (outcome: StreamPoll<Vec<T>>)
        requires
            old(self)@.wf(),
        ensures
            final(self)@.wf(),
            final(self)@ == (CombineIterState {
                output: old(self)@.output.polled(waker),
                ..old(self)@
            }),
            outcome == old(self)@.output.poll(),
    {
        self.channel.poll_next(waker)
    }
}

/// No output exists until every input has produced a value.
pub proof fn law_no_output_before_every_value<T: Clone, W>(s: CombineIterState<T, W>)
    requires
        s.wf(),
        !all_present(s.latest),
    ensures
        !(s.output.poll() is Item),
{
    if s.output.queue.len() > 0 {
        assert forall|i: int| 0 <= i < s.latest.len() implies s.latest[i] is Some by {
            assert(cloned(s.latest[i]->0, s.output.queue[0]@[i]));
        }
    }
}

/// However many updates the consumer has missed, what it observes is a snapshot
/// of the values that are the latest when it polls.
pub proof fn law_observed_snapshot_is_current<T: Clone, W>(s: CombineIterState<T, W>)
    requires
        s.wf(),
    ensures
        s.output.poll() matches StreamPoll::Item(snapshot) ==> is_snapshot(s.latest, snapshot@),
{
}

/// One call on a combination, with what it gave.
pub enum CombineCall<T, W> {
    /// The driver runs.
    Started { wake: Option<W> },
    /// An input's next item, or its end, is reported.
    Input { index: int, item: Option<T>, turn: DriverTurn<W> },
    /// The driver is gone.
    Closed { wake: Option<W> },
    /// The consumer polls.
    Poll { waker: W, outcome: StreamPoll<Vec<T>> },
}

/// The call leads from one state to the other. Only an input that has not completed
/// reports, and only until the combination has.
pub open spec fn combine_leads<T: Clone, W>(
    s: CombineIterState<T, W>,
    call: CombineCall<T, W>,
    t: CombineIterState<T, W>,
) -> bool {
    match call {
        CombineCall::Started { wake } => {
            &&& wake == s.output.waker
            &&& t == (CombineIterState {
                output: HotState { driver_started: true, waker: None, ..s.output },
                ..s
            })
        },
        CombineCall::Input { index, item, turn } => {
            &&& !s.output.done
            &&& 0 <= index < s.latest.len()
            &&& !s.done[index]
            &&& s.reports(index, item, turn, t)
        },
        CombineCall::Closed { wake } => {
            &&& wake == s.output.waker
            &&& t == (CombineIterState { output: s.output.closed(), ..s })
        },
        CombineCall::Poll { waker, outcome } => {
            &&& outcome == s.output.poll()
            &&& t == (CombineIterState { output: s.output.polled(waker), ..s })
        },
    }
}

/// A run of calls on a new combination: each state follows from the one before it.
pub open spec fn is_combine_run<T: Clone, W>(
    states: Seq<CombineIterState<T, W>>,
    calls: Seq<CombineCall<T, W>>,
) -> bool {
    &&& states.len() == calls.len() + 1
    &&& states[0].output.queue.len() == 0
    &&& states[0].output.waker is None
    &&& states[0].output.done == (states[0].latest.len() == 0)
    &&& states[0].spent == 0
    &&& forall|i: int| 0 <= i < states[0].latest.len() ==> !#[trigger] states[0].done[i]
    &&& forall|i: int|
        0 <= i < states[0].latest.len() ==> #[trigger] states[0].latest[i] is None
    &&& forall|j: int| 0 <= j < states.len() ==> (#[trigger] states[j]).wf()
    &&& forall|j: int|
        0 <= j < calls.len() ==> combine_leads(states[j], #[trigger] calls[j], states[j + 1])
}

/// The items that input `i` gave in these calls.
pub open spec fn input_items<T, W>(calls: Seq<CombineCall<T, W>>, i: int) -> Seq<T>
    decreases calls.len(),
{
    if calls.len() == 0 {
        Seq::empty()
    } else {
        let before = input_items(calls.drop_last(), i);
        match calls.last() {
            CombineCall::Input { index, item: Some(item), .. } => if index == i {
                before.push(item)
            } else {
                before
            },
            _ => before,
        }
    }
}

/// The snapshots that the consumer took in these calls.
pub open spec fn snapshots<T, W>(calls: Seq<CombineCall<T, W>>) -> Seq<Vec<T>>
    decreases calls.len(),
{
    if calls.len() == 0 {
        Seq::empty()
    } else {
        let before = snapshots(calls.drop_last());
        match calls.last() {
            CombineCall::Poll { outcome: StreamPoll::Item(snapshot), .. } => before.push(snapshot),
            _ => before,
        }
    }
}

/// The snapshot holds a clone of the last item that each input gave in these calls.
pub open spec fn is_of_last_items<T: Clone, W>(
    snapshot: Seq<T>,
    calls: Seq<CombineCall<T, W>>,
    inputs: nat,
) -> bool {
    &&& snapshot.len() == inputs
    &&& forall|i: int|
        #![trigger snapshot[i]]
        #![trigger input_items(calls, i)]
        0 <= i < inputs ==> input_items(calls, i).len() > 0 && cloned(
            input_items(calls, i).last(),
            snapshot[i],
        )
}

proof fn lemma_combine_run<T: Clone, W>(
    states: Seq<CombineIterState<T, W>>,
    calls: Seq<CombineCall<T, W>>,
)
    requires
        is_combine_run(states, calls),
    ensures
        ({
            let t = states.last();
            let inputs = states[0].latest.len();
            &&& t.latest.len() == inputs
            &&& forall|i: int|
                0 <= i < inputs ==> #[trigger] t.latest[i] == (if input_items(calls, i).len() == 0 {
                    None
                } else {
                    Some(input_items(calls, i).last())
                })
            &&& inputs > 0 && all_present(t.latest) ==> t.output.queue.len() > 0 || (snapshots(
                calls,
            ).len() > 0 && is_snapshot(t.latest, snapshots(calls).last()@))
        }),
    decreases calls.len(),
{
    if calls.len() == 0 {
        if states[0].latest.len() > 0 {
            assert(states[0].latest[0] is None);
        }
    } else {
        let n = calls.len() - 1;
        let before = states.drop_last();
        let earlier = calls.drop_last();
        assert forall|j: int| 0 <= j < earlier.len() implies combine_leads(
            before[j],
            #[trigger] earlier[j],
            before[j + 1],
        ) by {
            assert(earlier[j] == calls[j]);
        }
        assert forall|j: int| 0 <= j < before.len() implies (#[trigger] before[j]).wf() by {
            assert(states[j].wf());
        }
        lemma_combine_run(before, earlier);
        let s = states[n];
        let t = states[n + 1];
        assert(combine_leads(s, calls[n], t));
        assert(s.wf());
        assert(t.wf());
        match calls.last() {
            CombineCall::Input { index, item, turn } => {
                match item {
                    Some(item) => {
                        assert(t.latest == s.latest.update(index, Some(item)));
                    },
                    None => {
                        assert(t.latest == s.latest);
                    },
                }
                assert forall|i: int| 0 <= i < s.latest.len() implies #[trigger] t.latest[i] == (
                if input_items(calls, i).len() == 0 {
                    None
                } else {
                    Some(input_items(calls, i).last())
                }) by {
                    assert(s.latest[i] == (if input_items(earlier, i).len() == 0 {
                        None
                    } else {
                        Some(input_items(earlier, i).last())
                    }));
                }
            },
            _ => {
                assert(t.latest == s.latest);
                assert forall|i: int| 0 <= i < s.latest.len() implies input_items(calls, i)
                    == #[trigger] input_items(earlier, i) by {}
            },
        }
    }
}

proof fn lemma_shorter_combine_run<T: Clone, W>(
    states: Seq<CombineIterState<T, W>>,
    calls: Seq<CombineCall<T, W>>,
    n: int,
)
    requires
        is_combine_run(states, calls),
        0 <= n <= calls.len(),
    ensures
        is_combine_run(states.take(n + 1), calls.take(n)),
{
    let before = states.take(n + 1);
    let earlier = calls.take(n);
    assert forall|j: int| 0 <= j < earlier.len() implies combine_leads(
        before[j],
        #[trigger] earlier[j],
        before[j + 1],
    ) by {
        assert(earlier[j] == calls[j]);
    }
    assert forall|j: int| 0 <= j < before.len() implies (#[trigger] before[j]).wf() by {
        assert(states[j].wf());
    }
}

proof fn lemma_of_last_items<T: Clone, W>(
    states: Seq<CombineIterState<T, W>>,
    calls: Seq<CombineCall<T, W>>,
    snapshot: Seq<T>,
)
    requires
        is_combine_run(states, calls),
        is_snapshot(states.last().latest, snapshot),
    ensures
        is_of_last_items(snapshot, calls, states[0].latest.len()),
{
    lemma_combine_run(states, calls);
    let latest = states.last().latest;
    let inputs = states[0].latest.len();
    assert(latest.len() == inputs);
    assert forall|i: int|
        #![trigger snapshot[i]]
        #![trigger input_items(calls, i)]
        0 <= i < inputs implies input_items(calls, i).len() > 0 && cloned(
        input_items(calls, i).last(),
        snapshot[i],
    ) by {
        assert(cloned(latest[i]->0, snapshot[i]));
        assert(latest[i] is Some);
    }
    assert(snapshot.len() == inputs);
}

proof fn lemma_items_grow<T, W>(calls: Seq<CombineCall<T, W>>, a: int, b: int, i: int)
    requires
        0 <= a <= b <= calls.len(),
    ensures
        input_items(calls.take(a), i).is_prefix_of(input_items(calls.take(b), i)),
    decreases b - a,
{
    if a < b {
        lemma_items_grow(calls, a, b - 1, i);
        assert(calls.take(b).drop_last() =~= calls.take(b - 1));
    }
}

/// Every snapshot that the consumer takes holds one value per input: a clone of the
/// last item that this input had given when the consumer polled. From one snapshot to a
/// later one, that item's place among the input's items never moves back.
pub proof fn law_snapshots_never_move_back<T: Clone, W>(
    states: Seq<CombineIterState<T, W>>,
    calls: Seq<CombineCall<T, W>>,
    a: int,
    b: int,
    i: int,
)
    requires
        is_combine_run(states, calls),
        0 <= a <= b < calls.len(),
        calls[a] matches CombineCall::Poll { outcome, .. } && outcome is Item,
        calls[b] matches CombineCall::Poll { outcome, .. } && outcome is Item,
        0 <= i < states[0].latest.len(),
    ensures
        is_of_last_items(
            calls[a]->outcome->Item_0@,
            calls.take(a),
            states[0].latest.len(),
        ),
        is_of_last_items(
            calls[b]->outcome->Item_0@,
            calls.take(b),
            states[0].latest.len(),
        ),
        input_items(calls.take(a), i).is_prefix_of(input_items(calls.take(b), i)),
        input_items(calls.take(b), i).is_prefix_of(input_items(calls, i)),
{
    lemma_polled_snapshot(states, calls, a);
    lemma_polled_snapshot(states, calls, b);
    lemma_items_grow(calls, a, b, i);
    lemma_items_grow(calls, b, calls.len() as int, i);
    assert(calls.take(calls.len() as int) =~= calls);
}

proof fn lemma_polled_snapshot<T: Clone, W>(
    states: Seq<CombineIterState<T, W>>,
    calls: Seq<CombineCall<T, W>>,
    a: int,
)
    requires
        is_combine_run(states, calls),
        0 <= a < calls.len(),
        calls[a] matches CombineCall::Poll { outcome, .. } && outcome is Item,
    ensures
        is_of_last_items(
            calls[a]->outcome->Item_0@,
            calls.take(a),
            states[0].latest.len(),
        ),
{
    assert(combine_leads(states[a], calls[a], states[a + 1]));
    assert(states[a].wf());
    lemma_shorter_combine_run(states, calls, a);
    let upto = states.take(a + 1);
    assert(upto.last() == states[a]);
    lemma_of_last_items(upto, calls.take(a), calls[a]->outcome->Item_0@);
}

/// A consumer that polls a combination to its end, every input of which has given an
/// item, takes at least one snapshot, and the last one is of the last items.
pub proof fn law_last_snapshot_is_of_last_items<T: Clone, W>(
    states: Seq<CombineIterState<T, W>>,
    calls: Seq<CombineCall<T, W>>,
)
    requires
        is_combine_run(states, calls),
        states[0].latest.len() > 0,
        states.last().output.poll() is End,
        forall|i: int|
            0 <= i < states[0].latest.len() ==> (#[trigger] input_items(calls, i)).len() > 0,
    ensures
        snapshots(calls).len() > 0,
        is_of_last_items(snapshots(calls).last()@, calls, states[0].latest.len()),
{
    lemma_combine_run(states, calls);
    let latest = states.last().latest;
    assert forall|i: int| 0 <= i < latest.len() implies latest[i] is Some by {
        assert(input_items(calls, i).len() > 0);
    }
    lemma_of_last_items(states, calls, snapshots(calls).last()@);
}

/// Every call on a combination is one of its run.
pub proof fn law_combination_calls_are_run_calls<T: Clone, W>()
    ensures
        forall|inputs: usize, stream: CombineLatestIterStream<T, W>| #[trigger]
            call_ensures(combine_latest_all::<T, W>, (inputs,), stream) ==> stream@.latest.len()
                == inputs && is_combine_run(seq![stream@], Seq::<CombineCall<T, W>>::empty()),
        forall|inputs: usize, stream: CombineLatestIterStream<T, W>| #[trigger]
            call_ensures(CombineLatestIterStream::<T, W>::new, (inputs,), stream)
                ==> stream@.latest.len() == inputs && is_combine_run(
                seq![stream@],
                Seq::<CombineCall<T, W>>::empty(),
            ),
        forall|s: &mut CombineLatestIterStream<T, W>, wake: Option<W>| #[trigger]
            call_ensures(CombineLatestIterStream::<T, W>::mark_driver_started, (s,), wake)
                ==> combine_leads(s@, CombineCall::Started { wake }, final(s)@),
        forall|
            s: &mut CombineLatestIterStream<T, W>,
            index: usize,
            item: Option<T>,
            turn: DriverTurn<W>,
        | #[trigger]
            call_ensures(CombineLatestIterStream::<T, W>::input_next, (s, index, item), turn)
                && !s@.output.done && index < s@.latest.len() && !s@.done[index as int]
                ==> combine_leads(
                s@,
                CombineCall::Input { index: index as int, item, turn },
                final(s)@,
            ),
        forall|s: &mut CombineLatestIterStream<T, W>, wake: Option<W>| #[trigger]
            call_ensures(CombineLatestIterStream::<T, W>::close, (s,), wake) ==> combine_leads(
                s@,
                CombineCall::Closed { wake },
                final(s)@,
            ),
        forall|s: &mut CombineLatestIterStream<T, W>, waker: W, outcome: StreamPoll<Vec<T>>| #[trigger]
            call_ensures(CombineLatestIterStream::<T, W>::poll_next, (s, waker), outcome)
                ==> combine_leads(s@, CombineCall::Poll { waker, outcome }, final(s)@),
{
}

/// The end of this input was reported in these calls.
pub open spec fn has_ended<T, W>(calls: Seq<CombineCall<T, W>>, i: int) -> bool
    decreases calls.len(),
{
    calls.len() > 0 && (has_ended(calls.drop_last(), i) || (
    calls.last() matches CombineCall::Input { index, item: None, .. } && index == i))
}

/// The driver has gone in these calls.
pub open spec fn driver_gone<T, W>(calls: Seq<CombineCall<T, W>>) -> bool
    decreases calls.len(),
{
    calls.len() > 0 && (driver_gone(calls.drop_last()) || calls.last() is Closed)
}

/// Some of this many inputs has ended without an item, or all of them have ended.
pub open spec fn inputs_are_over<T, W>(calls: Seq<CombineCall<T, W>>, inputs: nat) -> bool {
    ||| exists|i: int|
        0 <= i < inputs && #[trigger] has_ended(calls, i) && input_items(calls, i).len() == 0
    ||| forall|i: int| 0 <= i < inputs ==> #[trigger] has_ended(calls, i)
}

/// An input gave an item since the consumer last polled, and by then all had given one.
pub open spec fn is_news<T, W>(calls: Seq<CombineCall<T, W>>, inputs: nat) -> bool
    decreases calls.len(),
{
    if calls.len() == 0 {
        false
    } else {
        match calls.last() {
            CombineCall::Input { item: Some(_), .. } => forall|i: int|
                0 <= i < inputs ==> (#[trigger] input_items(calls, i)).len() > 0,
            CombineCall::Poll { .. } => false,
            _ => is_news(calls.drop_last(), inputs),
        }
    }
}

/// How many items and ends of inputs the driver has reported.
pub open spec fn handled<T, W>(calls: Seq<CombineCall<T, W>>) -> nat
    decreases calls.len(),
{
    if calls.len() == 0 {
        0
    } else if calls.last() is Input {
        handled(calls.drop_last()) + 1
    } else {
        handled(calls.drop_last())
    }
}

proof fn lemma_combine_history<T: Clone, W>(
    states: Seq<CombineIterState<T, W>>,
    calls: Seq<CombineCall<T, W>>,
    n: int,
)
    requires
        is_combine_run(states, calls),
        0 <= n <= calls.len(),
    ensures
        ({
            let past = calls.take(n);
            let inputs = states[0].latest.len();
            let t = states[n];
            &&& t.wf()
            &&& t.latest.len() == inputs
            &&& forall|i: int|
                0 <= i < inputs ==> (#[trigger] t.latest[i] is Some <==> input_items(past, i).len()
                    > 0)
            &&& forall|i: int| 0 <= i < inputs ==> #[trigger] t.done[i] == has_ended(past, i)
            &&& all_present(t.latest) <==> forall|i: int|
                0 <= i < inputs ==> (#[trigger] input_items(past, i)).len() > 0
            &&& is_over(t.latest, t.done) == inputs_are_over(past, inputs)
            &&& t.output.done <==> driver_gone(past) || inputs_are_over(past, inputs)
            &&& t.output.queue.len() > 0 <==> is_news(past, inputs)
            &&& !t.output.done ==> t.spent == handled(past) % (WORK_BUDGET as nat)
        }),
    decreases n,
{
    let past = calls.take(n);
    let inputs = states[0].latest.len();
    let t = states[n];
    lemma_shorter_combine_run(states, calls, n);
    assert(states.take(n + 1).last() == t);
    lemma_combine_run(states.take(n + 1), past);
    assert(t.wf());
    assert forall|i: int| 0 <= i < inputs implies (#[trigger] t.latest[i] is Some <==> input_items(
        past,
        i,
    ).len() > 0) by {}
    assert(all_present(t.latest) <==> forall|i: int|
        0 <= i < inputs ==> (#[trigger] input_items(past, i)).len() > 0) by {
        if all_present(t.latest) {
            assert forall|i: int| 0 <= i < inputs implies (#[trigger] input_items(past, i)).len() > 0 by {
                assert(t.latest[i] is Some);
            }
        }
        if forall|i: int| 0 <= i < inputs ==> (#[trigger] input_items(past, i)).len() > 0 {
            assert forall|i: int| 0 <= i < t.latest.len() implies t.latest[i] is Some by {
                assert(input_items(past, i).len() > 0);
            }
        }
    }
    if n > 0 {
        lemma_combine_history(states, calls, n - 1);
        assert(past.drop_last() =~= calls.take(n - 1));
        assert(past.last() == calls[n - 1]);
        let s = states[n - 1];
        assert(combine_leads(s, calls[n - 1], t));
        lemma_whole_budgets(handled(calls.take(n - 1)));
        assert forall|i: int| 0 <= i < inputs implies #[trigger] t.done[i] == has_ended(past, i) by {
            assert(s.done[i] == has_ended(calls.take(n - 1), i));
        }
    } else {
        assert forall|i: int| 0 <= i < inputs implies #[trigger] t.done[i] == has_ended(past, i) by {}
        if inputs > 0 {
            assert(!t.done[0]);
            assert(!has_ended(past, 0));
        }
    }
    assert(is_over(t.latest, t.done) == inputs_are_over(past, inputs)) by {
        if is_over(t.latest, t.done) {
            if exists|i: int| 0 <= i < t.done.len() && #[trigger] t.done[i] && t.latest[i] is None {
                let i = choose|i: int|
                    0 <= i < t.done.len() && #[trigger] t.done[i] && t.latest[i] is None;
                assert(has_ended(past, i) && input_items(past, i).len() == 0);
            } else {
                assert forall|i: int| 0 <= i < inputs implies #[trigger] has_ended(past, i) by {
                    assert(t.done[i]);
                }
            }
        }
        if inputs_are_over(past, inputs) {
            if exists|i: int|
                0 <= i < inputs && #[trigger] has_ended(past, i) && input_items(past, i).len() == 0 {
                let i = choose|i: int|
                    0 <= i < inputs && #[trigger] has_ended(past, i) && input_items(past, i).len()
                        == 0;
                assert(t.done[i] && t.latest[i] is None);
            } else {
                assert forall|i: int| 0 <= i < t.done.len() implies t.done[i] by {
                    assert(has_ended(past, i));
                }
            }
        }
    }
    if n > 0 {
        let earlier = calls.take(n - 1);
        let s = states[n - 1];
        if let CombineCall::Input { index, item, .. } = calls[n - 1] {
            if item is Some {
                assert(!s.done[index]);
                assert(!has_ended(past, index));
                assert forall|i: int| 0 <= i < inputs && #[trigger] has_ended(past, i) implies input_items(past, i).len() > 0 by {
                    assert(has_ended(earlier, i));
                    assert(!inputs_are_over(earlier, inputs));
                    assert(input_items(earlier, i).len() > 0);
                }
                assert(!inputs_are_over(past, inputs));
                if !all_present(t.latest) && is_news(earlier, inputs) {
                    assert forall|i: int| 0 <= i < t.latest.len() implies t.latest[i] is Some by {
                        assert(cloned(s.latest[i]->0, s.output.queue[0]@[i]));
                        assert(s.latest[i] is Some);
                    }
                }
            }
        } else {
            assert forall|i: int| 0 <= i < inputs implies #[trigger] has_ended(past, i) == has_ended(
                earlier,
                i,
            ) && input_items(past, i) == input_items(earlier, i) by {}
            assert(inputs_are_over(past, inputs) == inputs_are_over(earlier, inputs)) by {
                if inputs_are_over(earlier, inputs) {
                    if exists|i: int|
                        0 <= i < inputs && #[trigger] has_ended(earlier, i) && input_items(
                            earlier,
                            i,
                        ).len() == 0 {
                        let i = choose|i: int|
                            0 <= i < inputs && #[trigger] has_ended(earlier, i) && input_items(
                                earlier,
                                i,
                            ).len() == 0;
                        assert(has_ended(past, i) && input_items(past, i).len() == 0);
                    } else {
                        assert forall|i: int| 0 <= i < inputs implies #[trigger] has_ended(past, i) by {
                            assert(has_ended(earlier, i));
                        }
                    }
                }
                if inputs_are_over(past, inputs) {
                    if exists|i: int|
                        0 <= i < inputs && #[trigger] has_ended(past, i) && input_items(
                            past,
                            i,
                        ).len() == 0 {
                        let i = choose|i: int|
                            0 <= i < inputs && #[trigger] has_ended(past, i) && input_items(
                                past,
                                i,
                            ).len() == 0;
                        assert(has_ended(earlier, i) && input_items(earlier, i).len() == 0);
                    } else {
                        assert forall|i: int| 0 <= i < inputs implies #[trigger] has_ended(earlier, i) by {
                            assert(has_ended(past, i));
                        }
                    }
                }
            }
        }
    }
}

/// The consumer gets a snapshot exactly if an input gave an item since it last polled and
/// all inputs have given one; else the end, if the driver is gone, an input ended without
/// an item, or every input ended; and else it is to wait.
pub proof fn law_consumer_gets_a_snapshot_of_news<T: Clone, W>(
    states: Seq<CombineIterState<T, W>>,
    calls: Seq<CombineCall<T, W>>,
    j: int,
)
    requires
        is_combine_run(states, calls),
        0 <= j < calls.len(),
        calls[j] is Poll,
    ensures
        ({
            let past = calls.take(j);
            let inputs = states[0].latest.len();
            let outcome = calls[j]->Poll_outcome;
            if is_news(past, inputs) {
                outcome is Item && is_of_last_items(outcome->Item_0@, past, inputs)
            } else if driver_gone(past) || inputs_are_over(past, inputs) {
                outcome is End
            } else {
                outcome is Pending
            }
        }),
{
    lemma_combine_history(states, calls, j);
    assert(combine_leads(states[j], calls[j], states[j + 1]));
    if calls[j]->Poll_outcome is Item {
        lemma_polled_snapshot(states, calls, j);
    }
}

/// What the driver has to do after each report: it stops exactly when an input ended
/// without an item or every input has ended; else it yields with every
/// [`WORK_BUDGET`]-th report, and else goes on. No deadline is involved.
pub proof fn law_driver_is_told_what_to_do<T: Clone, W>(
    states: Seq<CombineIterState<T, W>>,
    calls: Seq<CombineCall<T, W>>,
    j: int,
)
    requires
        is_combine_run(states, calls),
        0 <= j < calls.len(),
    ensures
        calls[j] matches CombineCall::Input { turn, .. } ==> {
            let past = calls.take(j + 1);
            &&& turn.timer == Timer::Keep
            &&& turn.step == (if inputs_are_over(past, states[0].latest.len()) {
                DriverStep::Finish
            } else if handled(past) % (WORK_BUDGET as nat) == 0 {
                DriverStep::Yield
            } else {
                DriverStep::PollSource
            })
        },
{
    lemma_combine_history(states, calls, j);
    lemma_combine_history(states, calls, j + 1);
    assert(combine_leads(states[j], calls[j], states[j + 1]));
    lemma_whole_budgets(handled(calls.take(j)));
    assert(calls.take(j + 1).drop_last() =~= calls.take(j));
    assert(calls.take(j + 1).last() == calls[j]);
}

/// What the call means to the consumer: its own poll, or the waker that is handed out.
pub open spec fn combine_event<T, W>(call: CombineCall<T, W>) -> HotEvent<Vec<T>, W> {
    match call {
        CombineCall::Started { wake } => HotEvent::Other { wake },
        CombineCall::Input { turn, .. } => HotEvent::Other { wake: turn.wake },
        CombineCall::Closed { wake } => HotEvent::Other { wake },
        CombineCall::Poll { waker, outcome } => HotEvent::Poll { waker, outcome },
    }
}

proof fn lemma_combine_trace<T: Clone, W>(
    states: Seq<CombineIterState<T, W>>,
    calls: Seq<CombineCall<T, W>>,
) -> (trace: (Seq<HotState<Vec<T>, W>>, Seq<HotEvent<Vec<T>, W>>))
    requires
        is_combine_run(states, calls),
    ensures
        trace.0 == Seq::new(states.len(), |j: int| states[j].output),
        trace.1 == Seq::new(calls.len(), |j: int| combine_event(calls[j])),
        is_hot_trace(trace.0, trace.1),
{
    let outputs = Seq::new(states.len(), |j: int| states[j].output);
    let events = Seq::new(calls.len(), |j: int| combine_event(calls[j]));
    assert forall|j: int| 0 <= j < events.len() implies match #[trigger] events[j] {
        HotEvent::Poll { waker, outcome } => outputs[j + 1] == outputs[j].polled(waker) && outcome
            == outputs[j].poll(),
        HotEvent::Other { wake } => tells(outputs[j], wake, outputs[j + 1]),
    } by {
        assert(combine_leads(states[j], calls[j], states[j + 1]));
        lemma_combine_history(states, calls, j);
    }
    lemma_hot_trace(outputs, events);
    (outputs, events)
}

/// A consumer whose last poll found nothing is woken, with the waker of that poll, no
/// later than by the call with which there is an item for it or the stream is over.
pub proof fn law_waiting_consumer_is_woken<T: Clone, W>(
    states: Seq<CombineIterState<T, W>>,
    calls: Seq<CombineCall<T, W>>,
    a: int,
    b: int,
)
    requires
        is_combine_run(states, calls),
        0 <= a < b < states.len(),
        calls[a] matches CombineCall::Poll { outcome, .. } && outcome is Pending,
        forall|c: int| a < c < b ==> !(#[trigger] calls[c] is Poll),
        states[b].output.queue.len() > 0 || states[b].output.done,
    ensures
        exists|c: int|
            a < c < b && combine_event(#[trigger] calls[c]) == (HotEvent::<Vec<T>, W>::Other {
                wake: Some(calls[a]->Poll_waker),
            }),
{
    let (outputs, events) = lemma_combine_trace(states, calls);
    let waker = calls[a]->Poll_waker;
    assert(events[a] == combine_event(calls[a]));
    assert forall|c: int| a < c < b implies #[trigger] events[c] is Other by {
        assert(!(calls[c] is Poll));
    }
    lemma_waiting_consumer_is_told(outputs, events, a, b, waker);
    let c = choose|c: int|
        a < c < b && (#[trigger] events[c] matches HotEvent::Other { wake } && wake == Some(waker));
    assert(combine_event(calls[c]) == events[c]);
}

/// Nobody is woken but a consumer whose last poll found nothing, and that once.
pub proof fn law_only_the_waiting_consumer_is_woken<T: Clone, W>(
    states: Seq<CombineIterState<T, W>>,
    calls: Seq<CombineCall<T, W>>,
    c: int,
    waker: W,
)
    requires
        is_combine_run(states, calls),
        0 <= c < calls.len(),
        combine_event(calls[c]) == (HotEvent::<Vec<T>, W>::Other { wake: Some(waker) }),
    ensures
        exists|a: int|
            0 <= a < c && combine_event(#[trigger] calls[a]) == (HotEvent::Poll {
                waker,
                outcome: StreamPoll::<Vec<T>>::Pending,
            }) && forall|d: int|
                a < d < c ==> combine_event(#[trigger] calls[d]) == (HotEvent::<Vec<T>, W>::Other {
                    wake: None,
                }),
{
    let (outputs, events) = lemma_combine_trace(states, calls);
    assert(events[c] == combine_event(calls[c]));
    lemma_told_consumer_waits(outputs, events, c, waker);
    let a = choose|a: int|
        0 <= a < c && (#[trigger] events[a] matches HotEvent::Poll { waker: w, outcome } && w
            == waker && outcome is Pending) && forall|d: int|
            a < d < c ==> (#[trigger] events[d] matches HotEvent::Other { wake: None });
    assert(combine_event(calls[a]) == events[a]);
    assert forall|d: int| a < d < c implies combine_event(#[trigger] calls[d]) == (
    HotEvent::<Vec<T>, W>::Other { wake: None }) by {
        assert(events[d] == combine_event(calls[d]));
    }
}

} // verus!
