use vstd::prelude::*;

use crate::budget::WORK_BUDGET;
use crate::poll::StreamPoll;

verus! {

/// The mathematical state of a filter of consecutive duplicates.
pub struct DistinctState<T> {
    /// The item that was emitted last.
    pub previous: Option<T>,
    /// The items that the running poll has discarded.
    pub discarded: nat,
}

impl<T> DistinctState<T> {
    pub open spec fn wf(self) -> bool {
        self.discarded < WORK_BUDGET
    }

    /// The state after a new value is emitted, of which this is kept.
    pub open spec fn emitted(self, kept: T) -> Self {
        DistinctState { previous: Some(kept), discarded: 0 }
    }

    /// The state after a duplicate is discarded.
    pub open spec fn skipped(self) -> Self {
        DistinctState {
            discarded: if self.discarded + 1 == WORK_BUDGET {
                0
            } else {
                self.discarded + 1
            },
            ..self
        }
    }

    /// What a duplicate leads to: the next item is asked for, until the work
    /// budget of the poll is used up.
    pub open spec fn skip_step(self) -> DistinctStep<T> {
        if self.discarded + 1 == WORK_BUDGET {
            DistinctStep::Yield
        } else {
            DistinctStep::PollSource
        }
    }
}

/// What a poll of a filter of duplicates has to do next.
pub enum DistinctStep<T> {
    /// Poll the source and report the outcome.
    PollSource,
    /// Return this item.
    Emit(T),
    /// Wake the polling task and return pending.
    Yield,
    /// Return pending.
    Pending,
    /// Return the end.
    End,
}

/// The item passes: it is returned, and a clone of it is kept.
pub open spec fn passes<T: Clone>(
    before: DistinctState<T>,
    item: T,
    after: DistinctState<T>,
    step: DistinctStep<T>,
) -> bool {
    &&& step == DistinctStep::Emit(item)
    &&& exists|kept: T| #[trigger] cloned(item, kept) && after == before.emitted(kept)
}

/// The item is discarded.
pub open spec fn is_skipped<T>(
    before: DistinctState<T>,
    after: DistinctState<T>,
    step: DistinctStep<T>,
) -> bool {
    &&& step == before.skip_step()
    &&& after == before.skipped()
}

/// What the source's silence or end leads to.
pub open spec fn passes_on<T>(
    before: DistinctState<T>,
    outcome: StreamPoll<T>,
    after: DistinctState<T>,
    step: DistinctStep<T>,
) -> bool {
    &&& after == (DistinctState { discarded: 0, ..before })
    &&& step == (if outcome is End {
        DistinctStep::<T>::End
    } else {
        DistinctStep::Pending
    })
}

/// One report to a filter: what the source gave, what the comparison said of it, if
/// it was asked, and what is to be done.
pub struct DistinctCall<T> {
    pub outcome: StreamPoll<T>,
    pub equal: Option<bool>,
    pub step: DistinctStep<T>,
}

/// The report leads from one state to the other. The comparison is asked once for each
/// item but the first, on the item that is kept and the new one, and only if it holds
/// them equal is the new one discarded.
pub open spec fn distinct_leads<T: Clone, F: FnMut(&T, &T) -> bool>(
    before: DistinctState<T>,
    compare: F,
    call: DistinctCall<T>,
    after: DistinctState<T>,
) -> bool {
    match call.outcome {
        StreamPoll::Item(item) => match before.previous {
            Some(previous) => {
                &&& call.equal matches Some(equal)
                &&& call_ensures(compare, (&previous, &item), equal)
                &&& if equal {
                    is_skipped(before, after, call.step)
                } else {
                    passes(before, item, after, call.step)
                }
            },
            None => call.equal is None && passes(before, item, after, call.step),
        },
        _ => call.equal is None && passes_on(before, call.outcome, after, call.step),
    }
}

/// The part of a filter of duplicates that does not compare.
struct Filter<T> {
    previous: Option<T>,
    discarded: usize,
}

impl<T: Clone> Filter<T> {
    spec fn state(&self) -> DistinctState<T> {
        DistinctState { previous: self.previous, discarded: self.discarded as nat }
    }

    fn new() -> (filter: Self)
        ensures
            filter.state() == (DistinctState::<T> { previous: None, discarded: 0 }),
    {
        Filter { previous: None, discarded: 0 }
    }

    fn offer(&mut self, item: T, duplicate: bool) -> (step: DistinctStep<T>)
        requires
            old(self).state().wf(),
        ensures
            final(self).state().wf(),
            duplicate ==> is_skipped(old(self).state(), final(self).state(), step),
            !duplicate ==> passes(old(self).state(), item, final(self).state(), step),
    {
        if duplicate {
            self.discarded = self.discarded + 1;
            if self.discarded == WORK_BUDGET {
                self.discarded = 0;
                DistinctStep::Yield
            } else {
                DistinctStep::PollSource
            }
        } else {
            let kept = item.clone();
            assert(cloned(item, kept));
            self.previous = Some(kept);
            self.discarded = 0;
            DistinctStep::Emit(item)
        }
    }

    fn pass_on(&mut self, outcome: StreamPoll<T>) -> (step: DistinctStep<T>)
        requires
            !(outcome is Item),
        ensures
            final(self).state().wf(),
            passes_on(old(self).state(), outcome, final(self).state(), step),
    {
        self.discarded = 0;
        match outcome {
            StreamPoll::End => DistinctStep::End,
            _ => DistinctStep::Pending,
        }
    }
}

/// A stream that only emits values when they differ from the previous value.
///
/// This stream filters out consecutive duplicate values, only yielding items
/// when they are different from the immediately preceding item.
pub struct DistinctUntilChangedStream<T> {
    filter: Filter<T>,
}

impl<T: Clone> View for DistinctUntilChangedStream<T> {
    type V = DistinctState<T>;

    closed spec fn view(&self) -> DistinctState<T> {
        self.filter.state()
    }
}

/// A filter of consecutive equal items that has seen none yet.
pub fn distinct_until_changed<T: PartialEq + Clone>() -> (stream: DistinctUntilChangedStream<T>)
    ensures
        stream@.wf(),
        stream@ == (DistinctState::<T> { previous: None, discarded: 0 }),
{
    DistinctUntilChangedStream { filter: Filter::new() }
}

impl<T: PartialEq + Clone> DistinctUntilChangedStream<T> {
    /// Reports what the poll of the source gave.
    ///
    /// The first item is emitted. A later one is emitted unless it equals the one
    /// that was emitted last.
    pub fn source_polled(&mut self, outcome: StreamPoll<T>) -> (step: DistinctStep<T>)
        requires
            old(self)@.wf(),
        ensures
            final(self)@.wf(),
            exists|equal: Option<bool>| #[trigger]
                distinct_leads(
                    old(self)@,
                    T::eq,
                    DistinctCall { outcome, equal, step },
                    final(self)@,
                ),
    {
        let ghost mut equal: Option<bool> = None;
        let step = match outcome {
            StreamPoll::Item(item) => {
                let duplicate = match &self.filter.previous {
                    Some(previous) => previous.eq(&item),
                    None => false,
                };
                proof {
                    if old(self)@.previous is Some {
                        equal = Some(duplicate);
                    }
                }
                self.filter.offer(item, duplicate)
            },
            other => self.filter.pass_on(other),
        };
        assert(distinct_leads(
            old(self)@,
            T::eq,
            DistinctCall { outcome, equal, step },
            self@,
        ));
        step
    }
}

/// A stream that only emits values when they differ from the previous value,
/// using a custom comparison function.
pub struct DistinctUntilChangedByStream<T, F> {
    filter: Filter<T>,
    compare: F,
}

impl<T: Clone, F> View for DistinctUntilChangedByStream<T, F> {
    type V = DistinctState<T>;

    closed spec fn view(&self) -> DistinctState<T> {
        self.filter.state()
    }
}

/// A filter of consecutive items that `compare` holds for equal, which has seen
/// none yet.
pub fn distinct_until_changed_by<T: Clone, F: FnMut(&T, &T) -> bool>(compare: F) -> (stream:
    DistinctUntilChangedByStream<T, F>)
    ensures
        stream@.wf(),
        stream@ == (DistinctState::<T> { previous: None, discarded: 0 }),
        stream.comparison() == compare,
{
    DistinctUntilChangedByStream { filter: Filter::new(), compare }
}

impl<T: Clone, F: FnMut(&T, &T) -> bool> DistinctUntilChangedByStream<T, F> {
    /// The comparison that the filter was made with.
    pub closed spec fn comparison(&self) -> F {
        self.compare
    }

    /// Reports what the poll of the source gave.
    ///
    /// The first item is emitted without a comparison. A later one is emitted
    /// unless the comparison holds it equal to the one that was emitted last.
    pub fn source_polled(&mut self, outcome: StreamPoll<T>) -> (step: DistinctStep<T>)
        requires
            old(self)@.wf(),
            outcome is Item && old(self)@.previous is Some ==> call_requires(
                old(self).comparison(),
                (&old(self)@.previous->0, &outcome->Item_0),
            ),
        ensures
            final(self)@.wf(),
            final(self).comparison() == old(self).comparison(),
            exists|equal: Option<bool>| #[trigger]
                distinct_leads(
                    old(self)@,
                    old(self).comparison(),
                    DistinctCall { outcome, equal, step },
                    final(self)@,
                ),
    {
        let ghost mut equal: Option<bool> = None;
        let step = match outcome {
            StreamPoll::Item(item) => {
                let duplicate = match &self.filter.previous {
                    Some(previous) => (self.compare)(previous, &item),
                    None => false,
                };
                proof {
                    if old(self)@.previous is Some {
                        equal = Some(duplicate);
                    }
                }
                self.filter.offer(item, duplicate)
            },
            other => self.filter.pass_on(other),
        };
        assert(distinct_leads(
            old(self)@,
            old(self).comparison(),
            DistinctCall { outcome, equal, step },
            self@,
        ));
        step
    }
}

/// A run of reports to a new filter: each state follows from the one before it.
pub open spec fn is_distinct_run<T: Clone, F: FnMut(&T, &T) -> bool>(
    states: Seq<DistinctState<T>>,
    compare: F,
    calls: Seq<DistinctCall<T>>,
) -> bool {
    &&& states.len() == calls.len() + 1
    &&& states[0] == (DistinctState::<T> { previous: None, discarded: 0 })
    &&& forall|j: int|
        0 <= j < calls.len() ==> distinct_leads(
            states[j],
            compare,
            #[trigger] calls[j],
            states[j + 1],
        )
}

/// The items that the reports made the filter emit.
pub open spec fn emitted_by<T>(calls: Seq<DistinctCall<T>>) -> Seq<T>
    decreases calls.len(),
{
    if calls.len() == 0 {
        Seq::empty()
    } else {
        let before = emitted_by(calls.drop_last());
        match calls.last().step {
            DistinctStep::Emit(item) => before.push(item),
            _ => before,
        }
    }
}

proof fn lemma_kept_item_is_the_last_emission<T: Clone, F: FnMut(&T, &T) -> bool>(
    states: Seq<DistinctState<T>>,
    compare: F,
    calls: Seq<DistinctCall<T>>,
    j: int,
)
    requires
        is_distinct_run(states, compare, calls),
        0 <= j <= calls.len(),
    ensures
        states[j].previous is None <==> emitted_by(calls.take(j)).len() == 0,
        states[j].previous is Some ==> cloned(
            emitted_by(calls.take(j)).last(),
            states[j].previous->0,
        ),
    decreases j,
{
    if j > 0 {
        lemma_kept_item_is_the_last_emission(states, compare, calls, j - 1);
        assert(distinct_leads(states[j - 1], compare, calls[j - 1], states[j]));
        assert(calls.take(j).drop_last() =~= calls.take(j - 1));
        assert(calls.take(j).last() == calls[j - 1]);
    } else {
        assert(calls.take(0) =~= Seq::empty());
    }
}

/// The first item is emitted and compared with nothing. Every later item is compared
/// once, with a clone of the item that was emitted last, and emitted if and only if the
/// two are not held equal.
pub proof fn law_item_is_compared_with_the_last_emission<T: Clone, F: FnMut(&T, &T) -> bool>(
    states: Seq<DistinctState<T>>,
    compare: F,
    calls: Seq<DistinctCall<T>>,
    j: int,
)
    requires
        is_distinct_run(states, compare, calls),
        0 <= j < calls.len(),
        calls[j].outcome is Item,
    ensures
        match calls[j].equal {
            None => {
                &&& emitted_by(calls.take(j)).len() == 0
                &&& calls[j].step == DistinctStep::Emit(calls[j].outcome->Item_0)
            },
            Some(equal) => {
                &&& emitted_by(calls.take(j)).len() > 0
                &&& exists|kept: T| #[trigger]
                    cloned(emitted_by(calls.take(j)).last(), kept) && call_ensures(
                        compare,
                        (&kept, &calls[j].outcome->Item_0),
                        equal,
                    )
                &&& equal ==> !(calls[j].step is Emit)
                &&& !equal ==> calls[j].step == DistinctStep::Emit(calls[j].outcome->Item_0)
            },
        },
{
    lemma_kept_item_is_the_last_emission(states, compare, calls, j);
    assert(distinct_leads(states[j], compare, calls[j], states[j + 1]));
}

/// The state of a new filter after these items, where a clone is the item itself.
pub open spec fn distinct_after<T>(items: Seq<T>, same: spec_fn(T, T) -> bool) -> DistinctState<T>
    decreases items.len(),
{
    if items.len() == 0 {
        DistinctState { previous: None, discarded: 0 }
    } else {
        let before = distinct_after(items.drop_last(), same);
        if before.previous is Some && same(before.previous->0, items.last()) {
            before.skipped()
        } else {
            before.emitted(items.last())
        }
    }
}

/// The items of these that a new filter emits.
pub open spec fn emissions<T>(items: Seq<T>, same: spec_fn(T, T) -> bool) -> Seq<T>
    decreases items.len(),
{
    if items.len() == 0 {
        Seq::empty()
    } else {
        let state = distinct_after(items.drop_last(), same);
        let before = emissions(items.drop_last(), same);
        if state.previous is Some && same(state.previous->0, items.last()) {
            before
        } else {
            before.push(items.last())
        }
    }
}

/// The items that differ from the one directly before them, and the first one.
pub open spec fn changes<T>(items: Seq<T>, same: spec_fn(T, T) -> bool) -> Seq<T>
    decreases items.len(),
{
    if items.len() == 0 {
        Seq::empty()
    } else {
        let before = changes(items.drop_last(), same);
        if items.len() > 1 && same(items[items.len() - 2], items.last()) {
            before
        } else {
            before.push(items.last())
        }
    }
}

/// Reflexive, symmetric and transitive.
pub open spec fn is_equivalence<T>(same: spec_fn(T, T) -> bool) -> bool {
    &&& forall|a: T| #[trigger] same(a, a)
    &&& forall|a: T, b: T| #[trigger] same(a, b) ==> same(b, a)
    &&& forall|a: T, b: T, c: T| #[trigger] same(a, b) && #[trigger] same(b, c) ==> same(a, c)
}

proof fn lemma_previous_is_last_emission<T>(items: Seq<T>, same: spec_fn(T, T) -> bool)
    ensures
        items.len() == 0 ==> emissions(items, same).len() == 0,
        items.len() > 0 ==> emissions(items, same).len() > 0 && emissions(items, same)[0]
            == items[0],
        distinct_after(items, same).previous == (if items.len() == 0 {
            None
        } else {
            Some(emissions(items, same).last())
        }),
    decreases items.len(),
{
    if items.len() > 0 {
        lemma_previous_is_last_emission(items.drop_last(), same);
    }
}

/// The first item is always emitted, whatever the comparison.
pub proof fn law_first_item_is_emitted<T>(items: Seq<T>, same: spec_fn(T, T) -> bool)
    requires
        items.len() > 0,
    ensures
        emissions(items, same).len() > 0,
        emissions(items, same)[0] == items[0],
{
    lemma_previous_is_last_emission(items, same);
}

/// No emitted item is held equal to the one emitted directly before it.
pub proof fn law_consecutive_emissions_differ<T>(
    items: Seq<T>,
    same: spec_fn(T, T) -> bool,
    i: int,
)
    requires
        0 < i < emissions(items, same).len(),
    ensures
        !same(emissions(items, same)[i - 1], emissions(items, same)[i]),
    decreases items.len(),
{
    let init = items.drop_last();
    lemma_previous_is_last_emission(init, same);
    if i < emissions(init, same).len() {
        law_consecutive_emissions_differ(init, same, i);
    }
}

/// Where the comparison is an equivalence, every change from one item to the next
/// is emitted, and nothing else.
pub proof fn law_every_change_is_emitted<T>(items: Seq<T>, same: spec_fn(T, T) -> bool)
    requires
        is_equivalence(same),
    ensures
        emissions(items, same) == changes(items, same),
{
    lemma_every_change_is_emitted(items, same);
}

proof fn lemma_every_change_is_emitted<T>(items: Seq<T>, same: spec_fn(T, T) -> bool)
    requires
        is_equivalence(same),
    ensures
        emissions(items, same) == changes(items, same),
        items.len() > 0 ==> same(emissions(items, same).last(), items.last()),
    decreases items.len(),
{
    lemma_previous_is_last_emission(items, same);
    if items.len() > 0 {
        let init = items.drop_last();
        lemma_every_change_is_emitted(init, same);
        lemma_previous_is_last_emission(init, same);
        if init.len() > 0 {
            assert(init.last() == items[items.len() - 2]);
            let shown = emissions(init, same).last();
            assert(same(shown, init.last()));
            assert(same(init.last(), shown));
        }
    }
}

/// The state after this many duplicates in a row.
pub open spec fn skipped_times<T>(s: DistinctState<T>, n: nat) -> DistinctState<T>
    decreases n,
{
    if n == 0 {
        s
    } else {
        skipped_times(s, (n - 1) as nat).skipped()
    }
}

proof fn lemma_skipped_times<T>(s: DistinctState<T>, n: nat)
    requires
        s.discarded + n < WORK_BUDGET,
    ensures
        skipped_times(s, n).discarded == s.discarded + n,
    decreases n,
{
    if n > 0 {
        lemma_skipped_times(s, (n - 1) as nat);
    }
}

/// However long a run of duplicates is, a poll yields within the work budget.
pub proof fn law_run_of_duplicates_yields<T>(s: DistinctState<T>)
    requires
        s.wf(),
    ensures
        exists|n: nat|
            n < WORK_BUDGET && (#[trigger] skipped_times(s, n)).skip_step() is Yield,
{
    let n = (WORK_BUDGET - 1 - s.discarded) as nat;
    lemma_skipped_times(s, n);
    assert(skipped_times(s, n).skip_step() is Yield);
}

/// The items that the source gave in these reports.
pub open spec fn reported_items<T>(calls: Seq<DistinctCall<T>>) -> Seq<T>
    decreases calls.len(),
{
    if calls.len() == 0 {
        Seq::empty()
    } else {
        let before = reported_items(calls.drop_last());
        match calls.last().outcome {
            StreamPoll::Item(item) => before.push(item),
            _ => before,
        }
    }
}

/// The comparison gives what `same` says, and nothing else.
pub open spec fn compares_by<T, F: FnMut(&T, &T) -> bool>(
    compare: F,
    same: spec_fn(T, T) -> bool,
) -> bool {
    forall|a: T, b: T, equal: bool| #[trigger]
        call_ensures(compare, (&a, &b), equal) ==> equal == same(a, b)
}

/// A clone is the item itself.
pub open spec fn clones_are_equal<T: Clone>() -> bool {
    forall|item: T, kept: T| #[trigger] cloned(item, kept) ==> kept == item
}

/// Whatever silences lie in between, what a filter emits in a run is what it emits of
/// the items that the source gave: the first one, and each later one that is not held
/// equal to the one emitted last.
pub proof fn law_run_emits_the_emissions<T: Clone, F: FnMut(&T, &T) -> bool>(
    states: Seq<DistinctState<T>>,
    compare: F,
    calls: Seq<DistinctCall<T>>,
    same: spec_fn(T, T) -> bool,
)
    requires
        is_distinct_run(states, compare, calls),
        clones_are_equal::<T>(),
        compares_by(compare, same),
    ensures
        emitted_by(calls) == emissions(reported_items(calls), same),
        states.last().previous == distinct_after(reported_items(calls), same).previous,
    decreases calls.len(),
{
    if calls.len() > 0 {
        let n = calls.len() - 1;
        let before = states.drop_last();
        let earlier = calls.drop_last();
        assert forall|j: int| 0 <= j < earlier.len() implies distinct_leads(
            before[j],
            compare,
            #[trigger] earlier[j],
            before[j + 1],
        ) by {
            assert(earlier[j] == calls[j]);
        }
        law_run_emits_the_emissions(before, compare, earlier, same);
        assert(distinct_leads(states[n], compare, calls[n], states[n + 1]));
        if let StreamPoll::Item(item) = calls.last().outcome {
            assert(reported_items(calls).drop_last() =~= reported_items(earlier));
        }
    }
}

/// Where the comparison is an equivalence, a filter emits in a run exactly the changes
/// of what the source gave: the first item, and every item that differs from the one
/// directly before it.
pub proof fn law_run_emits_every_change<T: Clone, F: FnMut(&T, &T) -> bool>(
    states: Seq<DistinctState<T>>,
    compare: F,
    calls: Seq<DistinctCall<T>>,
    same: spec_fn(T, T) -> bool,
)
    requires
        is_distinct_run(states, compare, calls),
        clones_are_equal::<T>(),
        compares_by(compare, same),
        is_equivalence(same),
    ensures
        emitted_by(calls) == changes(reported_items(calls), same),
{
    law_run_emits_the_emissions(states, compare, calls, same);
    law_every_change_is_emitted(reported_items(calls), same);
}

/// No item that a filter emits in a run is held equal to the one emitted before it.
pub proof fn law_run_emits_no_duplicate<T: Clone, F: FnMut(&T, &T) -> bool>(
    states: Seq<DistinctState<T>>,
    compare: F,
    calls: Seq<DistinctCall<T>>,
    same: spec_fn(T, T) -> bool,
    i: int,
)
    requires
        is_distinct_run(states, compare, calls),
        clones_are_equal::<T>(),
        compares_by(compare, same),
        0 < i < emitted_by(calls).len(),
    ensures
        !same(emitted_by(calls)[i - 1], emitted_by(calls)[i]),
{
    law_run_emits_the_emissions(states, compare, calls, same);
    law_consecutive_emissions_differ(reported_items(calls), same, i);
}

/// Every report to a filter is one of its run.
pub proof fn law_filter_calls_are_run_calls<T: PartialEq + Clone, F: FnMut(&T, &T) -> bool>()
    ensures
        forall|stream: DistinctUntilChangedStream<T>| #[trigger]
            call_ensures(distinct_until_changed::<T>, (), stream) ==> stream@.previous is None
                && stream@.discarded == 0,
        forall|stream: &mut DistinctUntilChangedStream<T>, outcome: StreamPoll<T>, step: DistinctStep<
            T,
        >| #[trigger]
            call_ensures(DistinctUntilChangedStream::<T>::source_polled, (stream, outcome), step)
                ==> exists|equal: Option<bool>| #[trigger]
                distinct_leads(
                    stream@,
                    T::eq,
                    DistinctCall { outcome, equal, step },
                    final(stream)@,
                ),
        forall|compare: F, stream: DistinctUntilChangedByStream<T, F>| #[trigger]
            call_ensures(distinct_until_changed_by::<T, F>, (compare,), stream)
                ==> stream@.previous is None && stream@.discarded == 0 && stream.comparison()
                == compare,
        forall|
            stream: &mut DistinctUntilChangedByStream<T, F>,
            outcome: StreamPoll<T>,
            step: DistinctStep<T>,
        | #[trigger]
            call_ensures(DistinctUntilChangedByStream::<T, F>::source_polled, (stream, outcome), step)
                ==> final(stream).comparison() == stream.comparison() && exists|
                equal: Option<bool>,
            | #[trigger]
                distinct_leads(
                    stream@,
                    stream.comparison(),
                    DistinctCall { outcome, equal, step },
                    final(stream)@,
                ),
{
}

/// How many items in a row were discarded in the running poll.
pub open spec fn discarded_in_a_row<T>(calls: Seq<DistinctCall<T>>) -> nat
    decreases calls.len(),
{
    if calls.len() > 0 && calls.last().step is PollSource {
        discarded_in_a_row(calls.drop_last()) + 1
    } else {
        0
    }
}

proof fn lemma_discarded_in_a_row<T: Clone, F: FnMut(&T, &T) -> bool>(
    states: Seq<DistinctState<T>>,
    compare: F,
    calls: Seq<DistinctCall<T>>,
    n: int,
)
    requires
        is_distinct_run(states, compare, calls),
        0 <= n <= calls.len(),
    ensures
        states[n].discarded == discarded_in_a_row(calls.take(n)),
        states[n].discarded < WORK_BUDGET,
    decreases n,
{
    if n > 0 {
        lemma_discarded_in_a_row(states, compare, calls, n - 1);
        let past = calls.take(n);
        assert(past.drop_last() =~= calls.take(n - 1));
        assert(past.last() == calls[n - 1]);
        assert(distinct_leads(states[n - 1], compare, calls[n - 1], states[n]));
    }
}

/// What a poll does after each report: it returns pending exactly when the source is
/// silent and the end exactly when the source ends; an item is returned, or else the next
/// one is asked for, but with the [`WORK_BUDGET`]-th one that is discarded in a row the
/// poll yields.
pub proof fn law_filter_asks_on<T: Clone, F: FnMut(&T, &T) -> bool>(
    states: Seq<DistinctState<T>>,
    compare: F,
    calls: Seq<DistinctCall<T>>,
    j: int,
)
    requires
        is_distinct_run(states, compare, calls),
        0 <= j < calls.len(),
    ensures
        match calls[j].outcome {
            StreamPoll::Item(item) => calls[j].step == DistinctStep::Emit(item) || calls[j].step == (
            if discarded_in_a_row(calls.take(j)) + 1 == WORK_BUDGET {
                DistinctStep::<T>::Yield
            } else {
                DistinctStep::PollSource
            }),
            StreamPoll::End => calls[j].step is End,
            StreamPoll::Pending => calls[j].step is Pending,
        },
{
    lemma_discarded_in_a_row(states, compare, calls, j);
    assert(distinct_leads(states[j], compare, calls[j], states[j + 1]));
}

} // verus!
