use vstd::prelude::*;

use crate::budget::WORK_BUDGET;
use crate::merge_laws::{
    law_completed_merge_is_complete, law_merge_is_schedule_independent, law_selection_is_unique,
    merged, MergeEvent, MergeRun,
};
use crate::merge_ordered::{
    infallible, is_selected, merge_ordered, no_missing, try_merge_ordered, wrapped,
    MergeOrderedStream, MergeState, MergeStep, Ordered, ScanWake, Slot, TryMergeOrderedStream,
    TryMergeStep,
};
use crate::poll::{StreamPoll, TryStreamPoll};

verus! {

/// One call on a merge, with what it gave.
pub enum MergeCall<T> {
    /// A downstream poll begins.
    Begin { generation: usize, step: MergeStep },
    /// The poll of an input is reported.
    Report { index: int, outcome: StreamPoll<T>, step: MergeStep },
    /// The poll of an input gave an error.
    Fail { index: int },
    /// The selected head is taken.
    Select { generation: usize, item: Option<T> },
}

/// The call leads from one state to the other. Only an input without a head is
/// polled, and a head is taken only when none is missing.
pub open spec fn leads<T: Ordered>(s: MergeState<T>, call: MergeCall<T>, t: MergeState<T>) -> bool {
    match call {
        MergeCall::Begin { generation, step } => s.begins(generation, step, t),
        MergeCall::Report { index, outcome, step } => {
            &&& 0 <= index < s.slots.len()
            &&& s.slots[index] is Missing
            &&& s.reports(index, outcome, step, t)
        },
        MergeCall::Fail { index } => {
            &&& 0 <= index < s.slots.len()
            &&& s.slots[index] is Missing
            &&& t == (MergeState { scan_remaining: 0, ..s })
        },
        MergeCall::Select { generation, item } => {
            &&& no_missing(s.slots)
            &&& !s.terminated
            &&& s.selects(generation, item, t)
        },
    }
}

/// A run of calls on a new merge: each state follows from the one before it.
pub open spec fn is_merge_run<T: Ordered>(states: Seq<MergeState<T>>, calls: Seq<MergeCall<T>>) -> bool {
    &&& states.len() == calls.len() + 1
    &&& !states[0].terminated
    &&& forall|i: int| 0 <= i < states[0].slots.len() ==> #[trigger] states[0].slots[i] is Missing
    &&& forall|j: int|
        0 <= j < calls.len() ==> leads(states[j], #[trigger] calls[j], states[j + 1])
}

/// The items that input `i` gave in the run, with the keys that were extracted.
pub open spec fn given<T: Ordered>(
    states: Seq<MergeState<T>>,
    calls: Seq<MergeCall<T>>,
    i: int,
) -> Seq<(T, T::Key)>
    decreases calls.len(),
{
    if calls.len() == 0 {
        Seq::empty()
    } else {
        let before = given(states.drop_last(), calls.drop_last(), i);
        match calls.last() {
            MergeCall::Report { index, outcome: StreamPoll::Item(item), .. } => if index == i {
                before.push((item, states.last().slots[i]->key))
            } else {
                before
            },
            _ => before,
        }
    }
}

/// What each input gave in the run.
pub open spec fn all_given<T: Ordered>(
    states: Seq<MergeState<T>>,
    calls: Seq<MergeCall<T>>,
) -> Seq<Seq<(T, T::Key)>> {
    Seq::new(states[0].slots.len(), |i: int| given(states, calls, i))
}

/// The items that the merge emitted in the run.
pub open spec fn emitted_items<T>(calls: Seq<MergeCall<T>>) -> Seq<T>
    decreases calls.len(),
{
    if calls.len() == 0 {
        Seq::empty()
    } else {
        let before = emitted_items(calls.drop_last());
        match calls.last() {
            MergeCall::Select { item: Some(item), .. } => before.push(item),
            _ => before,
        }
    }
}

/// The items of the entries.
pub open spec fn items_of<T: Ordered>(entries: Seq<(int, (T, T::Key))>) -> Seq<T> {
    Seq::new(entries.len(), |i: int| entries[i].1.0)
}

/// The inputs can be those of the run: each has given a beginning of them, and one
/// that has ended has given them all.
pub open spec fn fits_inputs<T: Ordered>(
    states: Seq<MergeState<T>>,
    calls: Seq<MergeCall<T>>,
    inputs: Seq<Seq<(T, T::Key)>>,
) -> bool {
    &&& inputs.len() == states[0].slots.len()
    &&& forall|i: int|
        0 <= i < inputs.len() ==> given(states, calls, i).is_prefix_of(#[trigger] inputs[i]) && (
        states.last().slots[i] is Done ==> given(states, calls, i) == inputs[i])
}

proof fn lemma_continues<T: Ordered>(s: MergeState<T>, step: MergeStep, next: MergeState<T>)
    requires
        s.continues(step, next),
    ensures
        next.slots == s.slots,
        next.terminated == s.terminated,
{
}

proof fn lemma_leads<T: Ordered>(s: MergeState<T>, call: MergeCall<T>, t: MergeState<T>)
    requires
        leads(s, call, t),
    ensures
        t.slots.len() == s.slots.len(),
        forall|i: int|
            0 <= i < s.slots.len() && #[trigger] s.slots[i] is Done ==> t.slots[i] is Done,
        s.terminated ==> t.terminated,
        t.terminated && !s.terminated ==> forall|i: int|
            0 <= i < t.slots.len() ==> #[trigger] t.slots[i] is Done,
        match call {
            MergeCall::Begin { .. } => t.slots == s.slots,
            MergeCall::Report { index, outcome: StreamPoll::Item(item), .. } => t.slots
                == s.slots.update(index, Slot::Head { item, key: t.slots[index]->key }),
            MergeCall::Report { index, outcome: StreamPoll::End, .. } => t.slots
                == s.slots.update(index, Slot::Done),
            MergeCall::Report { index, outcome: StreamPoll::Pending, .. } => t.slots == s.slots,
            MergeCall::Fail { .. } => t.slots == s.slots,
            MergeCall::Select { item: Some(item), .. } => exists|i: int| #[trigger]
                is_selected(s.slots, i) && item == s.slots[i]->item && t.slots == s.slots.update(
                    i,
                    Slot::Missing,
                ),
            MergeCall::Select { item: None, .. } => t.slots == s.slots,
        },
{
    match call {
        MergeCall::Begin { generation, step } => {
            if !s.terminated && !no_missing(s.slots) {
                lemma_continues(s.scanning(generation), step, t);
            }
        },
        MergeCall::Report { index, outcome, step } => match outcome {
            StreamPoll::Item(item) => {
                let key = t.slots[index]->key;
                lemma_continues(s.filled(index, Slot::Head { item, key }), step, t);
            },
            StreamPoll::End => lemma_continues(s.filled(index, Slot::Done), step, t),
            StreamPoll::Pending => lemma_continues(s.found_pending(index), step, t),
        },
        MergeCall::Fail { .. } => {},
        MergeCall::Select { generation, item } => match item {
            Some(item) => {
                let i = choose|i: int| #[trigger]
                    is_selected(s.slots, i) && item == s.slots[i]->item && t == s.emitted(
                        i,
                        generation,
                    );
                assert(t.slots == s.slots.update(i, Slot::Missing));
            },
            None => {
                assert forall|i: int| 0 <= i < t.slots.len() implies #[trigger] t.slots[i] is Done by {
                    assert(!(s.slots[i] is Missing));
                    assert(!(s.slots[i] is Head));
                }
            },
        },
    }
}

proof fn lemma_shorter_run<T: Ordered>(states: Seq<MergeState<T>>, calls: Seq<MergeCall<T>>)
    requires
        is_merge_run(states, calls),
        calls.len() > 0,
    ensures
        is_merge_run(states.drop_last(), calls.drop_last()),
        leads(states.drop_last().last(), calls.last(), states.last()),
{
    let before = states.drop_last();
    let earlier = calls.drop_last();
    assert forall|j: int| 0 <= j < earlier.len() implies leads(
        before[j],
        #[trigger] earlier[j],
        before[j + 1],
    ) by {
        assert(earlier[j] == calls[j]);
    }
    let n = calls.len() - 1;
    assert(leads(states[n], calls[n], states[n + 1]));
}

proof fn lemma_run_len<T: Ordered>(states: Seq<MergeState<T>>, calls: Seq<MergeCall<T>>)
    requires
        is_merge_run(states, calls),
    ensures
        states.last().slots.len() == states[0].slots.len(),
    decreases calls.len(),
{
    if calls.len() > 0 {
        lemma_shorter_run(states, calls);
        lemma_run_len(states.drop_last(), calls.drop_last());
        lemma_leads(states.drop_last().last(), calls.last(), states.last());
    }
}

proof fn lemma_fits_earlier<T: Ordered>(
    states: Seq<MergeState<T>>,
    calls: Seq<MergeCall<T>>,
    inputs: Seq<Seq<(T, T::Key)>>,
)
    requires
        is_merge_run(states, calls),
        calls.len() > 0,
        fits_inputs(states, calls, inputs),
    ensures
        fits_inputs(states.drop_last(), calls.drop_last(), inputs),
{
    let before = states.drop_last();
    let earlier = calls.drop_last();
    lemma_shorter_run(states, calls);
    lemma_run_len(before, earlier);
    lemma_leads(before.last(), calls.last(), states.last());
    assert forall|i: int| 0 <= i < inputs.len() implies given(before, earlier, i).is_prefix_of(
        #[trigger] inputs[i],
    ) && (before.last().slots[i] is Done ==> given(before, earlier, i) == inputs[i]) by {
        assert(given(states, calls, i).is_prefix_of(inputs[i]));
        assert(given(before, earlier, i).is_prefix_of(given(states, calls, i)));
        if before.last().slots[i] is Done {
            assert(states.last().slots[i] is Done);
            assert(given(states, calls, i) == given(before, earlier, i));
        }
    }
}

/// Every call is what an event of the run model is, on the same slots: an item that
/// is reported arrives, a reported end finishes its input, and the head that is taken
/// is the one that the model emits. All other calls leave the slots as they are.
///
/// So a run of calls goes with a run of the model for the same inputs.
pub proof fn law_calls_follow_the_run_model<T: Ordered>(
    states: Seq<MergeState<T>>,
    calls: Seq<MergeCall<T>>,
    inputs: Seq<Seq<(T, T::Key)>>,
) -> (events: Seq<MergeEvent>)
    requires
        is_merge_run(states, calls),
        fits_inputs(states, calls, inputs),
    ensures
        MergeRun::start(inputs).allows_all(events),
        ({
            let run = MergeRun::start(inputs).after_all(events);
            &&& run.slots == states.last().slots
            &&& items_of(run.emitted) == emitted_items(calls)
            &&& run.upcoming.len() == inputs.len()
            &&& forall|i: int|
                0 <= i < inputs.len() ==> #[trigger] run.upcoming[i] == inputs[i].skip(
                    given(states, calls, i).len() as int,
                )
        }),
    decreases calls.len(),
{
    let start = MergeRun::start(inputs);
    if calls.len() == 0 {
        let events = Seq::<MergeEvent>::empty();
        assert(start.slots =~= states.last().slots);
        assert(items_of(start.emitted) =~= emitted_items(calls));
        assert forall|i: int| 0 <= i < inputs.len() implies #[trigger] start.upcoming[i] == inputs[i].skip(
            given(states, calls, i).len() as int,
        ) by {
            assert(inputs[i] =~= inputs[i].skip(0));
        }
        events
    } else {
        let before = states.drop_last();
        let earlier = calls.drop_last();
        lemma_shorter_run(states, calls);
        lemma_run_len(before, earlier);
        lemma_fits_earlier(states, calls, inputs);
        let s = before.last();
        let t = states.last();
        lemma_leads(s, calls.last(), t);
        let past = law_calls_follow_the_run_model(before, earlier, inputs);
        let run = start.after_all(past);
        match calls.last() {
            MergeCall::Report { index, outcome: StreamPoll::Item(item), .. } => {
                let key = t.slots[index]->key;
                let had = given(before, earlier, index);
                assert(given(states, calls, index) == had.push((item, key)));
                assert(given(states, calls, index).is_prefix_of(inputs[index]));
                assert(inputs[index][had.len() as int] == had.push((item, key))[had.len() as int]);
                let events = past.push(MergeEvent::Arrive(index));
                assert(events.drop_last() =~= past);
                assert(run.upcoming[index] == inputs[index].skip(had.len() as int));
                assert(run.upcoming[index][0] == (item, key));
                assert(run.allows(MergeEvent::Arrive(index)));
                let next = start.after_all(events);
                assert(next.slots =~= t.slots);
                assert forall|i: int| 0 <= i < inputs.len() implies #[trigger] next.upcoming[i]
                    == inputs[i].skip(given(states, calls, i).len() as int) by {
                    assert(run.upcoming[i] == inputs[i].skip(given(before, earlier, i).len() as int));
                    if i == index {
                        assert(inputs[i].skip(had.len() as int).drop_first() =~= inputs[i].skip(
                            had.len() as int + 1,
                        ));
                    }
                }
                events
            },
            MergeCall::Report { index, outcome: StreamPoll::End, .. } => {
                let events = past.push(MergeEvent::Finish(index));
                assert(events.drop_last() =~= past);
                assert(t.slots[index] is Done);
                assert(given(states, calls, index).is_prefix_of(inputs[index]));
                assert(given(before, earlier, index) == inputs[index]);
                assert(run.upcoming[index] == inputs[index].skip(inputs[index].len() as int));
                assert(run.allows(MergeEvent::Finish(index)));
                let next = start.after_all(events);
                assert(next.slots =~= t.slots);
                assert forall|i: int| 0 <= i < inputs.len() implies #[trigger] next.upcoming[i]
                    == inputs[i].skip(given(states, calls, i).len() as int) by {
                    assert(run.upcoming[i] == inputs[i].skip(given(before, earlier, i).len() as int));
                }
                events
            },
            MergeCall::Select { item: Some(item), .. } => {
                let events = past.push(MergeEvent::Emit);
                assert(events.drop_last() =~= past);
                let i = choose|i: int| #[trigger]
                    is_selected(s.slots, i) && item == s.slots[i]->item && t.slots
                        == s.slots.update(i, Slot::Missing);
                let c = choose|c: int| is_selected(run.slots, c);
                law_selection_is_unique(s.slots, i, c);
                assert(run.allows(MergeEvent::Emit));
                let next = start.after_all(events);
                assert(next.slots =~= t.slots);
                assert(items_of(next.emitted) =~= items_of(run.emitted).push(item));
                assert forall|i: int| 0 <= i < inputs.len() implies #[trigger] next.upcoming[i]
                    == inputs[i].skip(given(states, calls, i).len() as int) by {
                    assert(run.upcoming[i] == inputs[i].skip(given(before, earlier, i).len() as int));
                }
                events
            },
            _ => {
                assert forall|i: int| 0 <= i < inputs.len() implies #[trigger] run.upcoming[i]
                    == inputs[i].skip(given(states, calls, i).len() as int) by {
                    assert(given(states, calls, i) == given(before, earlier, i));
                }
                past
            },
        }
    }
}

proof fn lemma_given_fits<T: Ordered>(states: Seq<MergeState<T>>, calls: Seq<MergeCall<T>>)
    ensures
        fits_inputs(states, calls, all_given(states, calls)),
{
}

/// Whenever the inputs are ready, and however the calls are spread over downstream
/// polls, what a merge has emitted is the beginning of the ordered merge of its
/// inputs.
pub proof fn law_emitted_items_begin_the_merge<T: Ordered>(
    states: Seq<MergeState<T>>,
    calls: Seq<MergeCall<T>>,
    inputs: Seq<Seq<(T, T::Key)>>,
)
    requires
        is_merge_run(states, calls),
        fits_inputs(states, calls, inputs),
    ensures
        emitted_items(calls).is_prefix_of(items_of(merged(inputs))),
{
    let events = law_calls_follow_the_run_model(states, calls, inputs);
    law_merge_is_schedule_independent(inputs, events);
    let run = MergeRun::start(inputs).after_all(events);
    assert(items_of(run.emitted + merged(run.rests())) =~= items_of(run.emitted) + items_of(
        merged(run.rests()),
    ));
}

/// A merge that has completed has emitted exactly the ordered merge of what its
/// inputs gave. By the laws of that merge, this is a permutation of those items that
/// keeps the order of each input, with keys that never decrease if those of each
/// input do not, and with equal keys in the order of the inputs.
pub proof fn law_completed_run_emits_the_merge<T: Ordered>(
    states: Seq<MergeState<T>>,
    calls: Seq<MergeCall<T>>,
)
    requires
        is_merge_run(states, calls),
        states.last().terminated,
    ensures
        emitted_items(calls) == items_of(merged(all_given(states, calls))),
{
    let inputs = all_given(states, calls);
    lemma_given_fits(states, calls);
    let events = law_calls_follow_the_run_model(states, calls, inputs);
    lemma_terminated(states, calls);
    lemma_run_len(states, calls);
    let run = MergeRun::start(inputs).after_all(events);
    assert forall|i: int| 0 <= i < run.slots.len() implies !(#[trigger] run.slots[i] is Missing) && !(
    run.slots[i] is Head) by {
        assert(states.last().slots[i] is Done);
    }
    law_completed_merge_is_complete(inputs, events);
}

proof fn lemma_terminated<T: Ordered>(states: Seq<MergeState<T>>, calls: Seq<MergeCall<T>>)
    requires
        is_merge_run(states, calls),
    ensures
        states.last().terminated ==> forall|i: int|
            0 <= i < states.last().slots.len() ==> #[trigger] states.last().slots[i] is Done,
    decreases calls.len(),
{
    if calls.len() > 0 {
        lemma_shorter_run(states, calls);
        lemma_terminated(states.drop_last(), calls.drop_last());
        lemma_leads(states.drop_last().last(), calls.last(), states.last());
    }
}

/// Taking the selected head completes the merge exactly when every input has ended
/// and every head was emitted.
pub proof fn law_completion_needs_every_input<T: Ordered>(
    s: MergeState<T>,
    generation: usize,
    item: Option<T>,
    t: MergeState<T>,
)
    requires
        leads(s, MergeCall::Select { generation, item }, t),
    ensures
        item is None <==> forall|i: int| 0 <= i < s.slots.len() ==> #[trigger] s.slots[i] is Done,
{
    match item {
        None => {
            assert forall|i: int| 0 <= i < s.slots.len() implies #[trigger] s.slots[i] is Done by {
                assert(!(s.slots[i] is Missing));
                assert(!(s.slots[i] is Head));
            }
        },
        Some(item) => {
            let i = choose|i: int| #[trigger]
                is_selected(s.slots, i) && item == s.slots[i]->item && t == s.emitted(
                    i,
                    generation,
                );
            assert(s.slots[i] is Head);
        },
    }
}

/// The input that the call asks to be polled next.
pub open spec fn asked<T>(call: MergeCall<T>) -> Option<usize> {
    match call {
        MergeCall::Begin { step: MergeStep::PollInput(i), .. } => Some(i),
        MergeCall::Report { step: MergeStep::PollInput(i), .. } => Some(i),
        _ => None,
    }
}

/// The scan's counters are in range, as they are in every well-formed state.
pub open spec fn in_range<T: Ordered>(s: MergeState<T>) -> bool {
    &&& s.slots.len() <= usize::MAX
    &&& 0 <= s.cursor
    &&& s.slots.len() > 0 ==> s.cursor < s.slots.len()
    &&& 0 <= s.scan_remaining <= s.slots.len()
}

/// An input that has ended is never polled again: no later call reports it, and no
/// later call asks for it.
pub proof fn law_ended_input_is_not_polled_again<T: Ordered>(
    states: Seq<MergeState<T>>,
    calls: Seq<MergeCall<T>>,
    input: int,
    a: int,
    b: int,
)
    requires
        is_merge_run(states, calls),
        0 <= a <= b < calls.len(),
        0 <= input < states[a].slots.len(),
        states[a].slots[input] is Done,
        in_range(states[b]),
    ensures
        asked(calls[b]) matches Some(i) ==> i != input,
        calls[b] matches MergeCall::Report { index, .. } ==> index != input,
        calls[b] matches MergeCall::Fail { index } ==> index != input,
{
    lemma_done_stays(states, calls, input, a, b);
    let s = states[b];
    let t = states[b + 1];
    assert(leads(s, calls[b], t));
    lemma_leads(s, calls[b], t);
    assert(t.slots[input] is Done);
    match calls[b] {
        MergeCall::Begin { generation, step } => {
            if step is PollInput {
                lemma_asked_input_is_missing(s.scanning(generation), step, t);
            }
        },
        MergeCall::Report { index, outcome, step } => {
            if step is PollInput {
                match outcome {
                    StreamPoll::Item(item) => {
                        let key = t.slots[index]->key;
                        lemma_asked_input_is_missing(
                            s.filled(index, Slot::Head { item, key }),
                            step,
                            t,
                        );
                    },
                    StreamPoll::End => {
                        lemma_asked_input_is_missing(s.filled(index, Slot::Done), step, t);
                    },
                    StreamPoll::Pending => {
                        lemma_asked_input_is_missing(s.found_pending(index), step, t);
                    },
                }
            }
        },
        _ => {},
    }
}

proof fn lemma_done_stays<T: Ordered>(
    states: Seq<MergeState<T>>,
    calls: Seq<MergeCall<T>>,
    input: int,
    a: int,
    b: int,
)
    requires
        is_merge_run(states, calls),
        0 <= a <= b < states.len(),
        0 <= input < states[a].slots.len(),
        states[a].slots[input] is Done,
    ensures
        states[b].slots.len() == states[a].slots.len(),
        states[b].slots[input] is Done,
    decreases b - a,
{
    if a < b {
        lemma_done_stays(states, calls, input, a, b - 1);
        assert(leads(states[b - 1], calls[b - 1], states[b - 1 + 1]));
        lemma_leads(states[b - 1], calls[b - 1], states[b]);
    }
}

proof fn lemma_asked_input_is_missing<T: Ordered>(s: MergeState<T>, step: MergeStep, t: MergeState<T>)
    requires
        s.continues(step, t),
        step is PollInput,
        in_range(s),
    ensures
        0 <= step->PollInput_0 < t.slots.len(),
        t.slots[step->PollInput_0 as int] is Missing,
{
    lemma_continues(s, step, t);
    let n = s.slots.len() as int;
    assert(n > 0) by {
        let i = choose|i: int| 0 <= i < n && #[trigger] s.slots[i] is Missing;
    }
    if !(0 < s.reach() && s.slots[s.cursor] is Missing) {
        let k = choose|k: int|
            0 <= k < s.reach() && #[trigger] s.first_missing_after(k) && step
                == MergeStep::PollInput(wrapped(s.cursor + k, n) as usize) && t == s.moved(k + 1);
        assert(0 <= wrapped(s.cursor + k, n) < n);
    }
}

/// After its completion a merge stays completed: every later poll gives the end at
/// once, and no input is polled.
pub proof fn law_completed_merge_stays_completed<T: Ordered>(
    states: Seq<MergeState<T>>,
    calls: Seq<MergeCall<T>>,
    a: int,
    b: int,
)
    requires
        is_merge_run(states, calls),
        0 <= a <= b < calls.len(),
        states[a].terminated,
    ensures
        calls[b] matches MergeCall::Begin { step, .. } && step == MergeStep::Finished,
        states[b + 1].terminated,
    decreases b - a,
{
    if a < b {
        law_completed_merge_stays_completed(states, calls, a, b - 1);
    }
    assert(leads(states[b], calls[b], states[b + 1]));
    lemma_leads(states[b], calls[b], states[b + 1]);
    let upto = states.take(b + 1);
    let before = calls.take(b);
    assert forall|j: int| 0 <= j < before.len() implies leads(upto[j], #[trigger] before[j], upto[j + 1]) by {
        assert(before[j] == calls[j]);
    }
    lemma_terminated(upto, before);
    assert(upto.last() == states[b]);
    match calls[b] {
        MergeCall::Report { index, .. } => {
            assert(states[b].slots[index] is Done);
        },
        MergeCall::Fail { index } => {
            assert(states[b].slots[index] is Done);
        },
        _ => {},
    }
}

/// Every call on a merge, fallible or not, is one of its run, and a new merge has no input
/// that has given anything.
pub proof fn law_merge_calls_are_run_calls<T: Ordered, E>()
    ensures
        forall|inputs: usize, merge: MergeOrderedStream<T>| #[trigger]
            call_ensures(merge_ordered::<T>, (inputs,), merge) ==> merge@.slots.len() == inputs
                && is_merge_run(seq![merge@], Seq::<MergeCall<T>>::empty()) && is_fresh(merge@),
        forall|merge: &mut MergeOrderedStream<T>, generation: usize, step: MergeStep| #[trigger]
            call_ensures(MergeOrderedStream::<T>::begin_poll, (merge, generation), step) ==> leads(
                merge@,
                MergeCall::Begin { generation, step },
                final(merge)@,
            ),
        forall|
            merge: &mut MergeOrderedStream<T>,
            index: usize,
            outcome: StreamPoll<T>,
            step: MergeStep,
        | #[trigger]
            call_ensures(MergeOrderedStream::<T>::input_polled, (merge, index, outcome), step)
                && index < merge@.slots.len() && merge@.slots[index as int] is Missing ==> leads(
                merge@,
                MergeCall::Report { index: index as int, outcome, step },
                final(merge)@,
            ),
        forall|merge: &mut MergeOrderedStream<T>, generation: usize, item: Option<T>| #[trigger]
            call_ensures(MergeOrderedStream::<T>::select, (merge, generation), item) && no_missing(
                merge@.slots,
            ) && !merge@.terminated ==> leads(
                merge@,
                MergeCall::Select { generation, item },
                final(merge)@,
            ),
        forall|inputs: usize, merge: TryMergeOrderedStream<T>| #[trigger]
            call_ensures(try_merge_ordered::<T>, (inputs,), merge) ==> merge@.slots.len() == inputs
                && is_merge_run(seq![merge@], Seq::<MergeCall<T>>::empty()) && is_fresh(merge@),
        forall|merge: &mut TryMergeOrderedStream<T>, generation: usize, step: TryMergeStep<E>| #[trigger]
            call_ensures(TryMergeOrderedStream::<T>::begin_poll::<E>, (merge, generation), step)
                ==> !(step is Fail) && leads(
                merge@,
                MergeCall::Begin { generation, step: infallible(step) },
                final(merge)@,
            ),
        forall|
            merge: &mut TryMergeOrderedStream<T>,
            index: usize,
            outcome: TryStreamPoll<T, E>,
            step: TryMergeStep<E>,
        | #[trigger]
            call_ensures(
                TryMergeOrderedStream::<T>::input_polled::<E>,
                (merge, index, outcome),
                step,
            ) && index < merge@.slots.len() && merge@.slots[index as int] is Missing ==> match outcome {
                TryStreamPoll::Failed(error) => step == TryMergeStep::Fail(error) && leads(
                    merge@,
                    MergeCall::Fail { index: index as int },
                    final(merge)@,
                ),
                TryStreamPoll::Item(item) => !(step is Fail) && leads(
                    merge@,
                    MergeCall::Report {
                        index: index as int,
                        outcome: StreamPoll::Item(item),
                        step: infallible(step),
                    },
                    final(merge)@,
                ),
                TryStreamPoll::End => !(step is Fail) && leads(
                    merge@,
                    MergeCall::Report {
                        index: index as int,
                        outcome: StreamPoll::End,
                        step: infallible(step),
                    },
                    final(merge)@,
                ),
                TryStreamPoll::Pending => !(step is Fail) && leads(
                    merge@,
                    MergeCall::Report {
                        index: index as int,
                        outcome: StreamPoll::Pending,
                        step: infallible(step),
                    },
                    final(merge)@,
                ),
            },
        forall|merge: &mut TryMergeOrderedStream<T>, generation: usize, item: Option<T>| #[trigger]
            call_ensures(TryMergeOrderedStream::<T>::select, (merge, generation), item)
                && no_missing(merge@.slots) && !merge@.terminated ==> leads(
                merge@,
                MergeCall::Select { generation, item },
                final(merge)@,
            ),
{
}

/// Nothing was scanned yet.
pub open spec fn is_fresh<T: Ordered>(s: MergeState<T>) -> bool {
    &&& s.work == 0
    &&& s.scan_remaining == 0
    &&& s.cursor == 0
    &&& s.parked.is_empty()
}

/// What the call asks for, if it asks for anything.
pub open spec fn next_step<T>(call: MergeCall<T>) -> Option<MergeStep> {
    match call {
        MergeCall::Begin { step, .. } => Some(step),
        MergeCall::Report { step, .. } => Some(step),
        _ => None,
    }
}

/// A poll goes on exactly as the heads demand: it selects when every unfinished input has
/// a head, ends when the merge has completed, and otherwise polls an input that has none,
/// or suspends, but then one is missing. A poll that begins completed stays so, and one
/// that begins otherwise does not end without selecting.
pub proof fn law_steps_follow_the_heads<T: Ordered>(
    states: Seq<MergeState<T>>,
    calls: Seq<MergeCall<T>>,
    j: int,
)
    requires
        is_merge_run(states, calls),
        is_fresh(states[0]),
        states[0].slots.len() <= usize::MAX,
        0 <= j < calls.len(),
        next_step(calls[j]) is Some,
    ensures
        ({
            let t = states[j + 1];
            match next_step(calls[j])->0 {
                MergeStep::Finished => calls[j] is Begin && states[j].terminated,
                MergeStep::Select => !states[j].terminated && forall|i: int|
                    0 <= i < t.slots.len() ==> !(#[trigger] t.slots[i] is Missing),
                MergeStep::PollInput(i) => i < t.slots.len() && t.slots[i as int] is Missing,
                MergeStep::Suspend => exists|i: int|
                    0 <= i < t.slots.len() && #[trigger] t.slots[i] is Missing,
            }
        }),
        calls[j] is Begin && !states[j].terminated && no_missing(states[j].slots)
            ==> next_step(calls[j])->0 is Select,
        calls[j] is Begin && states[j].terminated ==> next_step(calls[j])->0 is Finished,
{
    let s = states[j];
    let t = states[j + 1];
    assert(leads(s, calls[j], t));
    lemma_bounds(states, calls, j);
    lemma_terminated_at(states, calls, j);
    let from = match calls[j] {
        MergeCall::Begin { generation, .. } => s.scanning(generation),
        MergeCall::Report { index, outcome, .. } => match outcome {
            StreamPoll::Item(item) => s.filled(index, Slot::Head { item, key: t.slots[index]->key }),
            StreamPoll::End => s.filled(index, Slot::Done),
            StreamPoll::Pending => s.found_pending(index),
        },
        _ => s,
    };
    if !(calls[j] is Begin && (s.terminated || no_missing(s.slots))) {
        let step = next_step(calls[j])->0;
        assert(from.continues(step, t));
        if no_missing(from.slots) {
            assert forall|i: int| 0 <= i < t.slots.len() implies !(#[trigger] t.slots[i] is Missing) by {
                assert(!(from.slots[i] is Missing));
            }
        } else {
            let i = choose|i: int| 0 <= i < from.slots.len() && #[trigger] from.slots[i] is Missing;
            assert(t.slots[i] is Missing);
        }
    }
}

proof fn lemma_terminated_at<T: Ordered>(
    states: Seq<MergeState<T>>,
    calls: Seq<MergeCall<T>>,
    n: int,
)
    requires
        is_merge_run(states, calls),
        0 <= n <= calls.len(),
    ensures
        states[n].terminated ==> no_missing(states[n].slots),
    decreases n,
{
    if n > 0 {
        lemma_terminated_at(states, calls, n - 1);
        assert(leads(states[n - 1], calls[n - 1], states[n]));
    }
}

/// How many inputs were asked for since the last downstream poll began.
pub open spec fn asked_in_poll<T>(calls: Seq<MergeCall<T>>) -> nat
    decreases calls.len(),
{
    if calls.len() == 0 {
        0
    } else {
        let before = if calls.last() is Begin {
            0
        } else {
            asked_in_poll(calls.drop_last())
        };
        match next_step(calls.last()) {
            Some(MergeStep::PollInput(_)) => before + 1,
            _ => before,
        }
    }
}

spec fn in_bounds<T: Ordered>(s: MergeState<T>) -> bool {
    &&& 0 <= s.cursor
    &&& s.slots.len() > 0 ==> s.cursor < s.slots.len()
    &&& 0 <= s.scan_remaining <= s.slots.len()
    &&& 0 <= s.work <= WORK_BUDGET
}

proof fn lemma_bounds<T: Ordered>(
    states: Seq<MergeState<T>>,
    calls: Seq<MergeCall<T>>,
    n: int,
)
    requires
        is_merge_run(states, calls),
        is_fresh(states[0]),
        0 <= n <= calls.len(),
    ensures
        in_bounds(states[n]),
        states[n].slots.len() == states[0].slots.len(),
        asked_in_poll(calls.take(n)) <= states[n].work,
    decreases n,
{
    if n > 0 {
        lemma_bounds(states, calls, n - 1);
        let past = calls.take(n);
        assert(past.drop_last() =~= calls.take(n - 1));
        assert(past.last() == calls[n - 1]);
        let s = states[n - 1];
        let t = states[n];
        assert(leads(s, calls[n - 1], t));
        match calls[n - 1] {
            MergeCall::Select { generation, item } => {
                if item is Some {
                    let i = choose|i: int| #[trigger]
                        is_selected(s.slots, i) && item->0 == s.slots[i]->item && t == s.emitted(
                            i,
                            generation,
                        );
                    assert(is_selected(s.slots, i));
                }
            },
            _ => {},
        }
        if s.slots.len() == 0 {
            assert(no_missing(s.slots));
        }
    }
}

/// A downstream poll cannot monopolize its executor: however many inputs there are, it
/// polls no more than [`WORK_BUDGET`] of them.
pub proof fn law_poll_stays_within_the_budget<T: Ordered>(
    states: Seq<MergeState<T>>,
    calls: Seq<MergeCall<T>>,
    n: int,
)
    requires
        is_merge_run(states, calls),
        is_fresh(states[0]),
        0 <= n <= calls.len(),
    ensures
        asked_in_poll(calls.take(n)) <= WORK_BUDGET,
{
    lemma_bounds(states, calls, n);
}

/// The generation that the call starts a scan with, if it may start one.
pub open spec fn starts_with<T>(call: MergeCall<T>) -> Option<usize> {
    match call {
        MergeCall::Begin { generation, .. } => Some(generation),
        MergeCall::Select { generation, .. } => Some(generation),
        _ => None,
    }
}

/// The input was found pending at `a`, in a scan that was started at `b`, with this
/// generation.
pub open spec fn found_pending_at<T>(
    calls: Seq<MergeCall<T>>,
    a: int,
    b: int,
    input: int,
    generation: usize,
) -> bool {
    &&& 0 <= b < a < calls.len()
    &&& starts_with(calls[b]) == Some(generation)
    &&& calls[a] matches MergeCall::Report { index, outcome, .. } && index == input
        && outcome is Pending
}

/// What the last call asked for.
pub open spec fn asked_last<T>(calls: Seq<MergeCall<T>>) -> Option<MergeStep> {
    if calls.len() == 0 {
        None
    } else {
        next_step(calls.last())
    }
}

/// In the run, an input is polled only when it was just asked for.
pub open spec fn does_as_asked<T>(calls: Seq<MergeCall<T>>) -> bool {
    forall|j: int|
        0 <= j < calls.len() ==> match #[trigger] calls[j] {
            MergeCall::Report { index, .. } => asked_last(calls.take(j)) matches Some(
                MergeStep::PollInput(i),
            ) && i == index,
            MergeCall::Fail { index } => asked_last(calls.take(j)) matches Some(MergeStep::PollInput(i))
                && i == index,
            _ => true,
        }
}

proof fn lemma_parked<T: Ordered>(
    states: Seq<MergeState<T>>,
    calls: Seq<MergeCall<T>>,
    n: int,
)
    requires
        is_merge_run(states, calls),
        is_fresh(states[0]),
        does_as_asked(calls),
        0 <= n <= calls.len(),
    ensures
        states[n].scan_remaining > 0 || (asked_last(calls.take(n)) matches Some(step)
            && step is PollInput) ==> exists|b: int|
            0 <= b < n && #[trigger] starts_with(calls[b]) == Some(states[n].scan_generation),
        forall|input: int| #[trigger]
            states[n].parked.contains(input) ==> exists|a: int, b: int|
                a < n && #[trigger] found_pending_at(
                    calls,
                    a,
                    b,
                    input,
                    states[n].scan_generation,
                ),
    decreases n,
{
    if n > 0 {
        lemma_parked(states, calls, n - 1);
        lemma_bounds(states, calls, n - 1);
        lemma_bounds(states, calls, n);
        let past = calls.take(n);
        assert(past.last() == calls[n - 1]);
        let s = states[n - 1];
        let t = states[n];
        assert(leads(s, calls[n - 1], t));
        let call = calls[n - 1];
        let fresh = match call {
            MergeCall::Begin { .. } => !s.terminated && !no_missing(s.slots) && s.scan_remaining
                == 0,
            MergeCall::Select { item, .. } => item is Some,
            _ => false,
        };
        if fresh {
            assert(starts_with(call) == Some(t.scan_generation));
            assert(t.parked =~= Set::empty());
        } else {
            assert(t.scan_generation == s.scan_generation);
            if s.scan_remaining > 0 || call is Report {
                let b = choose|b: int|
                    0 <= b < n - 1 && #[trigger] starts_with(calls[b]) == Some(s.scan_generation);
                assert(starts_with(calls[b]) == Some(t.scan_generation));
            }
            if let MergeCall::Report { index, outcome: StreamPoll::Pending, .. } = call {
                assert(t.parked == s.parked.insert(index));
            } else {
                assert(t.parked == s.parked);
            }
        }
        assert forall|input: int| #[trigger] t.parked.contains(input) implies exists|a: int, b: int|
            a < n && #[trigger] found_pending_at(calls, a, b, input, t.scan_generation) by {
            if s.parked.contains(input) {
                let (a, b) = choose|a: int, b: int|
                    a < n - 1 && #[trigger] found_pending_at(
                        calls,
                        a,
                        b,
                        input,
                        s.scan_generation,
                    );
                assert(found_pending_at(calls, a, b, input, t.scan_generation));
            } else {
                let b = choose|b: int|
                    0 <= b < n - 1 && #[trigger] starts_with(calls[b]) == Some(s.scan_generation);
                assert(found_pending_at(calls, n - 1, b, input, t.scan_generation));
            }
        }
    }
}

/// A merge never waits for nothing: when it suspends without waking its own task, every
/// unfinished input without a head was polled and found pending, and that after a moment
/// at which the wake generation was the present one, so that its waker will be heard.
pub proof fn law_suspended_merge_waits_for_every_missing_head<T: Ordered>(
    states: Seq<MergeState<T>>,
    calls: Seq<MergeCall<T>>,
    merge: &MergeOrderedStream<T>,
    generation: usize,
    input: int,
)
    requires
        is_merge_run(states, calls),
        is_fresh(states[0]),
        does_as_asked(calls),
        merge@ == states.last(),
        call_ensures(MergeOrderedStream::<T>::must_wake, (merge, generation), false),
        0 <= input < states.last().slots.len(),
        states.last().slots[input] is Missing,
    ensures
        exists|a: int, b: int| #[trigger] found_pending_at(calls, a, b, input, generation),
{
    lemma_parked(states, calls, calls.len() as int);
    assert(states.last() == states[calls.len() as int]);
    assert(states.last().parked.contains(input));
    let (a, b) = choose|a: int, b: int|
        a < calls.len() && #[trigger] found_pending_at(
            calls,
            a,
            b,
            input,
            states.last().scan_generation,
        );
    assert(found_pending_at(calls, a, b, input, generation));
}

/// The same of a fallible merge.
pub proof fn law_suspended_fallible_merge_waits_for_every_missing_head<T: Ordered>(
    states: Seq<MergeState<T>>,
    calls: Seq<MergeCall<T>>,
    merge: &TryMergeOrderedStream<T>,
    generation: usize,
    input: int,
)
    requires
        is_merge_run(states, calls),
        is_fresh(states[0]),
        does_as_asked(calls),
        merge@ == states.last(),
        call_ensures(TryMergeOrderedStream::<T>::must_wake, (merge, generation), false),
        0 <= input < states.last().slots.len(),
        states.last().slots[input] is Missing,
    ensures
        exists|a: int, b: int| #[trigger] found_pending_at(calls, a, b, input, generation),
{
    lemma_parked(states, calls, calls.len() as int);
    assert(states.last() == states[calls.len() as int]);
    assert(states.last().parked.contains(input));
    let (a, b) = choose|a: int, b: int|
        a < calls.len() && #[trigger] found_pending_at(
            calls,
            a,
            b,
            input,
            states.last().scan_generation,
        );
    assert(found_pending_at(calls, a, b, input, generation));
}

/// A suspended merge goes on by itself only if it has to: its scan was cut short, which
/// happens only when the poll has visited [`WORK_BUDGET`] inputs, or an input has woken.
pub proof fn law_suspended_merge_wakes_itself_only_to_go_on<T: Ordered>(
    states: Seq<MergeState<T>>,
    calls: Seq<MergeCall<T>>,
    merge: &MergeOrderedStream<T>,
    generation: usize,
)
    requires
        is_merge_run(states, calls),
        is_fresh(states[0]),
        calls.len() > 0,
        next_step(calls.last()) matches Some(step) && step is Suspend,
        merge@ == states.last(),
        call_ensures(MergeOrderedStream::<T>::must_wake, (merge, generation), true),
    ensures
        generation != states.last().scan_generation || (states.last().scan_remaining > 0
            && states.last().work == WORK_BUDGET),
{
    let n = calls.len() - 1;
    lemma_bounds(states, calls, n);
    assert(leads(states[n], calls[n], states[n + 1]));
}

/// A poll makes progress: from the input at which it begins it visits the inputs one after
/// the other, and each visit leaves one input less to be visited by the scan, which begins
/// with all of them. So a scan ends after as many polls as its inputs take budgets.
pub proof fn law_poll_moves_the_scan_on<T: Ordered>(
    states: Seq<MergeState<T>>,
    calls: Seq<MergeCall<T>>,
    b: int,
    m: int,
)
    requires
        is_merge_run(states, calls),
        is_fresh(states[0]),
        states[0].slots.len() <= usize::MAX,
        0 <= b < m <= calls.len(),
        calls[b] is Begin,
        forall|c: int| b < c < m ==> #[trigger] calls[c] is Report,
        forall|c: int|
            b <= c < m ==> (next_step(#[trigger] calls[c]) matches Some(step) && (step is PollInput
                || step is Suspend)),
    ensures
        states[m].work + states[m].scan_remaining == (if states[b].scan_remaining == 0 {
            states[b].slots.len() as int
        } else {
            states[b].scan_remaining
        }),
        states[m].cursor == (if states[b].cursor + states[m].work < states[b].slots.len() {
            states[b].cursor + states[m].work
        } else {
            states[b].cursor + states[m].work - states[b].slots.len()
        }),
        next_step(calls[m - 1]) matches Some(MergeStep::PollInput(i)) ==> states[m].work > 0 && (i + 1
            == states[m].cursor || (i + 1 == states[m].slots.len() && states[m].cursor == 0)),
        next_step(calls[m - 1]) matches Some(MergeStep::Suspend) ==> states[m].scan_remaining == 0
            || states[m].work == WORK_BUDGET,
    decreases m - b,
{
    lemma_bounds(states, calls, b);
    lemma_bounds(states, calls, m - 1);
    let s = states[m - 1];
    let t = states[m];
    let step = next_step(calls[m - 1])->0;
    assert(leads(s, calls[m - 1], t));
    assert(next_step(calls[m - 1]) is Some);
    if s.slots.len() == 0 {
        assert(no_missing(s.slots));
    }
    match calls[m - 1] {
        MergeCall::Begin { generation, .. } => {
            lemma_continues_moves(s.scanning(generation), step, t);
        },
        MergeCall::Report { index, outcome, .. } => {
            let from = match outcome {
                StreamPoll::Item(item) => s.filled(
                    index,
                    Slot::Head { item, key: t.slots[index]->key },
                ),
                StreamPoll::End => s.filled(index, Slot::Done),
                StreamPoll::Pending => s.found_pending(index),
            };
            lemma_continues_moves(from, step, t);
        },
        _ => {},
    }
    if m > b + 1 {
        assert(next_step(calls[b]) is Some);
        law_poll_moves_the_scan_on(states, calls, b, m - 1);
        assert(calls[m - 1] is Report);
    }
}

proof fn lemma_continues_moves<T: Ordered>(from: MergeState<T>, step: MergeStep, t: MergeState<T>)
    requires
        in_bounds(from),
        0 < from.slots.len() <= usize::MAX,
        from.continues(step, t),
        step is PollInput || step is Suspend,
    ensures
        t.slots.len() == from.slots.len(),
        from.work <= t.work,
        t.work + t.scan_remaining == from.work + from.scan_remaining,
        t.cursor == (if from.cursor + (t.work - from.work) < from.slots.len() {
            from.cursor + (t.work - from.work)
        } else {
            from.cursor + (t.work - from.work) - from.slots.len()
        }),
        step matches MergeStep::PollInput(i) ==> t.work > from.work && (i + 1 == t.cursor || (i + 1
            == t.slots.len() && t.cursor == 0)),
        step is Suspend ==> t.scan_remaining == 0 || t.work == WORK_BUDGET,
{
}

/// An input that wakes after a task has registered wakes that task, once, and its wake is
/// seen in the generation; registering does not disturb what was seen.
pub proof fn law_input_wake_reaches_the_registered_task<W>()
    ensures
        forall|wake: ScanWake<W>| #[trigger]
            call_ensures(ScanWake::<W>::new, (), wake) ==> wake.downstream() is None,
        forall|a: &mut ScanWake<W>, waker: W, b: &mut ScanWake<W>, woken: Option<W>|
            #![trigger call_ensures(ScanWake::<W>::register, (a, waker), ()), call_ensures(ScanWake::<W>::wake_by_ref, (b,), woken)]
            call_ensures(ScanWake::<W>::register, (a, waker), ()) && *final(a) == *b && call_ensures(
                ScanWake::<W>::wake_by_ref,
                (b,),
                woken,
            ) ==> woken == Some(waker) && final(a).spec_generation() == a.spec_generation(),
        forall|a: &mut ScanWake<W>, first: Option<W>, b: &mut ScanWake<W>, second: Option<W>|
            #![trigger call_ensures(ScanWake::<W>::wake_by_ref, (a,), first), call_ensures(ScanWake::<W>::wake_by_ref, (b,), second)]
            call_ensures(ScanWake::<W>::wake_by_ref, (a,), first) && *final(a) == *b && call_ensures(
                ScanWake::<W>::wake_by_ref,
                (b,),
                second,
            ) ==> second is None,
        forall|a: &ScanWake<W>, b: &mut ScanWake<W>, woken: Option<W>, c: &ScanWake<W>, before: usize, after: usize|
            #![trigger call_ensures(ScanWake::<W>::generation, (a,), before), call_ensures(ScanWake::<W>::wake_by_ref, (b,), woken), call_ensures(ScanWake::<W>::generation, (c,), after)]
            call_ensures(ScanWake::<W>::generation, (a,), before) && *a == *b && call_ensures(
                ScanWake::<W>::wake_by_ref,
                (b,),
                woken,
            ) && *final(b) == *c && call_ensures(ScanWake::<W>::generation, (c,), after) ==> before
                != after,
{
}

/// After an item is taken only its input is asked again. As soon as that input gives another
/// item or ends, the next item is taken; if it is silent, the merge waits for it, and wakes
/// its own task only if an input has woken since the item was taken.
pub proof fn law_only_the_input_of_the_taken_item_is_asked<T: Ordered>(
    states: Seq<MergeState<T>>,
    calls: Seq<MergeCall<T>>,
    j: int,
    taken: usize,
    index: int,
    outcome: StreamPoll<T>,
    merge: &MergeOrderedStream<T>,
    fallible: &TryMergeOrderedStream<T>,
)
    requires
        is_merge_run(states, calls),
        is_fresh(states[0]),
        states[0].slots.len() <= usize::MAX,
        0 <= j,
        j + 3 <= calls.len(),
        calls[j] matches MergeCall::Select { generation, item } && generation == taken && item is Some,
        calls[j + 1] is Begin,
        calls[j + 2] matches MergeCall::Report { index: i, outcome: o, .. } && i == index && o == outcome,
        merge@ == states[j + 3],
        fallible@ == states[j + 3],
    ensures
        next_step(calls[j + 1]) == Some(MergeStep::PollInput(index as usize)),
        states[j].slots[index] matches Slot::Head { item, .. } && calls[j] == (MergeCall::Select {
            generation: taken,
            item: Some(item),
        }),
        next_step(calls[j + 2]) == Some(
            if outcome is Pending {
                MergeStep::Suspend
            } else {
                MergeStep::Select
            },
        ),
        outcome is Pending ==> forall|generation: usize, wake: bool| #[trigger]
            call_ensures(MergeOrderedStream::<T>::must_wake, (merge, generation), wake) ==> wake == (
            generation != taken),
        outcome is Pending ==> forall|generation: usize, wake: bool| #[trigger]
            call_ensures(TryMergeOrderedStream::<T>::must_wake, (fallible, generation), wake)
                ==> wake == (generation != taken),
{
    let s = states[j];
    let t = states[j + 1];
    let u = states[j + 2];
    lemma_bounds(states, calls, j);
    lemma_bounds(states, calls, j + 2);
    assert(leads(s, calls[j], t));
    assert(leads(t, calls[j + 1], u));
    assert(leads(u, calls[j + 2], states[j + 3]));
    let item = calls[j]->item->0;
    let i = choose|i: int| #[trigger]
        is_selected(s.slots, i) && item == s.slots[i]->item && t == s.emitted(i, taken);
    assert(t.slots[i] is Missing);
    assert(!t.terminated);
    let from = t.scanning(calls[j + 1]->Begin_generation);
    assert(0 < from.reach() && from.slots[from.cursor] is Missing);
    assert(index == i) by {
        if index != i {
            assert(s.slots[index] is Missing);
        }
    }
    assert forall|o: int| 0 <= o < u.slots.len() && o != i implies !(#[trigger] u.slots[o] is Missing) by {
        assert(u.slots[o] == s.slots[o]);
    }
    if outcome is Pending {
        assert(!no_missing(u.slots));
    } else {
        let filled = match outcome {
            StreamPoll::Item(item) => u.filled(
                i,
                Slot::Head { item, key: states[j + 3].slots[i]->key },
            ),
            _ => u.filled(i, Slot::Done),
        };
        assert(no_missing(filled.slots)) by {
            assert forall|o: int| 0 <= o < filled.slots.len() implies !(#[trigger] filled.slots[o] is Missing) by {
                if o != i {
                    assert(u.slots[o] == filled.slots[o]);
                }
            }
        }
    }
}

} // verus!
