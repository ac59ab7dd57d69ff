use vstd::prelude::*;

use crate::key_order::{key_le, key_lt, lemma_key_order, totally_ordered};
use crate::merge_ordered::{is_selected, no_head, no_missing, Ordered, Slot};

verus! {

/// The number of items in all inputs together.
pub open spec fn total_len<A>(inputs: Seq<Seq<A>>) -> nat
    decreases inputs.len(),
{
    if inputs.len() == 0 {
        0
    } else {
        total_len(inputs.drop_last()) + inputs.last().len()
    }
}

/// The first entry of input `i` is the next one of the merge: no first entry is
/// smaller, and no earlier input has an equal one.
pub open spec fn is_front<T: Ordered>(inputs: Seq<Seq<(T, T::Key)>>, i: int) -> bool {
    &&& 0 <= i < inputs.len()
    &&& inputs[i].len() > 0
    &&& forall|j: int|
        0 <= j < inputs.len() && #[trigger] inputs[j].len() > 0 ==> key_le(
            inputs[i][0].1,
            inputs[j][0].1,
        )
    &&& forall|j: int|
        0 <= j < i && #[trigger] inputs[j].len() > 0 ==> key_lt(inputs[i][0].1, inputs[j][0].1)
}

/// The inputs without the first entry of input `i`.
pub open spec fn popped<A>(inputs: Seq<Seq<A>>, i: int) -> Seq<Seq<A>> {
    inputs.update(i, inputs[i].drop_first())
}

pub proof fn lemma_total_len_update<A>(inputs: Seq<Seq<A>>, i: int, input: Seq<A>)
    requires
        0 <= i < inputs.len(),
    ensures
        total_len(inputs.update(i, input)) + inputs[i].len() == total_len(inputs) + input.len(),
    decreases inputs.len(),
{
    let updated = inputs.update(i, input);
    if i == inputs.len() - 1 {
        assert(updated.drop_last() =~= inputs.drop_last());
    } else {
        assert(updated.drop_last() =~= inputs.drop_last().update(i, input));
        lemma_total_len_update(inputs.drop_last(), i, input);
    }
}

/// The ordered merge of complete inputs: the entries in the order in which they
/// are emitted, each with the number of the input that it comes from.
pub open spec fn merged<T: Ordered>(inputs: Seq<Seq<(T, T::Key)>>) -> Seq<(int, (T, T::Key))>
    decreases total_len(inputs),
{
    if exists|i: int| is_front(inputs, i) {
        let i = choose|i: int| is_front(inputs, i);
        proof {
            lemma_total_len_update(inputs, i, inputs[i].drop_first());
        }
        seq![(i, inputs[i][0])] + merged(popped(inputs, i))
    } else {
        Seq::empty()
    }
}

/// The entries of a merge that come from input `i`, in their order.
pub open spec fn from_input<A>(outputs: Seq<(int, A)>, i: int) -> Seq<A>
    decreases outputs.len(),
{
    if outputs.len() == 0 {
        Seq::empty()
    } else if outputs[0].0 == i {
        seq![outputs[0].1] + from_input(outputs.drop_first(), i)
    } else {
        from_input(outputs.drop_first(), i)
    }
}

/// Every input is ordered by a nondecreasing key.
pub open spec fn inputs_ordered<T: Ordered>(inputs: Seq<Seq<(T, T::Key)>>) -> bool {
    forall|i: int, a: int, b: int|
        0 <= i < inputs.len() && 0 <= a <= b < inputs[i].len() ==> key_le(
            (#[trigger] inputs[i][a]).1,
            (#[trigger] inputs[i][b]).1,
        )
}

proof fn lemma_front_unique<T: Ordered>(inputs: Seq<Seq<(T, T::Key)>>, i: int, j: int)
    requires
        is_front(inputs, i),
        is_front(inputs, j),
    ensures
        i == j,
{
    if i < j {
        assert(inputs[i].len() > 0);
        assert(inputs[j].len() > 0);
    } else if j < i {
        assert(inputs[i].len() > 0);
        assert(inputs[j].len() > 0);
    }
}

proof fn lemma_front_exists<T: Ordered>(inputs: Seq<Seq<(T, T::Key)>>, n: int, some: int)
    requires
        totally_ordered::<T::Key>(),
        0 <= some < n <= inputs.len(),
        inputs[some].len() > 0,
    ensures
        exists|i: int| is_front(inputs.take(n), i),
    decreases n,
{
    let upto = inputs.take(n);
    let before = inputs.take(n - 1);
    assert(upto[n - 1] == inputs[n - 1]);
    assert forall|j: int| 0 <= j < n - 1 implies #[trigger] upto[j] == before[j] by {}
    if exists|k: int| 0 <= k < n - 1 && #[trigger] inputs[k].len() > 0 {
        let k = choose|k: int| 0 <= k < n - 1 && #[trigger] inputs[k].len() > 0;
        lemma_front_exists(inputs, n - 1, k);
        let b = choose|i: int| is_front(before, i);
        let last = n - 1;
        let winner = if upto[last].len() > 0 && key_lt(upto[last][0].1, upto[b][0].1) {
            last
        } else {
            b
        };
        assert forall|j: int| 0 <= j < upto.len() && #[trigger] upto[j].len() > 0 implies key_le(
            upto[winner][0].1,
            upto[j][0].1,
        ) && (j < winner ==> key_lt(upto[winner][0].1, upto[j][0].1)) by {
            if j < last {
                assert(before[j].len() > 0);
            }
            lemma_key_order(upto[winner][0].1, upto[b][0].1, upto[j][0].1);
            lemma_key_order(upto[winner][0].1, upto[winner][0].1, upto[j][0].1);
        }
        assert(is_front(upto, winner));
    } else {
        assert(some == n - 1);
        lemma_key_order(upto[some][0].1, upto[some][0].1, upto[some][0].1);
        assert forall|j: int| 0 <= j < upto.len() && #[trigger] upto[j].len() > 0 implies j == some by {
            if j < n - 1 {
                assert(inputs[j].len() > 0);
            }
        }
        assert(is_front(upto, some));
    }
}

/// A merge has a next entry exactly while some input has one.
proof fn lemma_front<T: Ordered>(inputs: Seq<Seq<(T, T::Key)>>)
    requires
        totally_ordered::<T::Key>(),
    ensures
        (exists|i: int| is_front(inputs, i)) <==> (exists|i: int|
            0 <= i < inputs.len() && #[trigger] inputs[i].len() > 0),
{
    if exists|i: int| 0 <= i < inputs.len() && #[trigger] inputs[i].len() > 0 {
        let i = choose|i: int| 0 <= i < inputs.len() && #[trigger] inputs[i].len() > 0;
        lemma_front_exists(inputs, inputs.len() as int, i);
        assert(inputs.take(inputs.len() as int) =~= inputs);
    }
    if exists|i: int| is_front(inputs, i) {
        let i = choose|i: int| is_front(inputs, i);
        assert(inputs[i].len() > 0);
    }
}

proof fn lemma_merged_step<T: Ordered>(inputs: Seq<Seq<(T, T::Key)>>, i: int)
    requires
        is_front(inputs, i),
    ensures
        merged(inputs) == seq![(i, inputs[i][0])] + merged(popped(inputs, i)),
{
    let c = choose|c: int| is_front(inputs, c);
    lemma_front_unique(inputs, i, c);
}

/// The merge is lossless: the entries that come from an input are exactly that
/// input's entries, in their order.
pub proof fn law_merge_keeps_every_input<T: Ordered>(inputs: Seq<Seq<(T, T::Key)>>, input: int)
    requires
        totally_ordered::<T::Key>(),
        0 <= input < inputs.len(),
    ensures
        from_input(merged(inputs), input) == inputs[input],
    decreases total_len(inputs),
{
    lemma_front(inputs);
    if exists|i: int| is_front(inputs, i) {
        let i = choose|i: int| is_front(inputs, i);
        lemma_total_len_update(inputs, i, inputs[i].drop_first());
        let rest = popped(inputs, i);
        law_merge_keeps_every_input(rest, input);
        let out = merged(inputs);
        assert(out.drop_first() =~= merged(rest));
        if i == input {
            assert(seq![inputs[i][0]] + inputs[i].drop_first() =~= inputs[i]);
        }
    } else {
        assert(!(inputs[input].len() > 0));
        assert(inputs[input] =~= Seq::<(T, T::Key)>::empty());
    }
}

proof fn lemma_merged_bounded_below<T: Ordered>(
    inputs: Seq<Seq<(T, T::Key)>>,
    at: int,
    bound: T::Key,
    strict_before: int,
)
    requires
        totally_ordered::<T::Key>(),
        inputs_ordered(inputs),
        0 <= at < merged(inputs).len(),
        forall|j: int|
            0 <= j < inputs.len() && #[trigger] inputs[j].len() > 0 ==> key_le(
                bound,
                inputs[j][0].1,
            ) && (j < strict_before ==> key_lt(bound, inputs[j][0].1)),
    ensures
        0 <= merged(inputs)[at].0 < inputs.len(),
        key_le(bound, merged(inputs)[at].1.1),
        merged(inputs)[at].0 < strict_before ==> key_lt(bound, merged(inputs)[at].1.1),
    decreases total_len(inputs),
{
    let i = choose|i: int| is_front(inputs, i);
    lemma_total_len_update(inputs, i, inputs[i].drop_first());
    assert(inputs[i].len() > 0);
    if at > 0 {
        let rest = popped(inputs, i);
        lemma_popped_ordered(inputs, i);
        assert forall|j: int| 0 <= j < rest.len() && #[trigger] rest[j].len() > 0 implies key_le(
            bound,
            rest[j][0].1,
        ) && (j < strict_before ==> key_lt(bound, rest[j][0].1)) by {
            assert(inputs[j].len() > 0);
            if j == i {
                assert(rest[j][0] == inputs[i][1]);
                assert(key_le(inputs[i][0].1, inputs[i][1].1));
                lemma_key_order(bound, inputs[i][0].1, inputs[i][1].1);
            }
        }
        lemma_merged_bounded_below(rest, at - 1, bound, strict_before);
        assert(merged(inputs)[at] == merged(rest)[at - 1]);
    }
}

proof fn lemma_popped_ordered<T: Ordered>(inputs: Seq<Seq<(T, T::Key)>>, i: int)
    requires
        0 <= i < inputs.len(),
        inputs[i].len() > 0,
        inputs_ordered(inputs),
    ensures
        inputs_ordered(popped(inputs, i)),
{
    let rest = popped(inputs, i);
    assert forall|k: int, a: int, b: int|
        0 <= k < rest.len() && 0 <= a <= b < rest[k].len() implies key_le(
        (#[trigger] rest[k][a]).1,
        (#[trigger] rest[k][b]).1,
    ) by {
        if k == i {
            assert(rest[k][a] == inputs[k][a + 1]);
            assert(rest[k][b] == inputs[k][b + 1]);
        } else {
            assert(rest[k][a] == inputs[k][a]);
            assert(rest[k][b] == inputs[k][b]);
        }
    }
}

/// The merge of ordered inputs is ordered: the keys never decrease, and where a
/// later input's entry comes before an earlier input's, its key is smaller.
/// So entries with equal keys appear in input order.
pub proof fn law_merge_is_ordered_and_stable<T: Ordered>(
    inputs: Seq<Seq<(T, T::Key)>>,
    a: int,
    b: int,
)
    requires
        totally_ordered::<T::Key>(),
        inputs_ordered(inputs),
        0 <= a < b < merged(inputs).len(),
    ensures
        key_le(merged(inputs)[a].1.1, merged(inputs)[b].1.1),
        merged(inputs)[b].0 < merged(inputs)[a].0 ==> key_lt(
            merged(inputs)[a].1.1,
            merged(inputs)[b].1.1,
        ),
    decreases total_len(inputs),
{
    let i = choose|i: int| is_front(inputs, i);
    lemma_total_len_update(inputs, i, inputs[i].drop_first());
    let rest = popped(inputs, i);
    assert(inputs[i].len() > 0);
    lemma_popped_ordered(inputs, i);
    assert(merged(inputs)[b] == merged(rest)[b - 1]);
    if a == 0 {
        let bound = inputs[i][0].1;
        assert forall|j: int| 0 <= j < rest.len() && #[trigger] rest[j].len() > 0 implies key_le(
            bound,
            rest[j][0].1,
        ) && (j < i ==> key_lt(bound, rest[j][0].1)) by {
            assert(inputs[j].len() > 0);
            if j == i {
                assert(rest[j][0] == inputs[i][1]);
                assert(key_le(inputs[i][0].1, inputs[i][1].1));
            }
        }
        lemma_merged_bounded_below(rest, b - 1, bound, i);
    } else {
        assert(merged(inputs)[a] == merged(rest)[a - 1]);
        law_merge_is_ordered_and_stable(rest, a - 1, b - 1);
    }
}

/// At most one head is the one to emit, so selecting it is what `Emit` does.
pub proof fn law_selection_is_unique<T: Ordered>(slots: Seq<Slot<T>>, i: int, j: int)
    requires
        is_selected(slots, i),
        is_selected(slots, j),
    ensures
        i == j,
{
    assert(slots[i] is Head);
    assert(slots[j] is Head);
}

/// What can happen to a merge between construction and completion.
pub enum MergeEvent {
    /// The next item of this input arrives and becomes its head.
    Arrive(int),
    /// This input is found to have completed.
    Finish(int),
    /// This input gives an error in place of an item.
    Fail(int),
    /// The selected head is emitted.
    Emit,
}

/// A merge together with the items that its inputs are still going to give and
/// the entries that it has emitted.
pub struct MergeRun<T: Ordered> {
    pub slots: Seq<Slot<T>>,
    pub upcoming: Seq<Seq<(T, T::Key)>>,
    pub emitted: Seq<(int, (T, T::Key))>,
}

impl<T: Ordered> MergeRun<T> {
    /// A new merge of these inputs.
    pub open spec fn start(inputs: Seq<Seq<(T, T::Key)>>) -> Self {
        MergeRun {
            slots: Seq::new(inputs.len(), |i: int| Slot::Missing),
            upcoming: inputs,
            emitted: Seq::empty(),
        }
    }

    /// `event` can happen now. Only an input without a head is polled, and
    /// nothing is emitted while a head is missing.
    pub open spec fn allows(self, event: MergeEvent) -> bool {
        match event {
            MergeEvent::Arrive(i) => 0 <= i < self.slots.len() && self.slots[i] is Missing
                && self.upcoming[i].len() > 0,
            MergeEvent::Finish(i) => 0 <= i < self.slots.len() && self.slots[i] is Missing
                && self.upcoming[i].len() == 0,
            MergeEvent::Fail(i) => 0 <= i < self.slots.len() && self.slots[i] is Missing,
            MergeEvent::Emit => no_missing(self.slots) && exists|i: int| is_selected(self.slots, i),
        }
    }

    /// The state after `event`.
    pub open spec fn after(self, event: MergeEvent) -> Self {
        match event {
            MergeEvent::Arrive(i) => MergeRun {
                slots: self.slots.update(
                    i,
                    Slot::Head { item: self.upcoming[i][0].0, key: self.upcoming[i][0].1 },
                ),
                upcoming: self.upcoming.update(i, self.upcoming[i].drop_first()),
                ..self
            },
            MergeEvent::Finish(i) => MergeRun { slots: self.slots.update(i, Slot::Done), ..self },
            MergeEvent::Fail(i) => self,
            MergeEvent::Emit => {
                let i = choose|i: int| is_selected(self.slots, i);
                MergeRun {
                    slots: self.slots.update(i, Slot::Missing),
                    emitted: self.emitted.push((i, (self.slots[i]->item, self.slots[i]->key))),
                    ..self
                }
            },
        }
    }

    /// The state after these events.
    pub open spec fn after_all(self, events: Seq<MergeEvent>) -> Self
        decreases events.len(),
    {
        if events.len() == 0 {
            self
        } else {
            self.after_all(events.drop_last()).after(events.last())
        }
    }

    /// These events can happen one after the other.
    pub open spec fn allows_all(self, events: Seq<MergeEvent>) -> bool
        decreases events.len(),
    {
        events.len() > 0 ==> {
            &&& self.allows_all(events.drop_last())
            &&& self.after_all(events.drop_last()).allows(events.last())
        }
    }

    /// What is still to be emitted of each input.
    pub open spec fn rests(self) -> Seq<Seq<(T, T::Key)>> {
        Seq::new(
            self.upcoming.len(),
            |i: int|
                match self.slots[i] {
                    Slot::Head { item, key } => seq![(item, key)] + self.upcoming[i],
                    _ => self.upcoming[i],
                },
        )
    }

    /// An input counts as done only when it has nothing left.
    pub open spec fn consistent(self) -> bool {
        &&& self.slots.len() == self.upcoming.len()
        &&& forall|i: int|
            0 <= i < self.slots.len() && #[trigger] self.slots[i] is Done
                ==> self.upcoming[i].len() == 0
    }
}

proof fn lemma_selected_is_front<T: Ordered>(run: MergeRun<T>, i: int)
    requires
        run.consistent(),
        no_missing(run.slots),
        is_selected(run.slots, i),
    ensures
        is_front(run.rests(), i),
{
    let rests = run.rests();
    assert forall|j: int| 0 <= j < rests.len() && #[trigger] rests[j].len() > 0 implies run.slots[j] is Head
        && rests[j][0].1 == run.slots[j]->key by {
        assert(!(run.slots[j] is Missing));
        assert(!(run.slots[j] is Done));
    }
}

proof fn lemma_run_step<T: Ordered>(run: MergeRun<T>, event: MergeEvent)
    requires
        run.consistent(),
        run.allows(event),
    ensures
        run.after(event).consistent(),
        run.after(event).emitted + merged(run.after(event).rests()) == run.emitted + merged(
            run.rests(),
        ),
{
    let next = run.after(event);
    match event {
        MergeEvent::Arrive(i) => {
            assert forall|j: int| 0 <= j < next.slots.len() && #[trigger] next.slots[j] is Done implies next.upcoming[j].len()
                == 0 by {
                assert(run.slots[j] is Done);
            }
            assert(next.rests()[i] =~= run.rests()[i]);
            assert(next.rests() =~= run.rests());
        },
        MergeEvent::Finish(i) => {
            assert forall|j: int| 0 <= j < next.slots.len() && #[trigger] next.slots[j] is Done implies next.upcoming[j].len()
                == 0 by {
                if j != i {
                    assert(run.slots[j] is Done);
                }
            }
            assert(next.rests() =~= run.rests());
        },
        MergeEvent::Fail(i) => {},
        MergeEvent::Emit => {
            let i = choose|i: int| is_selected(run.slots, i);
            assert forall|j: int| 0 <= j < next.slots.len() && #[trigger] next.slots[j] is Done implies next.upcoming[j].len()
                == 0 by {
                assert(run.slots[j] is Done);
            }
            lemma_selected_is_front(run, i);
            lemma_merged_step(run.rests(), i);
            assert(run.rests()[i].drop_first() =~= run.upcoming[i]);
            assert(next.rests() =~= popped(run.rests(), i));
            assert(run.rests()[i][0] == (run.slots[i]->item, run.slots[i]->key));
            assert(next.emitted + merged(next.rests()) =~= run.emitted + merged(run.rests()));
        },
    }
}

proof fn lemma_run<T: Ordered>(run: MergeRun<T>, events: Seq<MergeEvent>)
    requires
        run.consistent(),
        run.allows_all(events),
    ensures
        run.after_all(events).consistent(),
        run.after_all(events).emitted + merged(run.after_all(events).rests()) == run.emitted
            + merged(run.rests()),
    decreases events.len(),
{
    if events.len() > 0 {
        lemma_run(run, events.drop_last());
        lemma_run_step(run.after_all(events.drop_last()), events.last());
    }
}

/// The merge does not depend on when its inputs give their items, stay silent or
/// fail: at every moment of every run, what was emitted is a prefix of the
/// ordered merge of the complete inputs, and the rest of it is what the merge of
/// the heads and the upcoming items is going to give.
pub proof fn law_merge_is_schedule_independent<T: Ordered>(
    inputs: Seq<Seq<(T, T::Key)>>,
    events: Seq<MergeEvent>,
)
    requires
        MergeRun::start(inputs).allows_all(events),
    ensures
        ({
            let run = MergeRun::start(inputs).after_all(events);
            run.emitted + merged(run.rests()) == merged(inputs)
        }),
{
    let start = MergeRun::start(inputs);
    assert(start.rests() =~= inputs);
    assert(start.emitted + merged(inputs) =~= merged(inputs));
    lemma_run(start, events);
}

/// A merge that has completed has emitted the ordered merge of its inputs.
pub proof fn law_completed_merge_is_complete<T: Ordered>(
    inputs: Seq<Seq<(T, T::Key)>>,
    events: Seq<MergeEvent>,
)
    requires
        MergeRun::start(inputs).allows_all(events),
        no_missing(MergeRun::start(inputs).after_all(events).slots),
        no_head(MergeRun::start(inputs).after_all(events).slots),
    ensures
        MergeRun::start(inputs).after_all(events).emitted == merged(inputs),
{
    let run = MergeRun::start(inputs).after_all(events);
    law_merge_is_schedule_independent(inputs, events);
    lemma_run(MergeRun::start(inputs), events);
    let rests = run.rests();
    assert forall|i: int| 0 <= i < rests.len() implies #[trigger] rests[i].len() == 0 by {
        assert(!(run.slots[i] is Missing));
        assert(!(run.slots[i] is Head));
        assert(run.slots[i] is Done);
    }
    if exists|i: int| is_front(rests, i) {
        let i = choose|i: int| is_front(rests, i);
        assert(rests[i].len() > 0);
    }
    assert(merged(rests) =~= Seq::empty());
    assert(run.emitted + merged(rests) =~= run.emitted);
}

} // verus!
