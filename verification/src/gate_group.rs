use vstd::prelude::*;

use crate::gate_laws::law_only_eligible_members_are_woken;
use crate::gate_order::{
    gate_leads, gate_wakes, is_gate_run, is_ordered_run, law_founding_members_pass_in_order,
    law_frontier_only_moves_forward, lemma_members_after, lemma_next_number_grows, lemma_numbers,
    lemma_waker_is_left_or_handed_out, nondecreasing, passed_keys, published_keys, GateCall,
};
use crate::key_order::{key_le, key_lt, lemma_key_order, totally_ordered};
use crate::merge_ordered::Ordered;
use crate::order_gate::{
    has_left, infallible_turn, is_behind_at, lemma_place, poll_begun, some_waker, source_reported,
    try_source_reported, GateState, GateStep, GatedState, KeyedItem, Member, MemberTurn, OrderGate,
    OrderGatedStream, TryGateStep, TryMemberTurn, TryOrderGatedStream,
};
use crate::poll::{StreamPoll, TryStreamPoll};

verus! {

/// What beginning a poll of the member amounts to for the order gate.
pub open spec fn begin_call<T: Ordered, W>(stream: GatedState<T>, waker: W) -> GateCall<T::Key, W> {
    if stream.done {
        GateCall::Idle
    } else if stream.item is Some {
        GateCall::Retry { id: stream.member_id, waker }
    } else {
        GateCall::Await { id: stream.member_id, waker }
    }
}

/// What reporting a poll of the member's source amounts to for the order gate.
pub open spec fn report_call<T: Ordered, W>(
    stream: GatedState<T>,
    outcome: StreamPoll<KeyedItem<T>>,
) -> GateCall<T::Key, W> {
    match outcome {
        StreamPoll::Item(keyed) => GateCall::Publish { id: stream.member_id, key: keyed.key() },
        StreamPoll::End => GateCall::Remove { id: stream.member_id },
        StreamPoll::Pending => GateCall::Idle,
    }
}

/// What reporting a poll of the fallible member's source amounts to for the order gate.
pub open spec fn try_report_call<T: Ordered, E, W>(
    stream: GatedState<T>,
    outcome: TryStreamPoll<KeyedItem<T>, E>,
) -> GateCall<T::Key, W> {
    match outcome {
        TryStreamPoll::Item(keyed) => GateCall::Publish { id: stream.member_id, key: keyed.key() },
        TryStreamPoll::Failed(_) => GateCall::Fail { id: stream.member_id },
        TryStreamPoll::End => GateCall::Remove { id: stream.member_id },
        TryStreamPoll::Pending => GateCall::Idle,
    }
}

/// What dropping the member amounts to for the order gate.
pub open spec fn leave_call<T: Ordered, W>(stream: GatedState<T>) -> GateCall<T::Key, W> {
    if stream.done {
        GateCall::Idle
    } else {
        GateCall::Remove { id: stream.member_id }
    }
}

/// Beginning a poll of a member, whatever the type of its items, is one call of an
/// order gate's run, and the member emits in it exactly if a key passes.
pub proof fn law_begun_poll_is_a_gate_call<T: Ordered, W>(
    stream: GatedState<T>,
    gate: GateState<T::Key, W>,
    waker: W,
    turn: MemberTurn<T, W>,
    new_stream: GatedState<T>,
    new_gate: GateState<T::Key, W>,
)
    requires
        stream.linked(gate),
        poll_begun(stream, gate, waker, turn, new_stream, new_gate),
    ensures
        gate_leads(gate, begin_call(stream, waker), new_gate),
        turn.step is Emit <==> gate.passes(begin_call(stream, waker)) is Some,
        turn.step matches GateStep::Emit(item) ==> stream.item == Some(item) && gate.passes(
            begin_call(stream, waker),
        ) == gate.member(stream.member_id).head,
{
}

/// Reporting a poll of a member's source is one call of an order gate's run, and the
/// member emits in it exactly if a key passes: the one that was extracted for the item.
pub proof fn law_report_is_a_gate_call<T: Ordered, W>(
    stream: GatedState<T>,
    gate: GateState<T::Key, W>,
    outcome: StreamPoll<KeyedItem<T>>,
    turn: MemberTurn<T, W>,
    new_stream: GatedState<T>,
    new_gate: GateState<T::Key, W>,
)
    requires
        stream.linked(gate),
        !stream.done,
        stream.item is None,
        source_reported(stream, gate, outcome, turn, new_stream, new_gate),
    ensures
        gate_leads(gate, report_call(stream, outcome), new_gate),
        turn.step is Emit <==> gate.passes(report_call::<T, W>(stream, outcome)) is Some,
        turn.step matches GateStep::Emit(item) ==> (outcome matches StreamPoll::Item(keyed)
            && keyed.item() == item && gate.passes(report_call::<T, W>(stream, outcome)) == Some(
            keyed.key(),
        )),
{
}

/// Reporting a poll of a fallible member's source is one call of an order gate's run,
/// and the member emits an item in it exactly if a key passes.
pub proof fn law_fallible_report_is_a_gate_call<T: Ordered, E, W>(
    stream: GatedState<T>,
    gate: GateState<T::Key, W>,
    outcome: TryStreamPoll<KeyedItem<T>, E>,
    turn: TryMemberTurn<T, E, W>,
    new_stream: GatedState<T>,
    new_gate: GateState<T::Key, W>,
)
    requires
        stream.linked(gate),
        !stream.done,
        stream.item is None,
        try_source_reported(stream, gate, outcome, turn, new_stream, new_gate),
    ensures
        gate_leads(gate, try_report_call(stream, outcome), new_gate),
        turn.step is Emit <==> gate.passes(try_report_call::<T, E, W>(stream, outcome)) is Some,
        turn.step matches TryGateStep::Emit(item) ==> (outcome matches TryStreamPoll::Item(keyed)
            && keyed.item() == item && gate.passes(try_report_call::<T, E, W>(stream, outcome))
            == Some(keyed.key())),
{
    if !(outcome is Failed) {
        law_report_is_a_gate_call(
            stream,
            gate,
            match outcome {
                TryStreamPoll::Item(keyed) => StreamPoll::Item(keyed),
                TryStreamPoll::Pending => StreamPoll::Pending,
                _ => StreamPoll::End,
            },
            infallible_turn(turn),
            new_stream,
            new_gate,
        );
    }
}

/// Dropping a member is one call of an order gate's run, in which nothing passes.
pub proof fn law_leaving_is_a_gate_call<T: Ordered, W>(
    stream: GatedState<T>,
    gate: GateState<T::Key, W>,
    member: Option<Member<T::Key, W>>,
    wakes: Seq<W>,
    new_stream: GatedState<T>,
    new_gate: GateState<T::Key, W>,
)
    requires
        stream.linked(gate),
        has_left(stream, gate, member, wakes, new_stream, new_gate),
    ensures
        gate_leads(gate, leave_call(stream), new_gate),
        gate.passes(leave_call(stream)) is None,
{
}

/// An order gate with the members that were registered at it, by their numbers, where
/// the items of all of them have one type. Where they have several, each call is still
/// one of the order gate's own run, as the laws above say, and the laws on that run hold.
pub struct GroupState<T: Ordered, W> {
    pub gate: GateState<T::Key, W>,
    pub streams: Map<usize, GatedState<T>>,
}

/// One call on an order gate or on one of its members, with what it gave.
pub enum GroupCall<T: Ordered, E, W> {
    /// A member is registered, fallible or not.
    Register { id: usize },
    /// A poll of a member begins.
    Begin { id: usize, waker: W, turn: MemberTurn<T, W> },
    /// A poll of a member's source is reported.
    Report { id: usize, outcome: StreamPoll<KeyedItem<T>>, turn: MemberTurn<T, W> },
    /// A poll of a fallible member begins.
    TryBegin { id: usize, waker: W, turn: TryMemberTurn<T, E, W> },
    /// A poll of a fallible member's source is reported.
    TryReport {
        id: usize,
        outcome: TryStreamPoll<KeyedItem<T>, E>,
        turn: TryMemberTurn<T, E, W>,
    },
    /// A member is dropped.
    Leave { id: usize, member: Option<Member<T::Key, W>>, wakes: Seq<W> },
}

impl<T: Ordered, E, W> GroupCall<T, E, W> {
    /// The member that the call is about.
    pub open spec fn member_id(self) -> usize {
        match self {
            GroupCall::Register { id } => id,
            GroupCall::Begin { id, .. } => id,
            GroupCall::Report { id, .. } => id,
            GroupCall::TryBegin { id, .. } => id,
            GroupCall::TryReport { id, .. } => id,
            GroupCall::Leave { id, .. } => id,
        }
    }

    /// What the call amounts to for the order gate.
    pub open spec fn gate_call(self, s: GroupState<T, W>) -> GateCall<T::Key, W> {
        match self {
            GroupCall::Register { id } => GateCall::Register { id },
            GroupCall::Begin { id, waker, .. } => begin_call(s.streams[id], waker),
            GroupCall::Report { id, outcome, .. } => report_call(s.streams[id], outcome),
            GroupCall::TryBegin { id, waker, .. } => begin_call(s.streams[id], waker),
            GroupCall::TryReport { id, outcome, .. } => try_report_call(s.streams[id], outcome),
            GroupCall::Leave { id, .. } => leave_call(s.streams[id]),
        }
    }

    /// The item that a member emits in the call, if one does.
    pub open spec fn emits(self) -> Option<T> {
        match self {
            GroupCall::Begin { turn, .. } => match turn.step {
                GateStep::Emit(item) => Some(item),
                _ => None,
            },
            GroupCall::Report { turn, .. } => match turn.step {
                GateStep::Emit(item) => Some(item),
                _ => None,
            },
            GroupCall::TryBegin { turn, .. } => match turn.step {
                TryGateStep::Emit(item) => Some(item),
                _ => None,
            },
            GroupCall::TryReport { turn, .. } => match turn.step {
                TryGateStep::Emit(item) => Some(item),
                _ => None,
            },
            _ => None,
        }
    }
}

/// The call leads from one state to the other, as its contract says. The source of a
/// member that has left, or that withholds an item, is not polled.
pub open spec fn group_leads<T: Ordered, E, W>(
    s: GroupState<T, W>,
    call: GroupCall<T, E, W>,
    t: GroupState<T, W>,
) -> bool {
    let id = call.member_id();
    &&& t.streams.dom().contains(id)
    &&& t.streams == s.streams.insert(id, t.streams[id])
    &&& t.streams[id].linked(t.gate)
    &&& s.gate.keeps_others(t.gate, id)
    &&& !(call is Register) ==> s.streams.dom().contains(id)
    &&& match call {
        GroupCall::Register { id } => {
            &&& s.gate.next_member_id < usize::MAX
            &&& id == s.gate.next_member_id
            &&& t.gate == s.gate.registered()
            &&& t.streams[id] == (GatedState::<T> { item: None, member_id: id, done: false })
        },
        GroupCall::Begin { id, waker, turn } => poll_begun(
            s.streams[id],
            s.gate,
            waker,
            turn,
            t.streams[id],
            t.gate,
        ),
        GroupCall::Report { id, outcome, turn } => {
            &&& !s.streams[id].done
            &&& s.streams[id].item is None
            &&& source_reported(s.streams[id], s.gate, outcome, turn, t.streams[id], t.gate)
        },
        GroupCall::TryBegin { id, waker, turn } => {
            &&& !(turn.step is Fail)
            &&& poll_begun(
                s.streams[id],
                s.gate,
                waker,
                infallible_turn(turn),
                t.streams[id],
                t.gate,
            )
        },
        GroupCall::TryReport { id, outcome, turn } => {
            &&& !s.streams[id].done
            &&& s.streams[id].item is None
            &&& try_source_reported(s.streams[id], s.gate, outcome, turn, t.streams[id], t.gate)
        },
        GroupCall::Leave { id, member, wakes } => has_left(
            s.streams[id],
            s.gate,
            member,
            wakes,
            t.streams[id],
            t.gate,
        ),
    }
}

/// A run of calls on a new order gate and its members: each state follows from the one
/// before it.
pub open spec fn is_group_run<T: Ordered, E, W>(
    states: Seq<GroupState<T, W>>,
    calls: Seq<GroupCall<T, E, W>>,
) -> bool {
    &&& states.len() == calls.len() + 1
    &&& states[0].gate.frontier is None
    &&& states[0].gate.next_member_id == 0
    &&& states[0].gate.members.len() == 0
    &&& states[0].streams == Map::<usize, GatedState<T>>::empty()
    &&& forall|j: int|
        0 <= j < calls.len() ==> group_leads(states[j], #[trigger] calls[j], states[j + 1])
}

/// The states of the order gate in the run.
pub open spec fn gates<T: Ordered, W>(states: Seq<GroupState<T, W>>) -> Seq<GateState<T::Key, W>> {
    Seq::new(states.len(), |j: int| states[j].gate)
}

/// What the calls amount to for the order gate.
pub open spec fn gate_calls<T: Ordered, E, W>(
    states: Seq<GroupState<T, W>>,
    calls: Seq<GroupCall<T, E, W>>,
) -> Seq<GateCall<T::Key, W>> {
    Seq::new(calls.len(), |j: int| calls[j].gate_call(states[j]))
}

/// The items that the members emitted in the run, in the order of the calls.
pub open spec fn emitted_items<T: Ordered, E, W>(calls: Seq<GroupCall<T, E, W>>) -> Seq<T>
    decreases calls.len(),
{
    if calls.len() == 0 {
        Seq::empty()
    } else {
        let before = emitted_items(calls.drop_last());
        match calls.last().emits() {
            Some(item) => before.push(item),
            None => before,
        }
    }
}

/// The keys that were extracted for the items that the source of this member gave.
pub open spec fn extracted_keys<T: Ordered, E, W>(
    calls: Seq<GroupCall<T, E, W>>,
    member: usize,
) -> Seq<T::Key>
    decreases calls.len(),
{
    if calls.len() == 0 {
        Seq::empty()
    } else {
        let before = extracted_keys(calls.drop_last(), member);
        match calls.last() {
            GroupCall::Report { id, outcome: StreamPoll::Item(keyed), .. } => if id == member {
                before.push(keyed.key())
            } else {
                before
            },
            GroupCall::TryReport { id, outcome: TryStreamPoll::Item(keyed), .. } => if id
                == member {
                before.push(keyed.key())
            } else {
                before
            },
            _ => before,
        }
    }
}

/// Each key was extracted for the item at its place.
pub open spec fn are_keys_of<T: Ordered>(keys: Seq<T::Key>, items: Seq<T>) -> bool {
    &&& keys.len() == items.len()
    &&& forall|i: int|
        0 <= i < items.len() ==> call_ensures(T::order_key, (&#[trigger] items[i],), keys[i])
}

/// The member is known by its number, agrees with the order gate, and its head is the
/// key that was extracted for the item that it withholds.
spec fn is_member_of<T: Ordered, W>(s: GroupState<T, W>, id: usize) -> bool {
    &&& s.streams[id].member_id == id
    &&& s.streams[id].linked(s.gate)
    &&& s.streams[id].item matches Some(item) ==> call_ensures(
        T::order_key,
        (&item,),
        s.gate.member(id).head->0,
    )
}

proof fn lemma_call<T: Ordered, E, W>(
    s: GroupState<T, W>,
    call: GroupCall<T, E, W>,
    t: GroupState<T, W>,
)
    requires
        group_leads(s, call, t),
        !(call is Register) ==> is_member_of(s, call.member_id()),
    ensures
        gate_leads(s.gate, call.gate_call(s), t.gate),
        call.emits() is Some <==> s.gate.passes(call.gate_call(s)) is Some,
        call.emits() matches Some(item) ==> call_ensures(
            T::order_key,
            (&item,),
            s.gate.passes(call.gate_call(s))->0,
        ),
{
    let id = call.member_id();
    let stream = s.streams[id];
    match call {
        GroupCall::Register { .. } => {},
        GroupCall::Begin { id, waker, turn } => {
            law_begun_poll_is_a_gate_call(stream, s.gate, waker, turn, t.streams[id], t.gate);
        },
        GroupCall::Report { id, outcome, turn } => {
            law_report_is_a_gate_call(stream, s.gate, outcome, turn, t.streams[id], t.gate);
        },
        GroupCall::TryBegin { id, waker, turn } => {
            law_begun_poll_is_a_gate_call(
                stream,
                s.gate,
                waker,
                infallible_turn(turn),
                t.streams[id],
                t.gate,
            );
        },
        GroupCall::TryReport { id, outcome, turn } => {
            law_fallible_report_is_a_gate_call(
                stream,
                s.gate,
                outcome,
                turn,
                t.streams[id],
                t.gate,
            );
        },
        GroupCall::Leave { id, member, wakes } => {
            law_leaving_is_a_gate_call(stream, s.gate, member, wakes, t.streams[id], t.gate);
        },
    }
}

proof fn lemma_shorter_group_run<T: Ordered, E, W>(
    states: Seq<GroupState<T, W>>,
    calls: Seq<GroupCall<T, E, W>>,
)
    requires
        is_group_run(states, calls),
        calls.len() > 0,
    ensures
        is_group_run(states.drop_last(), calls.drop_last()),
        group_leads(states[calls.len() - 1], calls.last(), states.last()),
        gates(states.drop_last()) == gates(states).drop_last(),
        gate_calls(states.drop_last(), calls.drop_last()) == gate_calls(states, calls).drop_last(),
{
    let before = states.drop_last();
    let earlier = calls.drop_last();
    assert forall|j: int| 0 <= j < earlier.len() implies group_leads(
        before[j],
        #[trigger] earlier[j],
        before[j + 1],
    ) by {
        assert(earlier[j] == calls[j]);
    }
    assert(calls.last() == calls[calls.len() - 1]);
    assert(gates(before) =~= gates(states).drop_last());
    assert(gate_calls(before, earlier) =~= gate_calls(states, calls).drop_last());
}

#[verifier::spinoff_prover]
#[verifier::rlimit(40)]
proof fn lemma_group_run<T: Ordered, E, W>(
    states: Seq<GroupState<T, W>>,
    calls: Seq<GroupCall<T, E, W>>,
)
    requires
        is_group_run(states, calls),
    ensures
        is_gate_run(gates(states), gate_calls(states, calls)),
        forall|id: usize| #[trigger]
            states.last().streams.dom().contains(id) ==> is_member_of(states.last(), id),
        are_keys_of(passed_keys(gates(states), gate_calls(states, calls)), emitted_items(calls)),
        forall|id: usize| #[trigger]
            published_keys(gate_calls(states, calls), id) == extracted_keys(calls, id),
    decreases calls.len(),
{
    let gs = gates(states);
    let gc = gate_calls(states, calls);
    if calls.len() > 0 {
        lemma_shorter_group_run(states, calls);
        let before = states.drop_last();
        let earlier = calls.drop_last();
        lemma_group_run(before, earlier);
        let n = calls.len() - 1;
        let s = states[n];
        let t = states.last();
        let call = calls.last();
        let id = call.member_id();
        assert(before.last() == s);
        lemma_call(s, call, t);
        assert(gc.last() == call.gate_call(s));
        assert forall|j: int| 0 <= j < gc.len() implies gate_leads(
            gs[j],
            #[trigger] gc[j],
            gs[j + 1],
        ) by {
            if j < n {
                assert(gc.drop_last()[j] == gc[j]);
                assert(gate_leads(gs.drop_last()[j], gc.drop_last()[j], gs.drop_last()[j + 1]));
            }
        }
        lemma_numbers(gs, gc);
        lemma_numbers(gs.drop_last(), gc.drop_last());
        assert forall|other: usize| #[trigger] t.streams.dom().contains(other) implies is_member_of(
            t,
            other,
        ) by {
            if other != id {
                assert(s.streams.dom().contains(other));
                assert(is_member_of(s, other));
                assert(t.streams[other] == s.streams[other]);
                assert(s.gate.has(other) == t.gate.has(other));
                assert(s.gate.holds(other, true) == t.gate.holds(other, true));
                assert(s.gate.holds(other, false) == t.gate.holds(other, false));
            }
            if t.streams[other].item is Some {
                let at = t.gate.place(other);
                let was = lemma_members_after(s.gate, gc.last(), t.gate, at);
                if !(gc.last() is Register && at == s.gate.members.len()) {
                    lemma_place(s.gate, other, was);
                }
            }
        }
        assert forall|member: usize| #[trigger] published_keys(gc, member) == extracted_keys(
            calls,
            member,
        ) by {
            assert(published_keys(gc.drop_last(), member) == extracted_keys(earlier, member));
        }
        let passed = passed_keys(gs, gc);
        let items = emitted_items(calls);
        let had = passed_keys(gs.drop_last(), gc.drop_last());
        assert(gs[n] == s.gate);
        assert forall|i: int| 0 <= i < items.len() implies call_ensures(
            T::order_key,
            (&#[trigger] items[i],),
            passed[i],
        ) by {
            if i < emitted_items(earlier).len() {
                assert(items[i] == emitted_items(earlier)[i]);
                assert(passed[i] == had[i]);
            }
        }
    }
}

/// A run of calls on an order gate and its members is a run of the order gate.
pub proof fn law_group_run_is_a_gate_run<T: Ordered, E, W>(
    states: Seq<GroupState<T, W>>,
    calls: Seq<GroupCall<T, E, W>>,
)
    requires
        is_group_run(states, calls),
    ensures
        is_gate_run(gates(states), gate_calls(states, calls)),
{
    lemma_group_run(states, calls);
}

/// Whatever the members do, and whoever joins and leaves, the frontier never moves
/// backward, and once there is one it stays.
pub proof fn law_group_frontier_only_moves_forward<T: Ordered, E, W>(
    states: Seq<GroupState<T, W>>,
    calls: Seq<GroupCall<T, E, W>>,
    a: int,
    b: int,
)
    requires
        totally_ordered::<T::Key>(),
        is_group_run(states, calls),
        0 <= a <= b < states.len(),
        states[a].gate.frontier is Some,
    ensures
        states[b].gate.frontier is Some,
        key_le(states[a].gate.frontier->0, states[b].gate.frontier->0),
{
    lemma_group_run(states, calls);
    assert(gates(states)[a] == states[a].gate);
    assert(gates(states)[b] == states[b].gate);
    law_frontier_only_moves_forward(gates(states), gate_calls(states, calls), a, b);
}

/// A member that is registered later has a greater number, whoever has left before.
pub proof fn law_later_members_have_greater_numbers<T: Ordered, E, W>(
    states: Seq<GroupState<T, W>>,
    calls: Seq<GroupCall<T, E, W>>,
    a: int,
    b: int,
)
    requires
        is_group_run(states, calls),
        0 <= a < b < calls.len(),
        calls[a] is Register,
        calls[b] is Register,
    ensures
        calls[a]->Register_id < calls[b]->Register_id,
{
    lemma_group_run(states, calls);
    let gs = gates(states);
    let gc = gate_calls(states, calls);
    assert(gc[a] == calls[a].gate_call(states[a]));
    assert(gc[b] == calls[b].gate_call(states[b]));
    lemma_next_number_grows(gs, gc, a + 1, b);
    assert(gate_leads(gs[a], gc[a], gs[a + 1]));
    assert(gate_leads(gs[b], gc[b], gs[b + 1]));
}

/// While no member joins late, the items that the members of ordered sources emit, taken
/// together in the order of the calls, have keys that never decrease, however the polls
/// interleave and whoever leaves early.
pub proof fn law_group_emits_in_order<T: Ordered, E, W>(
    states: Seq<GroupState<T, W>>,
    calls: Seq<GroupCall<T, E, W>>,
)
    requires
        totally_ordered::<T::Key>(),
        is_group_run(states, calls),
        forall|id: usize| nondecreasing(#[trigger] extracted_keys(calls, id)),
        forall|j: int|
            0 <= j < calls.len() && #[trigger] calls[j] is Register
                ==> states[j].gate.frontier is None,
    ensures
        exists|keys: Seq<T::Key>|
            are_keys_of(keys, emitted_items(calls)) && #[trigger] nondecreasing(keys),
{
    lemma_group_run(states, calls);
    let gs = gates(states);
    let gc = gate_calls(states, calls);
    assert forall|id: usize| nondecreasing(#[trigger] published_keys(gc, id)) by {
        assert(nondecreasing(extracted_keys(calls, id)));
    }
    assert forall|j: int| 0 <= j < gc.len() && #[trigger] gc[j] is Register implies gs[j].frontier is None by {
        assert(gc[j] == calls[j].gate_call(states[j]));
        assert(calls[j] is Register);
    }
    assert(is_ordered_run(gs, gc));
    law_founding_members_pass_in_order(gs, gc);
    assert(nondecreasing(passed_keys(gs, gc)));
}

/// Every call on an order gate or on one of its members is one of their run, whichever
/// other members there are, and leaves the order gate consistent.
pub proof fn law_group_calls_are_run_calls<T: Ordered, E, W>()
    ensures
        forall|gate: OrderGate<T::Key, W>| #[trigger]
            call_ensures(OrderGate::<T::Key, W>::new, (), gate) ==> gate@.wf() && is_group_run(
                seq![GroupState::<T, W> { gate: gate@, streams: Map::empty() }],
                Seq::<GroupCall<T, E, W>>::empty(),
            ),
        forall|gate: &OrderGate<T::Key, W>, can: bool| #[trigger]
            call_ensures(OrderGate::<T::Key, W>::can_register, (gate,), can) ==> can == (
            gate@.next_member_id < usize::MAX),
        forall|
            gate: &mut OrderGate<T::Key, W>,
            stream: OrderGatedStream<T>,
            others: Map<usize, GatedState<T>>,
        |
            #![trigger call_ensures(OrderGate::<T::Key, W>::gate::<T>, (gate,), stream), others.dom()]
            call_ensures(OrderGate::<T::Key, W>::gate::<T>, (gate,), stream) && gate@.next_member_id
                < usize::MAX ==> final(gate)@.wf() && group_leads(
                GroupState { gate: gate@, streams: others },
                GroupCall::<T, E, W>::Register { id: stream@.member_id },
                GroupState {
                    gate: final(gate)@,
                    streams: others.insert(stream@.member_id, stream@),
                },
            ),
        forall|
            gate: &mut OrderGate<T::Key, W>,
            stream: TryOrderGatedStream<T>,
            others: Map<usize, GatedState<T>>,
        |
            #![trigger call_ensures(OrderGate::<T::Key, W>::try_gate::<T>, (gate,), stream), others.dom()]
            call_ensures(OrderGate::<T::Key, W>::try_gate::<T>, (gate,), stream)
                && gate@.next_member_id < usize::MAX ==> final(gate)@.wf()
                && group_leads(
                GroupState { gate: gate@, streams: others },
                GroupCall::<T, E, W>::Register { id: stream@.member_id },
                GroupState {
                    gate: final(gate)@,
                    streams: others.insert(stream@.member_id, stream@),
                },
            ),
        forall|
            stream: &mut OrderGatedStream<T>,
            gate: &mut OrderGate<T::Key, W>,
            waker: W,
            turn: MemberTurn<T, W>,
            all: Map<usize, GatedState<T>>,
        |
            #![trigger call_ensures(OrderGatedStream::<T>::begin_poll::<W>, (stream, gate, waker), turn), all.dom()]
            call_ensures(OrderGatedStream::<T>::begin_poll::<W>, (stream, gate, waker), turn)
                && all.dom().contains(stream@.member_id) && all[stream@.member_id] == stream@
                ==> final(gate)@.wf() && group_leads(
                GroupState { gate: gate@, streams: all },
                GroupCall::<T, E, W>::Begin { id: stream@.member_id, waker, turn },
                GroupState {
                    gate: final(gate)@,
                    streams: all.insert(stream@.member_id, final(stream)@),
                },
            ),
        forall|
            stream: &mut OrderGatedStream<T>,
            gate: &mut OrderGate<T::Key, W>,
            outcome: StreamPoll<KeyedItem<T>>,
            turn: MemberTurn<T, W>,
            all: Map<usize, GatedState<T>>,
        |
            #![trigger call_ensures(OrderGatedStream::<T>::source_polled::<W>, (stream, gate, outcome), turn), all.dom()]
            call_ensures(OrderGatedStream::<T>::source_polled::<W>, (stream, gate, outcome), turn)
                && !stream@.done && stream@.item is None && all.dom().contains(stream@.member_id)
                && all[stream@.member_id] == stream@ ==> final(gate)@.wf() && group_leads(
                GroupState { gate: gate@, streams: all },
                GroupCall::<T, E, W>::Report { id: stream@.member_id, outcome, turn },
                GroupState {
                    gate: final(gate)@,
                    streams: all.insert(stream@.member_id, final(stream)@),
                },
            ),
        forall|
            stream: &mut OrderGatedStream<T>,
            gate: &mut OrderGate<T::Key, W>,
            left: (Option<Member<T::Key, W>>, Vec<W>),
            all: Map<usize, GatedState<T>>,
        |
            #![trigger call_ensures(OrderGatedStream::<T>::leave::<W>, (stream, gate), left), all.dom()]
            call_ensures(OrderGatedStream::<T>::leave::<W>, (stream, gate), left)
                && all.dom().contains(stream@.member_id) && all[stream@.member_id] == stream@
                ==> final(gate)@.wf() && group_leads(
                GroupState { gate: gate@, streams: all },
                GroupCall::<T, E, W>::Leave {
                    id: stream@.member_id,
                    member: left.0,
                    wakes: left.1@,
                },
                GroupState {
                    gate: final(gate)@,
                    streams: all.insert(stream@.member_id, final(stream)@),
                },
            ),
        forall|
            stream: &mut TryOrderGatedStream<T>,
            gate: &mut OrderGate<T::Key, W>,
            waker: W,
            turn: TryMemberTurn<T, E, W>,
            all: Map<usize, GatedState<T>>,
        |
            #![trigger call_ensures(TryOrderGatedStream::<T>::begin_poll::<E, W>, (stream, gate, waker), turn), all.dom()]
            call_ensures(TryOrderGatedStream::<T>::begin_poll::<E, W>, (stream, gate, waker), turn)
                && all.dom().contains(stream@.member_id) && all[stream@.member_id] == stream@
                ==> final(gate)@.wf() && group_leads(
                GroupState { gate: gate@, streams: all },
                GroupCall::<T, E, W>::TryBegin { id: stream@.member_id, waker, turn },
                GroupState {
                    gate: final(gate)@,
                    streams: all.insert(stream@.member_id, final(stream)@),
                },
            ),
        forall|
            stream: &mut TryOrderGatedStream<T>,
            gate: &mut OrderGate<T::Key, W>,
            outcome: TryStreamPoll<KeyedItem<T>, E>,
            turn: TryMemberTurn<T, E, W>,
            all: Map<usize, GatedState<T>>,
        |
            #![trigger call_ensures(TryOrderGatedStream::<T>::source_polled::<E, W>, (stream, gate, outcome), turn), all.dom()]
            call_ensures(
                TryOrderGatedStream::<T>::source_polled::<E, W>,
                (stream, gate, outcome),
                turn,
            ) && !stream@.done && stream@.item is None && all.dom().contains(stream@.member_id)
                && all[stream@.member_id] == stream@ ==> final(gate)@.wf() && group_leads(
                GroupState { gate: gate@, streams: all },
                GroupCall::<T, E, W>::TryReport { id: stream@.member_id, outcome, turn },
                GroupState {
                    gate: final(gate)@,
                    streams: all.insert(stream@.member_id, final(stream)@),
                },
            ),
        forall|
            stream: &mut TryOrderGatedStream<T>,
            gate: &mut OrderGate<T::Key, W>,
            left: (Option<Member<T::Key, W>>, Vec<W>),
            all: Map<usize, GatedState<T>>,
        |
            #![trigger call_ensures(TryOrderGatedStream::<T>::leave::<W>, (stream, gate), left), all.dom()]
            call_ensures(TryOrderGatedStream::<T>::leave::<W>, (stream, gate), left)
                && all.dom().contains(stream@.member_id) && all[stream@.member_id] == stream@
                ==> final(gate)@.wf() && group_leads(
                GroupState { gate: gate@, streams: all },
                GroupCall::<T, E, W>::Leave {
                    id: stream@.member_id,
                    member: left.0,
                    wakes: left.1@,
                },
                GroupState {
                    gate: final(gate)@,
                    streams: all.insert(stream@.member_id, final(stream)@),
                },
            ),
{
}

/// What a poll of a member does: one that has left gives the end; one that withholds an
/// item emits it or waits, and keeps it exactly if it waits; any other asks its source. An
/// item of the source is emitted or withheld, an error is emitted, silence makes the member
/// wait, and the end of the source is that of the member, which leaves. One that is dropped
/// leaves too.
pub proof fn law_member_goes_on<T: Ordered, E, W>(
    s: GroupState<T, W>,
    call: GroupCall<T, E, W>,
    t: GroupState<T, W>,
)
    requires
        group_leads(s, call, t),
    ensures
        ({
            let id = call.member_id();
            let before = s.streams[id];
            let after = t.streams[id];
            match call {
                GroupCall::Register { .. } => after.item is None && !after.done,
                GroupCall::Begin { turn, .. } => if before.done {
                    turn.step is Finished && after == before
                } else if before.item is None {
                    turn.step is PollSource && after == before
                } else if turn.step is Emit {
                    turn.step->Emit_0 == before.item->0 && after.item is None && !after.done
                } else {
                    turn.step is Pending && after == before
                },
                GroupCall::TryBegin { turn, .. } => if before.done {
                    turn.step is Finished && after == before
                } else if before.item is None {
                    turn.step is PollSource && after == before
                } else if turn.step is Emit {
                    turn.step->Emit_0 == before.item->0 && after.item is None && !after.done
                } else {
                    turn.step is Pending && after == before
                },
                GroupCall::Report { outcome, turn, .. } => match outcome {
                    StreamPoll::Item(keyed) => !after.done && if turn.step is Emit {
                        turn.step->Emit_0 == keyed.item() && after.item is None
                    } else {
                        turn.step is Pending && after.item == Some(keyed.item())
                    },
                    StreamPoll::End => turn.step is Finished && after.done && after.item is None,
                    StreamPoll::Pending => turn.step is Pending && after == before,
                },
                GroupCall::TryReport { outcome, turn, .. } => match outcome {
                    TryStreamPoll::Item(keyed) => !after.done && if turn.step is Emit {
                        turn.step->Emit_0 == keyed.item() && after.item is None
                    } else {
                        turn.step is Pending && after.item == Some(keyed.item())
                    },
                    TryStreamPoll::Failed(error) => turn.step == TryGateStep::<T, E>::Fail(error)
                        && after == before,
                    TryStreamPoll::End => turn.step is Finished && after.done && after.item is None,
                    TryStreamPoll::Pending => turn.step is Pending && after == before,
                },
                GroupCall::Leave { .. } => after.done && after.item is None,
            }
        }),
{
}

impl<T: Ordered, E, W> GroupCall<T, E, W> {
    /// The wakers that the call hands out.
    pub open spec fn wakes(self) -> Seq<W> {
        match self {
            GroupCall::Register { .. } => Seq::empty(),
            GroupCall::Begin { turn, .. } => turn.wakes@,
            GroupCall::Report { turn, .. } => turn.wakes@,
            GroupCall::TryBegin { turn, .. } => turn.wakes@,
            GroupCall::TryReport { turn, .. } => turn.wakes@,
            GroupCall::Leave { wakes, .. } => wakes,
        }
    }

    /// The waker that the member of this number polls with in the call, if it begins a poll.
    pub open spec fn polls_with(self, member: usize) -> Option<W> {
        match self {
            GroupCall::Begin { id, waker, .. } => if id == member {
                Some(waker)
            } else {
                None
            },
            GroupCall::TryBegin { id, waker, .. } => if id == member {
                Some(waker)
            } else {
                None
            },
            _ => None,
        }
    }

    /// The call asks for the source of its member.
    pub open spec fn asks_source(self) -> bool {
        match self {
            GroupCall::Begin { turn, .. } => turn.step is PollSource,
            GroupCall::TryBegin { turn, .. } => turn.step is PollSource,
            _ => false,
        }
    }
}

/// The member's last call in these calls asked for its source.
pub open spec fn source_asked<T: Ordered, E, W>(
    calls: Seq<GroupCall<T, E, W>>,
    member: usize,
) -> bool
    decreases calls.len(),
{
    if calls.len() == 0 {
        false
    } else if calls.last().member_id() == member {
        calls.last().asks_source()
    } else {
        source_asked(calls.drop_last(), member)
    }
}

/// In the run, the source of a member is polled only when the member has just asked for it.
pub open spec fn does_as_asked<T: Ordered, E, W>(calls: Seq<GroupCall<T, E, W>>) -> bool {
    forall|j: int|
        0 <= j < calls.len() && (#[trigger] calls[j] is Report || calls[j] is TryReport)
            ==> source_asked(calls.take(j), calls[j].member_id())
}

/// The waker of the member's last poll, unless it was handed out since.
pub open spec fn waits_by<T: Ordered, E, W>(
    calls: Seq<GroupCall<T, E, W>>,
    member: usize,
) -> Option<W>
    decreases calls.len(),
{
    if calls.len() == 0 {
        None
    } else {
        let waker = match calls.last().polls_with(member) {
            Some(waker) => Some(waker),
            None => waits_by(calls.drop_last(), member),
        };
        if waker is Some && calls.last().wakes().contains(waker->0) {
            None
        } else {
            waker
        }
    }
}

proof fn lemma_wakes<T: Ordered, E, W>(
    s: GroupState<T, W>,
    call: GroupCall<T, E, W>,
    t: GroupState<T, W>,
)
    requires
        group_leads(s, call, t),
        !(call is Register) ==> is_member_of(s, call.member_id()),
    ensures
        call.wakes() == gate_wakes(s.gate, call.gate_call(s)),
{
    assert(call.wakes() =~= gate_wakes(s.gate, call.gate_call(s)));
}

spec fn keeps_its_waker<T: Ordered, E, W>(
    t: GroupState<T, W>,
    calls: Seq<GroupCall<T, E, W>>,
    id: usize,
) -> bool {
    (t.streams[id].item is Some || source_asked(calls, id)) && !t.streams[id].done && waits_by(
        calls,
        id,
    ) is Some ==> t.gate.member(id).signal == waits_by(calls, id)
}

proof fn lemma_waker_is_kept<T: Ordered, E, W>(
    states: Seq<GroupState<T, W>>,
    calls: Seq<GroupCall<T, E, W>>,
    n: int,
    id: usize,
)
    requires
        is_group_run(states, calls),
        does_as_asked(calls),
        0 <= n <= calls.len(),
        states[n].streams.dom().contains(id),
    ensures
        keeps_its_waker(states[n], calls.take(n), id),
        is_member_of(states[n], id),
        states[n].gate.numbered(),
        source_asked(calls.take(n), id) ==> states[n].streams[id].item is None
            && !states[n].streams[id].done,
    decreases n,
{
    lemma_prefix(states, calls, n);
    lemma_group_run(states.take(n + 1), calls.take(n));
    lemma_numbers(gates(states.take(n + 1)), gate_calls(states.take(n + 1), calls.take(n)));
    if n > 0 {
        let s = states[n - 1];
        let t = states[n];
        let call = calls[n - 1];
        let past = calls.take(n);
        assert(past.drop_last() =~= calls.take(n - 1));
        assert(past.last() == call);
        assert(group_leads(s, call, t));
        lemma_prefix(states, calls, n - 1);
        lemma_group_run(states.take(n), calls.take(n - 1));
        lemma_numbers(gates(states.take(n)), gate_calls(states.take(n), calls.take(n - 1)));
        if s.streams.dom().contains(id) {
            lemma_waker_is_kept(states, calls, n - 1, id);
        }
        if call.member_id() != id {
            assert(s.streams.dom().contains(id));
            assert(t.streams[id] == s.streams[id]);
            lemma_call(s, call, t);
            lemma_wakes(s, call, t);
            if keeps_its_waker(t, past, id) {
            } else {
                let was = s.gate.place(id);
                let at = t.gate.place(id);
                assert(s.gate.has(id));
                assert(t.gate.has(id));
                if call is Register {
                    lemma_place(t.gate, id, was);
                } else {
                    lemma_waker_is_left_or_handed_out(
                        s.gate,
                        call.gate_call(s),
                        t.gate,
                        was,
                        at,
                    );
                }
            }
        } else if call is Register {
        } else {
            assert(s.streams.dom().contains(id));
            lemma_own_waker(s, call, t, calls.take(n - 1));
        }
    }
}

proof fn lemma_own_waker<T: Ordered, E, W>(
    s: GroupState<T, W>,
    call: GroupCall<T, E, W>,
    t: GroupState<T, W>,
    earlier: Seq<GroupCall<T, E, W>>,
)
    requires
        group_leads(s, call, t),
        !(call is Register),
        is_member_of(s, call.member_id()),
        is_member_of(t, call.member_id()),
        s.gate.numbered(),
        t.gate.numbered(),
        keeps_its_waker(s, earlier, call.member_id()),
        call is Report || call is TryReport ==> source_asked(earlier, call.member_id()),
    ensures
        keeps_its_waker(t, earlier.push(call), call.member_id()),
{
    let id = call.member_id();
    let past = earlier.push(call);
    assert(past.drop_last() =~= earlier);
    assert(past.last() == call);
    if !s.streams[id].done {
        let at = s.gate.place(id);
        assert(s.gate.has(id));
        if !t.streams[id].done {
            assert(t.gate.has(id));
            assert(t.gate.members.len() == s.gate.members.len());
            assert(t.gate.members[at].id == id);
            lemma_place(t.gate, id, at);
        }
    }
}

proof fn lemma_prefix<T: Ordered, E, W>(
    states: Seq<GroupState<T, W>>,
    calls: Seq<GroupCall<T, E, W>>,
    n: int,
)
    requires
        is_group_run(states, calls),
        0 <= n <= calls.len(),
    ensures
        is_group_run(states.take(n + 1), calls.take(n)),
        states.take(n + 1).last() == states[n],
        gates(states.take(n + 1)).last() == states[n].gate,
{
    let before = states.take(n + 1);
    let earlier = calls.take(n);
    assert forall|j: int| 0 <= j < earlier.len() implies group_leads(
        before[j],
        #[trigger] earlier[j],
        before[j + 1],
    ) by {
        assert(earlier[j] == calls[j]);
    }
}

/// A member that withholds an item does not wait in vain: as soon as the item may pass,
/// because its key lies below the frontier or because every other member has a head and
/// none of them comes first, the waker of the member's last poll has been handed out.
pub proof fn law_blocked_member_is_woken<T: Ordered, E, W>(
    states: Seq<GroupState<T, W>>,
    calls: Seq<GroupCall<T, E, W>>,
    id: usize,
    at: int,
    a: int,
    b: int,
    waker: W,
)
    requires
        totally_ordered::<T::Key>(),
        is_group_run(states, calls),
        does_as_asked(calls),
        0 <= a < b < states.len(),
        calls[a].polls_with(id) == Some(waker),
        forall|c: int| a < c < b ==> (#[trigger] calls[c]).polls_with(id) is None,
        states[b].gate.wf(),
        states[b].streams.dom().contains(id),
        !states[b].streams[id].done,
        states[b].streams[id].item is Some,
        0 <= at < states[b].gate.members.len(),
        states[b].gate.members[at].id == id,
        states[b].gate.members[at].head matches Some(key) && ((
        states[b].gate.frontier matches Some(bound) && key_lt(key, bound)) || forall|o: int|
            0 <= o < states[b].gate.members.len() && o != at ==> (
            #[trigger] states[b].gate.members[o]).head is Some && key_le(
                key,
                states[b].gate.members[o].head->0,
            ) && (states[b].gate.members[o].id < id ==> key_lt(
                key,
                states[b].gate.members[o].head->0,
            ))),
    ensures
        exists|c: int| a <= c < b && (#[trigger] calls[c]).wakes().contains(waker),
{
    lemma_waker_is_kept(states, calls, b, id);
    let g = states[b].gate;
    lemma_place(g, id, at);
    let key = g.members[at].head->0;
    lemma_key_order(key, key, key);
    assert(g.may_pass(at)) by {
        if !is_behind_at(g, at) {
            assert forall|o: int| 0 <= o < g.members.len() implies #[trigger] g.members[o].head is Some
                && key_le(key, g.members[o].head->0) && (o < at ==> key_lt(
                key,
                g.members[o].head->0,
            )) by {
                if o != at {
                    assert(g.members[o].head is Some);
                    if o < at {
                        assert(g.members[o].id < g.members[at].id);
                    }
                }
            }
        }
    }
    assert(g.members[at].signal is None);
    assert(waits_by(calls.take(b), id) is None);
    lemma_handed_out(calls, id, a, b, waker);
}

proof fn lemma_handed_out<T: Ordered, E, W>(
    calls: Seq<GroupCall<T, E, W>>,
    id: usize,
    a: int,
    b: int,
    waker: W,
)
    requires
        0 <= a < b <= calls.len(),
        calls[a].polls_with(id) == Some(waker),
        forall|c: int| a < c < b ==> (#[trigger] calls[c]).polls_with(id) is None,
    ensures
        waits_by(calls.take(b), id) == Some(waker) || exists|c: int|
            a <= c < b && (#[trigger] calls[c]).wakes().contains(waker),
    decreases b - a,
{
    let past = calls.take(b);
    assert(past.drop_last() =~= calls.take(b - 1));
    assert(past.last() == calls[b - 1]);
    if b > a + 1 {
        lemma_handed_out(calls, id, a, b - 1, waker);
        assert(calls[b - 1].polls_with(id) is None);
    }
    if calls[b - 1].wakes().contains(waker) {
        assert(calls[b - 1].wakes().contains(waker));
    }
}

/// Some member waits by this waker.
pub open spec fn is_held<K: Ord, W>(gate: GateState<K, W>, waker: W) -> bool {
    exists|j: int|
        0 <= j < gate.members.len() && (#[trigger] gate.members[j]).signal == Some(waker)
}

impl<T: Ordered, E, W> GroupCall<T, E, W> {
    /// The call hands this waker out to be dropped: by itself or with its member.
    pub open spec fn drops(self, waker: W) -> bool {
        match self {
            GroupCall::Register { .. } => false,
            GroupCall::Begin { turn, .. } => turn.retired_wakers@.contains(waker) || (
            turn.removed matches Some(member) && member.signal == Some(waker)),
            GroupCall::Report { turn, .. } => turn.retired_wakers@.contains(waker) || (
            turn.removed matches Some(member) && member.signal == Some(waker)),
            GroupCall::TryBegin { turn, .. } => turn.retired_wakers@.contains(waker) || (
            turn.removed matches Some(member) && member.signal == Some(waker)),
            GroupCall::TryReport { turn, .. } => turn.retired_wakers@.contains(waker) || (
            turn.removed matches Some(member) && member.signal == Some(waker)),
            GroupCall::Leave { member, .. } => member matches Some(member) && member.signal == Some(
                waker,
            ),
        }
    }

    /// The key that the call hands out to be dropped.
    pub open spec fn retired_key(self) -> Option<T::Key> {
        match self {
            GroupCall::Begin { turn, .. } => turn.retired_key,
            GroupCall::Report { turn, .. } => turn.retired_key,
            GroupCall::TryBegin { turn, .. } => turn.retired_key,
            GroupCall::TryReport { turn, .. } => turn.retired_key,
            _ => None,
        }
    }

    /// The key under which an item of the member tries to pass in the call.
    pub open spec fn tries(self, s: GroupState<T, W>) -> Option<T::Key> {
        match self {
            GroupCall::Begin { id, .. } => if s.streams[id].item is Some {
                s.gate.member(id).head
            } else {
                None
            },
            GroupCall::TryBegin { id, .. } => if s.streams[id].item is Some {
                s.gate.member(id).head
            } else {
                None
            },
            GroupCall::Report { outcome: StreamPoll::Item(keyed), .. } => Some(keyed.key()),
            GroupCall::TryReport { outcome: TryStreamPoll::Item(keyed), .. } => Some(keyed.key()),
            _ => None,
        }
    }
}

proof fn lemma_some_wakers<W>(a: Option<W>, b: Option<W>, waker: W)
    ensures
        (some_waker(a) + some_waker(b)).contains(waker) <==> a == Some(waker) || b == Some(waker),
        some_waker(a).contains(waker) <==> a == Some(waker),
        some_waker(a) + Seq::<W>::empty() == some_waker(a),
        Seq::<W>::empty() + some_waker(a) == some_waker(a),
{
    let all = some_waker(a) + some_waker(b);
    if a is Some {
        assert(all[0] == a->0);
        assert(some_waker(a)[0] == a->0);
    }
    if b is Some {
        assert(all.last() == b->0);
        assert(all[all.len() - 1] == b->0);
    }
    assert(some_waker(a) + Seq::<W>::empty() =~= some_waker(a));
    assert(Seq::<W>::empty() + some_waker(a) =~= some_waker(a));
}

/// What the run has established before a call and after it.
proof fn lemma_around<T: Ordered, E, W>(
    states: Seq<GroupState<T, W>>,
    calls: Seq<GroupCall<T, E, W>>,
    n: int,
)
    requires
        is_group_run(states, calls),
        0 <= n < calls.len(),
    ensures
        group_leads(states[n], calls[n], states[n + 1]),
        !(calls[n] is Register) ==> is_member_of(states[n], calls[n].member_id()),
        is_member_of(states[n + 1], calls[n].member_id()),
        states[n].gate.numbered(),
        states[n + 1].gate.numbered(),
{
    assert(group_leads(states[n], calls[n], states[n + 1]));
    lemma_prefix(states, calls, n);
    lemma_group_run(states.take(n + 1), calls.take(n));
    lemma_numbers(gates(states.take(n + 1)), gate_calls(states.take(n + 1), calls.take(n)));
    lemma_prefix(states, calls, n + 1);
    lemma_group_run(states.take(n + 2), calls.take(n + 1));
    lemma_numbers(gates(states.take(n + 2)), gate_calls(states.take(n + 2), calls.take(n + 1)));
}

/// No waker is lost: one that a member waits by, or that a member's poll brings along, is
/// waited by afterwards too, unless the call hands it out, to be woken or to be dropped.
#[verifier::spinoff_prover]
pub proof fn law_no_waker_is_lost<T: Ordered, E, W>(
    states: Seq<GroupState<T, W>>,
    calls: Seq<GroupCall<T, E, W>>,
    n: int,
    waker: W,
)
    requires
        is_group_run(states, calls),
        0 <= n < calls.len(),
        is_held(states[n].gate, waker) || (calls[n].polls_with(calls[n].member_id()) == Some(waker)
            && !states[n].streams[calls[n].member_id()].done),
    ensures
        is_held(states[n + 1].gate, waker) || calls[n].wakes().contains(waker) || calls[n].drops(
            waker,
        ),
{
    let s = states[n];
    let t = states[n + 1];
    let call = calls[n];
    let id = call.member_id();
    lemma_around(states, calls, n);
    lemma_call(s, call, t);
    lemma_wakes(s, call, t);
    let gc = call.gate_call(s);
    if is_held(s.gate, waker) {
        let j = choose|j: int|
            0 <= j < s.gate.members.len() && (#[trigger] s.gate.members[j]).signal == Some(waker);
        if call is Register {
            assert(t.gate.members[j].signal == Some(waker));
        } else if s.gate.members[j].id != id {
            let at = if gc is Remove && s.gate.place(id) < j {
                j - 1
            } else {
                j
            };
            assert(s.gate.has(id) || gc is Idle);
            assert(t.gate.members[at].id == s.gate.members[j].id) by {
                if gc is Remove {
                    assert(s.gate.place(id) != j);
                    assert(s.gate.without(id).members[at] == s.gate.members[j]);
                }
            }
            lemma_waker_is_left_or_handed_out(s.gate, gc, t.gate, j, at);
            if t.gate.members[at].signal == Some(waker) {
                assert(is_held(t.gate, waker));
            }
        } else {
            lemma_place(s.gate, id, j);
            lemma_own_waker_is_kept(s, call, t, waker);
        }
    } else {
        lemma_own_waker_is_kept(s, call, t, waker);
    }
}

proof fn lemma_own_waker_is_kept<T: Ordered, E, W>(
    s: GroupState<T, W>,
    call: GroupCall<T, E, W>,
    t: GroupState<T, W>,
    waker: W,
)
    requires
        group_leads(s, call, t),
        !(call is Register),
        is_member_of(s, call.member_id()),
        !s.streams[call.member_id()].done,
        s.gate.member(call.member_id()).signal == Some(waker) || call.polls_with(call.member_id())
            == Some(waker),
    ensures
        is_held(t.gate, waker) || call.wakes().contains(waker) || call.drops(waker),
{
    let id = call.member_id();
    let at = s.gate.place(id);
    let was = s.gate.members[at].signal;
    assert(s.gate.has(id));
    let brought = call.polls_with(id);
    lemma_some_wakers(was, brought, waker);
    lemma_some_wakers(was, None, waker);
    lemma_some_wakers(None, was, waker);
    if at < t.gate.members.len() && t.gate.members[at].signal == Some(waker) {
        assert(is_held(t.gate, waker));
    }
}

/// No waker comes from nowhere: one that a call hands out, to be woken or to be dropped, is
/// one that a member waited by, or that of the poll itself.
#[verifier::spinoff_prover]
pub proof fn law_no_waker_comes_from_nowhere<T: Ordered, E, W>(
    states: Seq<GroupState<T, W>>,
    calls: Seq<GroupCall<T, E, W>>,
    n: int,
    waker: W,
)
    requires
        is_group_run(states, calls),
        0 <= n < calls.len(),
        calls[n].wakes().contains(waker) || calls[n].drops(waker),
    ensures
        is_held(states[n].gate, waker) || calls[n].polls_with(calls[n].member_id()) == Some(waker),
{
    let s = states[n];
    let t = states[n + 1];
    let call = calls[n];
    let id = call.member_id();
    lemma_around(states, calls, n);
    lemma_call(s, call, t);
    lemma_wakes(s, call, t);
    let gc = call.gate_call(s);
    let at = s.gate.place(id);
    let brought = call.polls_with(id);
    if call.wakes().contains(waker) {
        let q = match gc {
            GateCall::Remove { id } => s.gate.without(id),
            _ => if s.gate.trying(gc).may_pass(at) {
                s.gate.trying(gc).released(at)
            } else {
                s.gate.trying(gc)
            },
        };
        law_only_eligible_members_are_woken(q, waker);
        let k = choose|k: int|
            0 <= k < q.members.len() && #[trigger] q.may_pass(k) && q.members[k].signal == Some(
                waker,
            );
        let j = if gc is Remove && at <= k {
            k + 1
        } else {
            k
        };
        if brought != Some(waker) {
            assert(s.gate.members[j].signal == Some(waker));
        }
    } else if !s.streams[id].done {
        let was = s.gate.members[at].signal;
        lemma_some_wakers(was, brought, waker);
        lemma_some_wakers(was, None, waker);
        lemma_some_wakers(None, was, waker);
        if was == Some(waker) {
            assert(is_held(s.gate, waker));
        }
    }
}

/// A member that emits an item or an error waits for nothing, and neither does one that
/// has left.
pub proof fn law_emitting_member_waits_for_nothing<T: Ordered, E, W>(
    states: Seq<GroupState<T, W>>,
    calls: Seq<GroupCall<T, E, W>>,
    n: int,
    at: int,
)
    requires
        is_group_run(states, calls),
        0 <= n < calls.len(),
        calls[n].emits() is Some || (calls[n] matches GroupCall::TryReport { turn, .. }
            && turn.step is Fail) || states[n + 1].streams[calls[n].member_id()].done,
        0 <= at < states[n + 1].gate.members.len(),
        states[n + 1].gate.members[at].id == calls[n].member_id(),
    ensures
        states[n + 1].gate.members[at].signal is None,
{
    let s = states[n];
    let t = states[n + 1];
    let call = calls[n];
    let id = call.member_id();
    lemma_around(states, calls, n);
    lemma_place(t.gate, id, at);
    if !t.streams[id].done {
        lemma_call(s, call, t);
        let was = s.gate.place(id);
        assert(s.gate.has(id));
        assert(t.gate.members.len() == s.gate.members.len());
        assert(t.gate.members[was].id == id);
        lemma_place(t.gate, id, was);
    }
}

/// Keys are given up one for one: of the key of an item that passes and the frontier, one is
/// the frontier afterwards and the other is handed out to be dropped. Where nothing passes,
/// the frontier stays and no key is dropped.
pub proof fn law_passing_item_gives_up_one_key<T: Ordered, E, W>(
    states: Seq<GroupState<T, W>>,
    calls: Seq<GroupCall<T, E, W>>,
    n: int,
)
    requires
        is_group_run(states, calls),
        0 <= n < calls.len(),
    ensures
        ({
            let before = states[n].gate.frontier;
            let after = states[n + 1].gate.frontier;
            let key = calls[n].tries(states[n]);
            if calls[n].emits() is Some {
                &&& key is Some
                &&& (after == key && calls[n].retired_key() == before) || (after == before
                    && calls[n].retired_key() == key)
            } else {
                after == before && calls[n].retired_key() is None
            }
        }),
{
    lemma_around(states, calls, n);
    lemma_call(states[n], calls[n], states[n + 1]);
}

/// Extracting keys changes nothing else: an item is still the same item, an error the same
/// error, and the end and silence are what they were. The key is one that the item gives.
pub proof fn law_keying_keeps_the_outcome<T: Ordered, E>()
    ensures
        forall|item: T, keyed: KeyedItem<T>| #[trigger]
            call_ensures(KeyedItem::<T>::new, (item,), keyed) ==> keyed.item() == item
                && call_ensures(T::order_key, (&item,), keyed.key()),
        forall|given: StreamPoll<T>, outcome: StreamPoll<KeyedItem<T>>| #[trigger]
            call_ensures(StreamPoll::<T>::keyed, (given,), outcome) ==> (outcome is End
                <==> given is End) && (outcome is Pending <==> given is Pending) && (
            outcome matches StreamPoll::Item(keyed) ==> given == StreamPoll::Item(keyed.item())
                && call_ensures(T::order_key, (&keyed.item(),), keyed.key())),
        forall|given: TryStreamPoll<T, E>, outcome: TryStreamPoll<KeyedItem<T>, E>| #[trigger]
            call_ensures(TryStreamPoll::<T, E>::keyed, (given,), outcome) ==> (outcome is End
                <==> given is End) && (outcome is Pending <==> given is Pending) && (
            outcome matches TryStreamPoll::Failed(error) ==> given == TryStreamPoll::<T, E>::Failed(
                error,
            )) && (outcome matches TryStreamPoll::Item(keyed) ==> given == TryStreamPoll::<
                T,
                E,
            >::Item(keyed.item()) && call_ensures(T::order_key, (&keyed.item(),), keyed.key())),
{
}

} // verus!
