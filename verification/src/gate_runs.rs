use vstd::prelude::*;

use crate::merge_ordered::Ordered;
use crate::order_gate::{
    infallible_turn, poll_begun, source_reported, try_source_reported, GateState, GateStep,
    GatedState, KeyedItem, MemberTurn, TryGateStep, TryMemberTurn,
};
use crate::poll::{StreamPoll, TryStreamPoll};

verus! {

/// A member together with its order gate.
pub struct MemberState<T: Ordered, W> {
    pub stream: GatedState<T>,
    pub gate: GateState<T::Key, W>,
}

/// One call on a member, with what it gave, or a call on another member.
pub enum MemberCall<T: Ordered, W> {
    /// A poll of the member begins.
    Begin { waker: W, turn: MemberTurn<T, W> },
    /// A poll of the member's source is reported.
    Report { outcome: StreamPoll<KeyedItem<T>>, turn: MemberTurn<T, W> },
    /// Something happens to the order gate through another member.
    Other,
}

/// The call leads from one state to the other. The source of a member that has left,
/// or that withholds an item, is not polled.
pub open spec fn member_leads<T: Ordered, W>(
    s: MemberState<T, W>,
    call: MemberCall<T, W>,
    t: MemberState<T, W>,
) -> bool {
    match call {
        MemberCall::Begin { waker, turn } => poll_begun(
            s.stream,
            s.gate,
            waker,
            turn,
            t.stream,
            t.gate,
        ),
        MemberCall::Report { outcome, turn } => {
            &&& !s.stream.done
            &&& s.stream.item is None
            &&& source_reported(s.stream, s.gate, outcome, turn, t.stream, t.gate)
        },
        MemberCall::Other => t.stream == s.stream,
    }
}

/// A run of calls from the registration of the member until it is given up: each state
/// follows from the one before it.
pub open spec fn is_member_run<T: Ordered, W>(
    states: Seq<MemberState<T, W>>,
    calls: Seq<MemberCall<T, W>>,
) -> bool {
    &&& states.len() == calls.len() + 1
    &&& states[0].stream.item is None
    &&& forall|j: int|
        0 <= j < calls.len() ==> member_leads(states[j], #[trigger] calls[j], states[j + 1])
}

/// The items that the member's source gave in the run.
pub open spec fn pulled<T: Ordered, W>(calls: Seq<MemberCall<T, W>>) -> Seq<T>
    decreases calls.len(),
{
    if calls.len() == 0 {
        Seq::empty()
    } else {
        let before = pulled(calls.drop_last());
        match calls.last() {
            MemberCall::Report { outcome: StreamPoll::Item(keyed), .. } => before.push(keyed.item()),
            _ => before,
        }
    }
}

/// The item that the call makes the member emit.
pub open spec fn emits<T: Ordered, W>(call: MemberCall<T, W>) -> Option<T> {
    match call {
        MemberCall::Begin { turn, .. } => match turn.step {
            GateStep::Emit(item) => Some(item),
            _ => None,
        },
        MemberCall::Report { turn, .. } => match turn.step {
            GateStep::Emit(item) => Some(item),
            _ => None,
        },
        MemberCall::Other => None,
    }
}

/// The items that the member emitted in the run.
pub open spec fn passed_on<T: Ordered, W>(calls: Seq<MemberCall<T, W>>) -> Seq<T>
    decreases calls.len(),
{
    if calls.len() == 0 {
        Seq::empty()
    } else {
        let before = passed_on(calls.drop_last());
        match emits(calls.last()) {
            Some(item) => before.push(item),
            None => before,
        }
    }
}

/// The item that is withheld, if any.
pub open spec fn withheld<T>(stream: GatedState<T>) -> Seq<T> {
    match stream.item {
        Some(item) => seq![item],
        None => Seq::empty(),
    }
}

/// Whatever the other members do, a member emits what its source gave, in order,
/// without loss or repetition: only the last item can still be withheld.
pub proof fn law_member_emits_what_its_source_gave<T: Ordered, W>(
    states: Seq<MemberState<T, W>>,
    calls: Seq<MemberCall<T, W>>,
)
    requires
        is_member_run(states, calls),
    ensures
        pulled(calls) == passed_on(calls) + withheld(states.last().stream),
        passed_on(calls).is_prefix_of(pulled(calls)),
    decreases calls.len(),
{
    if calls.len() == 0 {
        assert(pulled(calls) =~= passed_on(calls) + withheld(states.last().stream));
    } else {
        let n = calls.len() - 1;
        let before = states.drop_last();
        let earlier = calls.drop_last();
        assert forall|j: int| 0 <= j < earlier.len() implies member_leads(
            before[j],
            #[trigger] earlier[j],
            before[j + 1],
        ) by {
            assert(earlier[j] == calls[j]);
        }
        law_member_emits_what_its_source_gave(before, earlier);
        let t = states[n + 1].stream;
        assert(member_leads(states[n], calls[n], states[n + 1]));
        assert(pulled(calls) =~= passed_on(calls) + withheld(t));
    }
}

/// A member that withholds an item, or that has left, does not ask for its source; and
/// one that has left stays completed.
pub proof fn law_withholding_member_does_not_ask_its_source<T: Ordered, W>(
    s: MemberState<T, W>,
    waker: W,
    turn: MemberTurn<T, W>,
    t: MemberState<T, W>,
)
    requires
        member_leads(s, MemberCall::Begin { waker, turn }, t),
    ensures
        s.stream.item is Some || s.stream.done ==> !(turn.step is PollSource),
        s.stream.done ==> turn.step is Finished && t == s,
{
}

/// After its end a member stays completed: every later poll gives the end, and its
/// source is not polled again.
pub proof fn law_left_member_stays_completed<T: Ordered, W>(
    states: Seq<MemberState<T, W>>,
    calls: Seq<MemberCall<T, W>>,
    a: int,
    b: int,
)
    requires
        is_member_run(states, calls),
        0 <= a <= b < calls.len(),
        states[a].stream.done,
    ensures
        !(calls[b] is Report),
        calls[b] matches MemberCall::Begin { turn, .. } ==> turn.step is Finished,
        states[b + 1].stream.done,
    decreases b - a,
{
    if a < b {
        law_left_member_stays_completed(states, calls, a, b - 1);
    }
    assert(member_leads(states[b], calls[b], states[b + 1]));
}

/// One call on a fallible member, with what it gave, or a call on another member.
pub enum TryMemberCall<T: Ordered, E, W> {
    /// A poll of the member begins.
    Begin { waker: W, turn: TryMemberTurn<T, E, W> },
    /// A poll of the member's source is reported.
    Report { outcome: TryStreamPoll<KeyedItem<T>, E>, turn: TryMemberTurn<T, E, W> },
    /// Something happens to the order gate through another member.
    Other,
}

/// The call leads from one state to the other.
pub open spec fn try_member_leads<T: Ordered, E, W>(
    s: MemberState<T, W>,
    call: TryMemberCall<T, E, W>,
    t: MemberState<T, W>,
) -> bool {
    match call {
        TryMemberCall::Begin { waker, turn } => {
            &&& !(turn.step is Fail)
            &&& poll_begun(s.stream, s.gate, waker, infallible_turn(turn), t.stream, t.gate)
        },
        TryMemberCall::Report { outcome, turn } => {
            &&& !s.stream.done
            &&& s.stream.item is None
            &&& try_source_reported(s.stream, s.gate, outcome, turn, t.stream, t.gate)
        },
        TryMemberCall::Other => t.stream == s.stream,
    }
}

/// A run of calls from the registration of the fallible member until it is given up.
pub open spec fn is_try_member_run<T: Ordered, E, W>(
    states: Seq<MemberState<T, W>>,
    calls: Seq<TryMemberCall<T, E, W>>,
) -> bool {
    &&& states.len() == calls.len() + 1
    &&& states[0].stream.item is None
    &&& forall|j: int|
        0 <= j < calls.len() ==> try_member_leads(states[j], #[trigger] calls[j], states[j + 1])
}

/// The results that the fallible member's source gave in the run.
pub open spec fn try_pulled<T: Ordered, E, W>(calls: Seq<TryMemberCall<T, E, W>>) -> Seq<Result<T, E>>
    decreases calls.len(),
{
    if calls.len() == 0 {
        Seq::empty()
    } else {
        let before = try_pulled(calls.drop_last());
        match calls.last() {
            TryMemberCall::Report { outcome: TryStreamPoll::Item(keyed), .. } => before.push(
                Ok(keyed.item()),
            ),
            TryMemberCall::Report { outcome: TryStreamPoll::Failed(error), .. } => before.push(
                Err(error),
            ),
            _ => before,
        }
    }
}

/// The result that the step makes the fallible member emit.
pub open spec fn try_emits<T, E>(step: TryGateStep<T, E>) -> Option<Result<T, E>> {
    match step {
        TryGateStep::Emit(item) => Some(Ok(item)),
        TryGateStep::Fail(error) => Some(Err(error)),
        _ => None,
    }
}

/// The results that the fallible member emitted in the run.
pub open spec fn try_passed_on<T: Ordered, E, W>(calls: Seq<TryMemberCall<T, E, W>>) -> Seq<
    Result<T, E>,
>
    decreases calls.len(),
{
    if calls.len() == 0 {
        Seq::empty()
    } else {
        let before = try_passed_on(calls.drop_last());
        let emitted = match calls.last() {
            TryMemberCall::Begin { turn, .. } => try_emits(turn.step),
            TryMemberCall::Report { turn, .. } => try_emits(turn.step),
            TryMemberCall::Other => None,
        };
        match emitted {
            Some(result) => before.push(result),
            None => before,
        }
    }
}

/// Whatever the other members do, a fallible member emits the successes and errors that
/// its source gave, in order, without loss or repetition: only a last success can still
/// be withheld.
pub proof fn law_fallible_member_emits_what_its_source_gave<T: Ordered, E, W>(
    states: Seq<MemberState<T, W>>,
    calls: Seq<TryMemberCall<T, E, W>>,
)
    requires
        is_try_member_run(states, calls),
    ensures
        try_pulled(calls) == try_passed_on(calls) + (match states.last().stream.item {
            Some(item) => seq![Ok::<T, E>(item)],
            None => Seq::empty(),
        }),
        try_passed_on(calls).is_prefix_of(try_pulled(calls)),
    decreases calls.len(),
{
    if calls.len() == 0 {
        assert(try_pulled(calls) =~= try_passed_on(calls));
    } else {
        let n = calls.len() - 1;
        let before = states.drop_last();
        let earlier = calls.drop_last();
        assert forall|j: int| 0 <= j < earlier.len() implies try_member_leads(
            before[j],
            #[trigger] earlier[j],
            before[j + 1],
        ) by {
            assert(earlier[j] == calls[j]);
        }
        law_fallible_member_emits_what_its_source_gave(before, earlier);
        let t = states[n + 1].stream;
        assert(try_member_leads(states[n], calls[n], states[n + 1]));
        assert(try_pulled(calls) =~= try_passed_on(calls) + (match t.item {
            Some(item) => seq![Ok::<T, E>(item)],
            None => Seq::empty(),
        }));
    }
}

/// A fallible member that withholds an item, or that has left, does not ask for its
/// source; and one that has left stays completed.
pub proof fn law_withholding_fallible_member_does_not_ask_its_source<T: Ordered, E, W>(
    s: MemberState<T, W>,
    waker: W,
    turn: TryMemberTurn<T, E, W>,
    t: MemberState<T, W>,
)
    requires
        try_member_leads(s, TryMemberCall::Begin { waker, turn }, t),
    ensures
        s.stream.item is Some || s.stream.done ==> !(turn.step is PollSource),
        s.stream.done ==> turn.step is Finished && t == s,
{
}

/// After its end a fallible member stays completed, and its source is not polled again.
pub proof fn law_left_fallible_member_stays_completed<T: Ordered, E, W>(
    states: Seq<MemberState<T, W>>,
    calls: Seq<TryMemberCall<T, E, W>>,
    a: int,
    b: int,
)
    requires
        is_try_member_run(states, calls),
        0 <= a <= b < calls.len(),
        states[a].stream.done,
    ensures
        !(calls[b] is Report),
        calls[b] matches TryMemberCall::Begin { turn, .. } ==> turn.step is Finished,
        states[b + 1].stream.done,
    decreases b - a,
{
    if a < b {
        law_left_fallible_member_stays_completed(states, calls, a, b - 1);
    }
    assert(try_member_leads(states[b], calls[b], states[b + 1]));
}

} // verus!
