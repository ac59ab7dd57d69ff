use vstd::prelude::*;

use crate::gate_laws::law_eligible_member_is_woken;
use crate::key_order::{key_le, key_lt, lemma_key_order, totally_ordered};
use crate::order_gate::{all_have_heads, is_behind_at, is_least, lemma_place, GateState, Member};

verus! {

/// What one call on an order gate, or on one of its members, amounts to for the order
/// gate. The members' items, of whatever types, are known to it by their keys.
pub enum GateCall<K, W> {
    /// A member joins, under this number.
    Register { id: usize },
    /// The member is polled while it retains no item.
    Await { id: usize, waker: W },
    /// The member is polled while it retains an item, which tries to pass.
    Retry { id: usize, waker: W },
    /// The member's source gave an item with this key, which tries to pass.
    Publish { id: usize, key: K },
    /// The member's source gave an error.
    Fail { id: usize },
    /// The member completes or is dropped.
    Remove { id: usize },
    /// Nothing happens: a source was silent, or the member had left before.
    Idle,
}

impl<K: Ord, W> GateState<K, W> {
    /// The state in which the item of the polled member tries to pass.
    pub open spec fn trying(self, call: GateCall<K, W>) -> Self {
        match call {
            GateCall::Retry { id, waker } => self.with(
                self.place(id),
                Member { signal: Some(waker), ..self.member(id) },
            ),
            GateCall::Publish { id, key } => self.with(
                self.place(id),
                Member { head: Some(key), ..self.member(id) },
            ),
            _ => self,
        }
    }

    /// The key of the item that passes in the call, if one does.
    pub open spec fn passes(self, call: GateCall<K, W>) -> Option<K> {
        match call {
            GateCall::Retry { id, .. } => if self.trying(call).may_pass(self.place(id)) {
                self.trying(call).members[self.place(id)].head
            } else {
                None
            },
            GateCall::Publish { id, .. } => if self.trying(call).may_pass(self.place(id)) {
                self.trying(call).members[self.place(id)].head
            } else {
                None
            },
            _ => None,
        }
    }
}

/// The call leads from one state to the other.
pub open spec fn gate_leads<K: Ord, W>(
    s: GateState<K, W>,
    call: GateCall<K, W>,
    t: GateState<K, W>,
) -> bool {
    match call {
        GateCall::Register { id } => {
            &&& s.next_member_id < usize::MAX
            &&& id == s.next_member_id
            &&& t == s.registered()
        },
        GateCall::Await { id, waker } => {
            &&& s.holds(id, false)
            &&& t == s.with(s.place(id), Member { signal: Some(waker), ..s.member(id) })
        },
        GateCall::Retry { id, .. } => {
            &&& s.holds(id, true)
            &&& t == s.trying(call).tried(s.place(id))
        },
        GateCall::Publish { id, .. } => {
            &&& s.holds(id, false)
            &&& t == s.trying(call).tried(s.place(id))
        },
        GateCall::Fail { id } => {
            &&& s.holds(id, false)
            &&& t == s.with(s.place(id), Member { signal: None, ..s.member(id) })
        },
        GateCall::Remove { id } => {
            &&& s.has(id)
            &&& t == s.without(id).settled()
        },
        GateCall::Idle => t == s,
    }
}

/// A run of calls on a new order gate: each state follows from the one before it.
pub open spec fn is_gate_run<K: Ord, W>(
    states: Seq<GateState<K, W>>,
    calls: Seq<GateCall<K, W>>,
) -> bool {
    &&& states.len() == calls.len() + 1
    &&& states[0].frontier is None
    &&& states[0].next_member_id == 0
    &&& states[0].members.len() == 0
    &&& forall|j: int|
        0 <= j < calls.len() ==> gate_leads(states[j], #[trigger] calls[j], states[j + 1])
}

/// The numbers that were given to members in the run, in their order.
pub open spec fn numbers<K, W>(calls: Seq<GateCall<K, W>>) -> Seq<usize>
    decreases calls.len(),
{
    if calls.len() == 0 {
        Seq::empty()
    } else {
        let before = numbers(calls.drop_last());
        match calls.last() {
            GateCall::Register { id } => before.push(id),
            _ => before,
        }
    }
}

/// The keys of the items that the source of this member gave in the run.
pub open spec fn published_keys<K, W>(calls: Seq<GateCall<K, W>>, member: usize) -> Seq<K>
    decreases calls.len(),
{
    if calls.len() == 0 {
        Seq::empty()
    } else {
        let before = published_keys(calls.drop_last(), member);
        match calls.last() {
            GateCall::Publish { id, key } => if id == member {
                before.push(key)
            } else {
                before
            },
            _ => before,
        }
    }
}

/// The keys of the items that passed in the run, through whichever member.
pub open spec fn passed_keys<K: Ord, W>(
    states: Seq<GateState<K, W>>,
    calls: Seq<GateCall<K, W>>,
) -> Seq<K>
    decreases calls.len(),
{
    if calls.len() == 0 {
        Seq::empty()
    } else {
        let before = passed_keys(states.drop_last(), calls.drop_last());
        match states[calls.len() - 1].passes(calls.last()) {
            Some(key) => before.push(key),
            None => before,
        }
    }
}

/// The keys never decrease.
pub open spec fn nondecreasing<K: Ord>(keys: Seq<K>) -> bool {
    forall|i: int, j: int| 0 <= i < j < keys.len() ==> key_le(#[trigger] keys[i], #[trigger] keys[j])
}

/// The run without its last call is one too.
pub proof fn lemma_shorter_gate_run<K: Ord, W>(
    states: Seq<GateState<K, W>>,
    calls: Seq<GateCall<K, W>>,
)
    requires
        is_gate_run(states, calls),
        calls.len() > 0,
    ensures
        is_gate_run(states.drop_last(), calls.drop_last()),
        gate_leads(states[calls.len() - 1], calls.last(), states.last()),
{
    let before = states.drop_last();
    let earlier = calls.drop_last();
    assert forall|j: int| 0 <= j < earlier.len() implies gate_leads(
        before[j],
        #[trigger] earlier[j],
        before[j + 1],
    ) by {
        assert(earlier[j] == calls[j]);
    }
    assert(calls.last() == calls[calls.len() - 1]);
}

/// What the call does to the members: only the one that it is about changes its head,
/// and nobody changes its number.
pub proof fn lemma_members_after<K: Ord, W>(
    s: GateState<K, W>,
    call: GateCall<K, W>,
    t: GateState<K, W>,
    at: int,
) -> (was: int)
    requires
        s.numbered(),
        gate_leads(s, call, t),
        0 <= at < t.members.len(),
    ensures
        t.numbered(),
        call is Register && at == s.members.len() ==> t.members[at].head is None
            && t.members[at].id == call->Register_id,
        !(call is Register && at == s.members.len()) ==> {
            &&& 0 <= was < s.members.len()
            &&& t.members[at].id == s.members[was].id
            &&& t.members[at].head == s.members[was].head || (match call {
                GateCall::Publish { id, key } => s.members[was].id == id && s.place(id) == was && (
                t.members[at].head is None || t.members[at].head == Some(key)),
                GateCall::Retry { id, .. } => s.members[was].id == id && s.place(id) == was
                    && t.members[at].head is None,
                _ => false,
            })
        },
{
    let was = match call {
        GateCall::Remove { id } => if at < s.place(id) {
            at
        } else {
            at + 1
        },
        _ => at,
    };
    assert forall|j: int| 0 <= j < t.members.len() implies (#[trigger] t.members[j]).id
        < t.next_member_id by {
        let from = match call {
            GateCall::Remove { id } => if j < s.place(id) {
                j
            } else {
                j + 1
            },
            _ => j,
        };
        if from < s.members.len() {
            assert(s.members[from].id < s.next_member_id);
        }
    }
    assert forall|i: int, j: int| 0 <= i < j < t.members.len() implies (#[trigger] t.members[i]).id < (
    #[trigger] t.members[j]).id by {
        let (x, y) = match call {
            GateCall::Remove { id } => (
                if i < s.place(id) {
                    i
                } else {
                    i + 1
                },
                if j < s.place(id) {
                    j
                } else {
                    j + 1
                },
            ),
            _ => (i, j),
        };
        assert(s.members[x].id < s.next_member_id);
        if y < s.members.len() {
            assert(s.members[x].id < s.members[y].id);
        }
    }
    was
}

pub proof fn lemma_numbers<K: Ord, W>(states: Seq<GateState<K, W>>, calls: Seq<GateCall<K, W>>)
    requires
        is_gate_run(states, calls),
    ensures
        states.last().numbered(),
        states.last().next_member_id == numbers(calls).len(),
        forall|n: int| 0 <= n < numbers(calls).len() ==> #[trigger] numbers(calls)[n] == n,
    decreases calls.len(),
{
    if calls.len() > 0 {
        lemma_shorter_gate_run(states, calls);
        lemma_numbers(states.drop_last(), calls.drop_last());
        let s = states[calls.len() - 1];
        let t = states.last();
        if t.members.len() > 0 {
            lemma_members_after(s, calls.last(), t, 0);
        }
    }
}

/// The number that the next member gets never falls.
pub proof fn lemma_next_number_grows<K: Ord, W>(
    states: Seq<GateState<K, W>>,
    calls: Seq<GateCall<K, W>>,
    a: int,
    b: int,
)
    requires
        is_gate_run(states, calls),
        0 <= a <= b < states.len(),
    ensures
        states[a].next_member_id <= states[b].next_member_id,
    decreases b - a,
{
    if a < b {
        lemma_next_number_grows(states, calls, a, b - 1);
        assert(gate_leads(states[b - 1], calls[b - 1], states[b]));
    }
}

/// Whoever joins and leaves in between, each member gets a number that is greater than
/// all that were given before it, so no number is ever given twice.
pub proof fn law_numbers_are_never_reused<K: Ord, W>(
    states: Seq<GateState<K, W>>,
    calls: Seq<GateCall<K, W>>,
    m: int,
    n: int,
)
    requires
        is_gate_run(states, calls),
        0 <= m < n < numbers(calls).len(),
    ensures
        numbers(calls)[m] < numbers(calls)[n],
{
    lemma_numbers(states, calls);
}

/// The active members are some of those that got a number, in the order in which they
/// got it.
pub proof fn law_members_keep_their_numbers<K: Ord, W>(
    states: Seq<GateState<K, W>>,
    calls: Seq<GateCall<K, W>>,
    at: int,
)
    requires
        is_gate_run(states, calls),
        0 <= at < states.last().members.len(),
    ensures
        numbers(calls).contains(states.last().members[at].id),
        forall|other: int|
            at < other < states.last().members.len() ==> states.last().members[at].id < (
            #[trigger] states.last().members[other]).id,
{
    lemma_numbers(states, calls);
    let id = states.last().members[at].id;
    assert(numbers(calls)[id as int] == id);
}

/// Joining adds one member without an item and leaves the frontier and the other
/// members as they are.
pub proof fn law_joining_changes_nobody_else<K: Ord, W>(s: GateState<K, W>, id: usize, t: GateState<K, W>)
    requires
        gate_leads(s, GateCall::Register { id }, t),
    ensures
        t.frontier == s.frontier,
        t.members.len() == s.members.len() + 1,
        t.members.drop_last() == s.members,
        t.members.last().id == id,
        t.members.last().head is None,
        t.members.last().signal is None,
{
    assert(t.members.drop_last() =~= s.members);
}

proof fn lemma_frontier_step<K: Ord, W>(s: GateState<K, W>, call: GateCall<K, W>, t: GateState<K, W>)
    requires
        totally_ordered::<K>(),
        gate_leads(s, call, t),
    ensures
        s.frontier is Some ==> t.frontier is Some && key_le(s.frontier->0, t.frontier->0),
{
    if s.frontier is Some {
        lemma_key_order(s.frontier->0, s.frontier->0, s.frontier->0);
        if let Some(key) = s.passes(call) {
            lemma_key_order(s.frontier->0, key, key);
        }
    }
}

/// Whatever the members do, and whoever joins and leaves, the frontier never moves
/// backward, and once there is one it stays.
pub proof fn law_frontier_only_moves_forward<K: Ord, W>(
    states: Seq<GateState<K, W>>,
    calls: Seq<GateCall<K, W>>,
    a: int,
    b: int,
)
    requires
        totally_ordered::<K>(),
        is_gate_run(states, calls),
        0 <= a <= b < states.len(),
        states[a].frontier is Some,
    ensures
        states[b].frontier is Some,
        key_le(states[a].frontier->0, states[b].frontier->0),
    decreases b - a,
{
    if a < b {
        law_frontier_only_moves_forward(states, calls, a, b - 1);
        assert(gate_leads(states[b - 1], calls[b - 1], states[b]));
        lemma_frontier_step(states[b - 1], calls[b - 1], states[b]);
        lemma_key_order(states[a].frontier->0, states[b - 1].frontier->0, states[b].frontier->0);
    } else {
        lemma_key_order(states[a].frontier->0, states[a].frontier->0, states[a].frontier->0);
    }
}

/// The sources give their items in order, and nobody joins once an item has passed.
pub open spec fn is_ordered_run<K: Ord, W>(
    states: Seq<GateState<K, W>>,
    calls: Seq<GateCall<K, W>>,
) -> bool {
    &&& is_gate_run(states, calls)
    &&& forall|id: usize| nondecreasing(#[trigger] published_keys(calls, id))
    &&& forall|j: int|
        0 <= j < calls.len() && #[trigger] calls[j] is Register ==> states[j].frontier is None
}

proof fn lemma_shorter_ordered_run<K: Ord, W>(
    states: Seq<GateState<K, W>>,
    calls: Seq<GateCall<K, W>>,
)
    requires
        is_ordered_run(states, calls),
        calls.len() > 0,
    ensures
        is_ordered_run(states.drop_last(), calls.drop_last()),
{
    lemma_shorter_gate_run(states, calls);
    let earlier = calls.drop_last();
    assert forall|id: usize| nondecreasing(#[trigger] published_keys(earlier, id)) by {
        let keys = published_keys(earlier, id);
        let all = published_keys(calls, id);
        assert(nondecreasing(all));
        assert forall|i: int, j: int| 0 <= i < j < keys.len() implies key_le(
            #[trigger] keys[i],
            #[trigger] keys[j],
        ) by {
            assert(keys[i] == all[i] && keys[j] == all[j]);
        }
    }
    assert forall|j: int| 0 <= j < earlier.len() && #[trigger] earlier[j] is Register implies states.drop_last()[j].frontier is None by {
        assert(earlier[j] == calls[j]);
    }
}

/// A head is the last key that the member's source gave, and no member's source lies
/// behind the frontier.
spec fn in_step<K: Ord, W>(t: GateState<K, W>, calls: Seq<GateCall<K, W>>, at: int) -> bool {
    let keys = published_keys(calls, t.members[at].id);
    &&& t.members[at].head is Some ==> keys.len() > 0 && t.members[at].head == Some(keys.last())
    &&& t.frontier is Some ==> keys.len() > 0 && key_le(t.frontier->0, keys.last())
}

proof fn lemma_ordered_run<K: Ord, W>(states: Seq<GateState<K, W>>, calls: Seq<GateCall<K, W>>)
    requires
        totally_ordered::<K>(),
        is_ordered_run(states, calls),
    ensures
        states.last().numbered(),
        forall|at: int| 0 <= at < states.last().members.len() ==> #[trigger] in_step(states.last(), calls, at),
        nondecreasing(passed_keys(states, calls)),
        states.last().frontier == (if passed_keys(states, calls).len() == 0 {
            None
        } else {
            Some(passed_keys(states, calls).last())
        }),
    decreases calls.len(),
{
    lemma_numbers(states, calls);
    if calls.len() > 0 {
        lemma_shorter_ordered_run(states, calls);
        lemma_shorter_gate_run(states, calls);
        let before = states.drop_last();
        let earlier = calls.drop_last();
        lemma_ordered_run(before, earlier);
        let s = states[calls.len() - 1];
        let t = states.last();
        let call = calls.last();
        assert(before.last() == s);
        // What tries to pass is the last key of its member, and not behind.
        let p = s.trying(call);
        assert forall|at: int| 0 <= at < s.members.len() implies ({
            let keys = published_keys(calls, #[trigger] p.members[at].id);
            &&& p.members[at].id == s.members[at].id
            &&& p.members[at].head is Some ==> keys.len() > 0 && p.members[at].head == Some(keys.last())
            &&& p.frontier is Some ==> keys.len() > 0 && key_le(p.frontier->0, keys.last())
        }) by {
            assert(in_step(s, earlier, at));
            let id = s.members[at].id;
            let keys = published_keys(calls, id);
            let old_keys = published_keys(earlier, id);
            assert(nondecreasing(keys));
            if call matches GateCall::Publish { id: published, key } && published == id {
                lemma_place(s, id, at);
                if p.frontier is Some {
                    assert(key_le(keys[keys.len() - 2], keys[keys.len() - 1]));
                    assert(old_keys.last() == keys[keys.len() - 2]);
                    lemma_key_order(p.frontier->0, old_keys.last(), keys.last());
                }
            } else {
                assert(keys == old_keys);
            }
        }
        let passed = passed_keys(states, calls);
        let had = passed_keys(before, earlier);
        if let Some(key) = s.passes(call) {
            let id = match call {
                GateCall::Retry { id, .. } => id,
                GateCall::Publish { id, .. } => id,
                _ => 0,
            };
            let at = s.place(id);
            assert(p.members[at].head == Some(key));
            if p.frontier is Some {
                lemma_key_order(p.frontier->0, key, key);
            }
            assert(!is_behind_at(p, at));
            assert(is_least(p.members, at));
            assert(t.frontier == Some(key));
            assert forall|o: int| 0 <= o < p.members.len() implies key_le(
                key,
                published_keys(calls, #[trigger] p.members[o].id).last(),
            ) by {
                assert(p.members[o].head is Some);
            }
            assert forall|i: int, j: int| 0 <= i < j < passed.len() implies key_le(
                #[trigger] passed[i],
                #[trigger] passed[j],
            ) by {
                if j < had.len() {
                    assert(key_le(had[i], had[j]));
                } else {
                    if i < had.len() - 1 {
                        assert(key_le(had[i], had[had.len() - 1]));
                    } else {
                        lemma_key_order(had[i], had[i], had[i]);
                    }
                    lemma_key_order(had[i], had.last(), key);
                }
            }
        } else {
            assert(t.frontier == s.frontier);
        }
        assert forall|at: int| 0 <= at < t.members.len() implies #[trigger] in_step(t, calls, at) by {
            if call is Register && at == s.members.len() {
            } else {
                let was = lemma_members_after(s, call, t, at);
                let id = t.members[at].id;
                assert(p.members[was].id == id);
                if t.members[at].head is Some {
                    assert(t.members[at].head == p.members[was].head);
                }
            }
        }
    }
}

/// While no member joins late, ordered sources pass the order gate in one
/// nondecreasing order, however their polls interleave and whoever leaves early.
pub proof fn law_founding_members_pass_in_order<K: Ord, W>(
    states: Seq<GateState<K, W>>,
    calls: Seq<GateCall<K, W>>,
)
    requires
        totally_ordered::<K>(),
        is_ordered_run(states, calls),
    ensures
        nondecreasing(passed_keys(states, calls)),
{
    lemma_ordered_run(states, calls);
}

/// Which items pass, and what that changes. An item passes exactly if its key lies below
/// the frontier, or if every other member has a head too and none of them comes first:
/// none is smaller, and none of a member that registered earlier is as small. In the
/// second case it becomes the frontier. A member whose item passes is without a head, one
/// whose item does not retains it, and no other member's head changes.
pub proof fn law_what_passes<K: Ord, W>(
    s: GateState<K, W>,
    call: GateCall<K, W>,
    t: GateState<K, W>,
    at: int,
    key: K,
)
    requires
        totally_ordered::<K>(),
        s.numbered(),
        gate_leads(s, call, t),
        0 <= at < s.members.len(),
        match call {
            GateCall::Publish { id, key: published } => s.members[at].id == id && published == key,
            GateCall::Retry { id, .. } => s.members[at].id == id && s.members[at].head == Some(key),
            _ => false,
        },
    ensures
        ({
            let below = s.frontier matches Some(bound) && key_lt(key, bound);
            let first = forall|o: int|
                0 <= o < s.members.len() && o != at ==> (#[trigger] s.members[o]).head is Some
                    && key_le(key, s.members[o].head->0) && (s.members[o].id < s.members[at].id
                    ==> key_lt(key, s.members[o].head->0));
            &&& s.passes(call) == (if below || first {
                Some(key)
            } else {
                None
            })
            &&& t.frontier == (if first && !below {
                Some(key)
            } else {
                s.frontier
            })
            &&& t.next_member_id == s.next_member_id
            &&& t.members.len() == s.members.len()
            &&& t.members[at].id == s.members[at].id
            &&& t.members[at].head == (if below || first {
                None
            } else {
                Some(key)
            })
            &&& forall|o: int|
                0 <= o < s.members.len() && o != at ==> (#[trigger] t.members[o]).id
                    == s.members[o].id && t.members[o].head == s.members[o].head
        }),
{
    lemma_place(s, s.members[at].id, at);
    let p = s.trying(call);
    lemma_key_order(key, key, key);
    assert(p.members[at].head == Some(key));
    let first = forall|o: int|
        0 <= o < s.members.len() && o != at ==> (#[trigger] s.members[o]).head is Some && key_le(
            key,
            s.members[o].head->0,
        ) && (s.members[o].id < s.members[at].id ==> key_lt(key, s.members[o].head->0));
    if first {
        assert forall|o: int| 0 <= o < p.members.len() implies #[trigger] p.members[o].head is Some
            && key_le(key, p.members[o].head->0) && (o < at ==> key_lt(key, p.members[o].head->0)) by {
            if o != at {
                assert(s.members[o].head is Some);
            }
        }
    }
    if all_have_heads(p.members) && is_least(p.members, at) {
        assert forall|o: int| 0 <= o < s.members.len() && o != at implies (
        #[trigger] s.members[o]).head is Some && key_le(key, s.members[o].head->0) && (s.members[o].id
            < s.members[at].id ==> key_lt(key, s.members[o].head->0)) by {
            assert(p.members[o].head is Some);
            if at < o {
                assert(s.members[at].id < s.members[o].id);
            }
        }
    }
}

/// Whom the call wakes.
pub open spec fn gate_wakes<K: Ord, W>(s: GateState<K, W>, call: GateCall<K, W>) -> Seq<W> {
    match call {
        GateCall::Retry { id, .. } => {
            let p = s.trying(call);
            if p.may_pass(s.place(id)) {
                p.released(s.place(id)).wakes()
            } else {
                p.wakes()
            }
        },
        GateCall::Publish { id, .. } => {
            let p = s.trying(call);
            if p.may_pass(s.place(id)) {
                p.released(s.place(id)).wakes()
            } else {
                p.wakes()
            }
        },
        GateCall::Remove { id } => s.without(id).wakes(),
        _ => Seq::empty(),
    }
}

/// The waker that a member waits by is left with it or handed out, unless the call is
/// about that member.
pub proof fn lemma_waker_is_left_or_handed_out<K: Ord, W>(
    s: GateState<K, W>,
    call: GateCall<K, W>,
    t: GateState<K, W>,
    was: int,
    at: int,
)
    requires
        s.numbered(),
        t.numbered(),
        gate_leads(s, call, t),
        0 <= was < s.members.len(),
        0 <= at < t.members.len(),
        t.members[at].id == s.members[was].id,
        match call {
            GateCall::Register { id } => false,
            GateCall::Await { id, .. } => id != s.members[was].id,
            GateCall::Retry { id, .. } => id != s.members[was].id,
            GateCall::Publish { id, .. } => id != s.members[was].id,
            GateCall::Fail { id } => id != s.members[was].id,
            GateCall::Remove { id } => id != s.members[was].id,
            GateCall::Idle => true,
        },
    ensures
        s.members[was].signal matches Some(waker) ==> t.members[at].signal == Some(waker)
            || gate_wakes(s, call).contains(waker),
{
    let before = lemma_members_after(s, call, t, at);
    assert(s.members[before].id == s.members[was].id);
    assert(before == was) by {
        if before < was {
            assert(s.members[before].id < s.members[was].id);
        }
        if was < before {
            assert(s.members[was].id < s.members[before].id);
        }
    }
    if let Some(waker) = s.members[was].signal {
        match call {
            GateCall::Retry { id, .. } => {
                lemma_settled_waker(s, call, id, was, waker);
            },
            GateCall::Publish { id, .. } => {
                lemma_settled_waker(s, call, id, was, waker);
            },
            GateCall::Remove { id } => {
                let p = s.without(id);
                assert(p.members[at] == s.members[was]);
                if p.may_pass(at) {
                    law_eligible_member_is_woken(p, at);
                }
            },
            _ => {},
        }
    }
}

proof fn lemma_settled_waker<K: Ord, W>(
    s: GateState<K, W>,
    call: GateCall<K, W>,
    id: usize,
    was: int,
    waker: W,
)
    requires
        s.numbered(),
        s.has(id),
        call is Retry || call is Publish,
        call matches GateCall::Retry { id: i, .. } ==> i == id,
        call matches GateCall::Publish { id: i, .. } ==> i == id,
        0 <= was < s.members.len(),
        s.members[was].id != id,
        s.members[was].signal == Some(waker),
    ensures
        s.trying(call).tried(s.place(id)).members[was].signal == Some(waker) || gate_wakes(
            s,
            call,
        ).contains(waker),
{
    let p = s.trying(call);
    let at = s.place(id);
    assert(was != at);
    let q = if p.may_pass(at) {
        p.released(at)
    } else {
        p
    };
    assert(q.members[was] == s.members[was]);
    if q.may_pass(was) {
        law_eligible_member_is_woken(q, was);
    }
}

} // verus!
