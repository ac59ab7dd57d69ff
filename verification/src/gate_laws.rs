use vstd::prelude::*;

use crate::key_order::{key_le, key_lt, lemma_key_order, totally_ordered};
use crate::order_gate::{
    all_have_heads, is_behind_at, lemma_behind_first, lemma_least_unique, GateState, Member,
};

verus! {

/// The frontier never moves backward: once there is one it stays, and passing an
/// item leaves it where it is or moves it forward. It moves exactly when the item
/// does not lie below it, and then to the item's key.
pub proof fn law_frontier_never_moves_backward<K: Ord, W>(s: GateState<K, W>, at: int)
    requires
        totally_ordered::<K>(),
        0 <= at < s.members.len(),
        s.may_pass(at),
    ensures
        s.frontier is Some ==> s.released(at).frontier is Some && key_le(
            s.frontier->0,
            s.released(at).frontier->0,
        ),
        is_behind_at(s, at) ==> s.released(at).frontier == s.frontier,
        !is_behind_at(s, at) ==> s.released(at).frontier == s.members[at].head,
{
    if s.frontier is Some {
        lemma_key_order(s.frontier->0, s.frontier->0, s.frontier->0);
    }
}

/// Joining, leaving, failing, waiting and waking leave the frontier alone, so it
/// is still there for later members when every member has left.
pub proof fn law_only_passing_moves_the_frontier<K: Ord, W>(
    s: GateState<K, W>,
    id: usize,
    at: int,
    member: Member<K, W>,
)
    ensures
        s.registered().frontier == s.frontier,
        s.without(id).frontier == s.frontier,
        s.with(at, member).frontier == s.frontier,
        s.settled().frontier == s.frontier,
{
}

/// An item passes the barrier only as the least head of a complete barrier; of
/// equal heads, the earliest registered passes first.
pub proof fn law_barrier_releases_least_head<K: Ord, W>(s: GateState<K, W>, at: int, other: int)
    requires
        0 <= at < s.members.len(),
        0 <= other < s.members.len(),
        s.may_pass(at),
        !is_behind_at(s, at),
    ensures
        s.members[other].head is Some,
        key_le(s.members[at].head->0, s.members[other].head->0),
        other < at ==> key_lt(s.members[at].head->0, s.members[other].head->0),
{
    assert(s.members[other].head is Some);
}

/// A member without a head keeps every item at or above the frontier back.
pub proof fn law_missing_member_blocks<K: Ord, W>(s: GateState<K, W>, missing: int, at: int)
    requires
        0 <= missing < s.members.len(),
        0 <= at < s.members.len(),
        s.members[missing].head is None,
        !is_behind_at(s, at),
    ensures
        !s.may_pass(at),
{
    assert(!all_have_heads(s.members));
}

/// Of the members whose items do not lie below the frontier, at most one may pass.
pub proof fn law_at_most_one_passes_the_barrier<K: Ord, W>(s: GateState<K, W>, a: int, b: int)
    requires
        s.may_pass(a),
        s.may_pass(b),
        !is_behind_at(s, a),
        !is_behind_at(s, b),
    ensures
        a == b,
{
    lemma_least_unique(s.members, a, b);
}

/// While some item lies below the frontier, the members that may pass are exactly those
/// whose items do.
pub proof fn law_items_below_the_frontier_pass_first<K: Ord, W>(
    s: GateState<K, W>,
    behind: int,
    at: int,
)
    requires
        totally_ordered::<K>(),
        0 <= behind < s.members.len(),
        0 <= at < s.members.len(),
        is_behind_at(s, behind),
    ensures
        s.may_pass(at) <==> is_behind_at(s, at),
{
    lemma_behind_first(s, behind, at);
}

/// A member that a transition lets pass is woken by it if it waits, with the
/// waker of its latest poll.
pub proof fn law_eligible_member_is_woken<K: Ord, W>(s: GateState<K, W>, at: int)
    requires
        0 <= at < s.members.len(),
        s.may_pass(at),
        s.members[at].signal is Some,
    ensures
        s.wakes().contains(s.members[at].signal->0),
        s.settled().members[at].signal is None,
{
    lemma_woken_before(s, at, s.members.len() as int);
}

proof fn lemma_woken_before<K: Ord, W>(s: GateState<K, W>, at: int, n: int)
    requires
        0 <= at < n <= s.members.len(),
        s.may_pass(at),
        s.members[at].signal is Some,
    ensures
        s.wakes_before(n).contains(s.members[at].signal->0),
    decreases n,
{
    let waker = s.members[at].signal->0;
    let wakes = s.wakes_before(n);
    if at == n - 1 {
        assert(wakes.last() == waker);
    } else {
        lemma_woken_before(s, at, n - 1);
        let before = s.wakes_before(n - 1);
        let k = choose|k: int| 0 <= k < before.len() && before[k] == waker;
        assert(wakes[k] == waker);
    }
}

/// Only members that may pass are woken.
pub proof fn law_only_eligible_members_are_woken<K: Ord, W>(s: GateState<K, W>, waker: W)
    requires
        s.wakes().contains(waker),
    ensures
        exists|at: int|
            0 <= at < s.members.len() && #[trigger] s.may_pass(at) && s.members[at].signal == Some(
                waker,
            ),
{
    lemma_woken_may_pass(s, waker, s.members.len() as int);
}

proof fn lemma_woken_may_pass<K: Ord, W>(s: GateState<K, W>, waker: W, n: int)
    requires
        n <= s.members.len(),
        s.wakes_before(n).contains(waker),
    ensures
        exists|at: int|
            0 <= at < n && #[trigger] s.may_pass(at) && s.members[at].signal == Some(waker),
    decreases n,
{
    let wakes = s.wakes_before(n);
    if n > 0 {
        let before = s.wakes_before(n - 1);
        let k = choose|k: int| 0 <= k < wakes.len() && wakes[k] == waker;
        if k < before.len() {
            assert(before[k] == waker);
            lemma_woken_may_pass(s, waker, n - 1);
        } else {
            assert(s.may_pass(n - 1));
        }
    }
}

/// A transition of one member leaves the head and the number of every other
/// member as they are.
pub proof fn law_other_members_are_kept<K: Ord, W>(s: GateState<K, W>, at: int, other: int)
    requires
        0 <= at < s.members.len(),
        0 <= other < s.members.len(),
        at != other,
    ensures
        s.tried(at).members.len() == s.members.len(),
        s.tried(at).members[other].head == s.members[other].head,
        s.tried(at).members[other].id == s.members[other].id,
{
}

} // verus!
