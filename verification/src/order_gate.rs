use vstd::prelude::*;

use crate::key_order::{key_le, key_less, key_lt, lemma_key_order, totally_ordered};
use crate::merge_ordered::Ordered;
use crate::poll::{StreamPoll, TryStreamPoll};

verus! {

/// One active member of a gate.
pub struct Member<K, W> {
    /// The registration number; later members have larger ones.
    pub id: usize,
    /// The key of the item that the member retains, if it retains one.
    pub head: Option<K>,
    /// The waker of the member's latest poll, while it waits to be woken.
    pub signal: Option<W>,
}

/// The mathematical state of a gate.
pub struct GateState<K, W> {
    /// The largest key that was released past the barrier.
    pub frontier: Option<K>,
    /// The number that the next member gets.
    pub next_member_id: int,
    /// The active members, in the order of their registration.
    pub members: Seq<Member<K, W>>,
}

/// The waker, if there is one.
pub open spec fn some_waker<W>(signal: Option<W>) -> Seq<W> {
    match signal {
        Some(waker) => seq![waker],
        None => Seq::empty(),
    }
}

/// `key` lies below the frontier.
pub open spec fn is_behind<K: Ord>(frontier: Option<K>, key: K) -> bool {
    frontier matches Some(bound) && key_lt(key, bound)
}

/// The member at `at` retains an item whose key lies below the frontier.
pub open spec fn is_behind_at<K: Ord, W>(s: GateState<K, W>, at: int) -> bool {
    s.members[at].head matches Some(key) && is_behind(s.frontier, key)
}

/// Every active member retains a head.
pub open spec fn all_have_heads<K, W>(members: Seq<Member<K, W>>) -> bool {
    forall|j: int| 0 <= j < members.len() ==> #[trigger] members[j].head is Some
}

/// The head of the member at `at` is the smallest one; of equal heads, the
/// earliest member's.
pub open spec fn is_least<K: Ord, W>(members: Seq<Member<K, W>>, at: int) -> bool {
    &&& 0 <= at < members.len()
    &&& members[at].head is Some
    &&& forall|j: int|
        0 <= j < members.len() && #[trigger] members[j].head is Some ==> key_le(
            members[at].head->0,
            members[j].head->0,
        )
    &&& forall|j: int|
        0 <= j < at && #[trigger] members[j].head is Some ==> key_lt(
            members[at].head->0,
            members[j].head->0,
        )
}

impl<K: Ord, W> GateState<K, W> {
    /// There is a member with this number.
    pub open spec fn has(self, id: usize) -> bool {
        exists|at: int| 0 <= at < self.members.len() && #[trigger] self.members[at].id == id
    }

    /// The place of the member with this number.
    pub open spec fn place(self, id: usize) -> int {
        choose|at: int| 0 <= at < self.members.len() && #[trigger] self.members[at].id == id
    }

    /// The member with this number.
    pub open spec fn member(self, id: usize) -> Member<K, W> {
        self.members[self.place(id)]
    }

    /// The member with this number is active, and retains an item or not.
    pub open spec fn holds(self, id: usize, item: bool) -> bool {
        self.has(id) && (item <==> self.member(id).head is Some)
    }

    /// Who is active besides the member with this number, and who of them retains
    /// an item, is the same afterwards.
    pub open spec fn keeps_others(self, after: Self, id: usize) -> bool {
        &&& forall|other: usize|
            #![trigger self.has(other)]
            #![trigger after.has(other)]
            other != id ==> self.has(other) == after.has(other)
        &&& forall|other: usize, item: bool|
            #![trigger self.holds(other, item)]
            #![trigger after.holds(other, item)]
            other != id ==> self.holds(other, item) == after.holds(other, item)
    }

    /// The member at `at` may pass its item: it lies below the frontier, or every
    /// member has a head and its own is the least.
    pub open spec fn may_pass(self, at: int) -> bool {
        &&& self.members[at].head is Some
        &&& is_behind_at(self, at) || (all_have_heads(self.members) && is_least(self.members, at))
    }

    /// The members are numbered in the order of their registration.
    pub open spec fn numbered(self) -> bool {
        &&& 0 <= self.next_member_id <= usize::MAX
        &&& forall|j: int|
            0 <= j < self.members.len() ==> (#[trigger] self.members[j]).id < self.next_member_id
        &&& forall|i: int, j: int|
            0 <= i < j < self.members.len() ==> (#[trigger] self.members[i]).id < (
            #[trigger] self.members[j]).id
    }

    /// No member that may pass still waits to be woken.
    pub open spec fn no_wake_owed(self) -> bool {
        forall|at: int|
            0 <= at < self.members.len() && #[trigger] self.may_pass(at)
                ==> self.members[at].signal is None
    }

    /// The wakers of the members before place `n` that may pass, in their order.
    pub open spec fn wakes_before(self, n: int) -> Seq<W>
        decreases n,
    {
        if n <= 0 {
            Seq::empty()
        } else if self.may_pass(n - 1) && self.members[n - 1].signal is Some {
            self.wakes_before(n - 1).push(self.members[n - 1].signal->0)
        } else {
            self.wakes_before(n - 1)
        }
    }

    /// The wakers of the members that may pass, in the order of registration.
    pub open spec fn wakes(self) -> Seq<W> {
        self.wakes_before(self.members.len() as int)
    }

    /// The state after every member that may pass has been woken.
    pub open spec fn settled(self) -> Self {
        GateState {
            members: Seq::new(
                self.members.len(),
                |at: int|
                    if self.may_pass(at) {
                        Member { signal: None, ..self.members[at] }
                    } else {
                        self.members[at]
                    },
            ),
            ..self
        }
    }

    /// The state with this member at `at`.
    pub open spec fn with(self, at: int, member: Member<K, W>) -> Self {
        GateState { members: self.members.update(at, member), ..self }
    }

    /// The state after the member at `at` has passed its item. An item below the
    /// frontier does not move it; any other becomes the frontier. The member is
    /// without a head again and waits for nothing.
    pub open spec fn released(self, at: int) -> Self {
        let member = Member { head: None, signal: None, ..self.members[at] };
        if is_behind_at(self, at) {
            self.with(at, member)
        } else {
            GateState { frontier: self.members[at].head, ..self.with(at, member) }
        }
    }

    /// The key that the order gate gives up when the member at `at` passes its item.
    pub open spec fn retired(self, at: int) -> Option<K> {
        if is_behind_at(self, at) {
            self.members[at].head
        } else {
            self.frontier
        }
    }

    /// The state after the member at `at` has tried to pass its item.
    pub open spec fn tried(self, at: int) -> Self {
        if self.may_pass(at) {
            self.released(at).settled()
        } else {
            self.settled()
        }
    }

    /// The state with one more member, which has no head yet.
    pub open spec fn registered(self) -> Self {
        GateState {
            next_member_id: self.next_member_id + 1,
            members: self.members.push(
                Member { id: self.next_member_id as usize, head: None, signal: None },
            ),
            ..self
        }
    }

    /// The state without the member with this number.
    pub open spec fn without(self, id: usize) -> Self {
        GateState { members: self.members.remove(self.place(id)), ..self }
    }

    /// The members are numbered, and nobody who may pass waits.
    pub open spec fn wf(self) -> bool {
        self.numbered() && self.no_wake_owed()
    }
}

pub proof fn lemma_place<K: Ord, W>(s: GateState<K, W>, id: usize, at: int)
    requires
        s.numbered(),
        0 <= at < s.members.len(),
        s.members[at].id == id,
    ensures
        s.has(id),
        s.place(id) == at,
{
    let p = s.place(id);
    assert(s.has(id));
    if p < at {
        assert(s.members[p].id < s.members[at].id);
    } else if at < p {
        assert(s.members[at].id < s.members[p].id);
    }
}

/// Waking changes nothing but the signals of those woken, so nobody who may pass
/// waits afterwards.
proof fn lemma_settled<K: Ord, W>(s: GateState<K, W>)
    requires
        s.numbered(),
    ensures
        s.settled().wf(),
        forall|at: int| 0 <= at < s.members.len() ==> s.settled().may_pass(at) == #[trigger] s.may_pass(at),
{
    let t = s.settled();
    assert forall|at: int| 0 <= at < s.members.len() implies t.may_pass(at) == #[trigger] s.may_pass(at) by {
        assert(t.members[at].head == s.members[at].head);
        if all_have_heads(s.members) {
            assert forall|j: int| 0 <= j < t.members.len() implies #[trigger] t.members[j].head is Some by {
                assert(s.members[j].head is Some);
            }
        }
        if all_have_heads(t.members) {
            assert forall|j: int| 0 <= j < s.members.len() implies #[trigger] s.members[j].head is Some by {
                assert(t.members[j].head is Some);
            }
        }
        if is_least(s.members, at) {
            assert forall|j: int| 0 <= j < t.members.len() && #[trigger] t.members[j].head is Some implies key_le(
                t.members[at].head->0,
                t.members[j].head->0,
            ) && (j < at ==> key_lt(t.members[at].head->0, t.members[j].head->0)) by {
                assert(s.members[j].head is Some);
            }
        }
        if is_least(t.members, at) {
            assert forall|j: int| 0 <= j < s.members.len() && #[trigger] s.members[j].head is Some implies key_le(
                s.members[at].head->0,
                s.members[j].head->0,
            ) && (j < at ==> key_lt(s.members[at].head->0, s.members[j].head->0)) by {
                assert(t.members[j].head is Some);
            }
        }
    }
    assert(t.numbered()) by {
        assert forall|j: int| 0 <= j < t.members.len() implies (#[trigger] t.members[j]).id < t.next_member_id by {
            assert(s.members[j].id < s.next_member_id);
        }
        assert forall|i: int, j: int| 0 <= i < j < t.members.len() implies (#[trigger] t.members[i]).id < (
        #[trigger] t.members[j]).id by {
            assert(s.members[i].id < s.members[j].id);
        }
    }
    assert forall|at: int| 0 <= at < t.members.len() && #[trigger] t.may_pass(at) implies t.members[at].signal is None by {
        assert(s.may_pass(at));
    }
}

proof fn lemma_with_numbered<K: Ord, W>(s: GateState<K, W>, at: int, member: Member<K, W>)
    requires
        s.numbered(),
        0 <= at < s.members.len(),
        member.id == s.members[at].id,
    ensures
        s.with(at, member).numbered(),
{
    let t = s.with(at, member);
    assert forall|j: int| 0 <= j < t.members.len() implies (#[trigger] t.members[j]).id < t.next_member_id by {
        assert(s.members[j].id < s.next_member_id);
    }
    assert forall|i: int, j: int| 0 <= i < j < t.members.len() implies (#[trigger] t.members[i]).id < (
    #[trigger] t.members[j]).id by {
        assert(s.members[i].id < s.members[j].id);
    }
}

proof fn lemma_keeps_others<K: Ord, W>(s: GateState<K, W>, t: GateState<K, W>, id: usize)
    requires
        s.numbered(),
        t.numbered(),
        s.members.len() == t.members.len(),
        forall|j: int|
            0 <= j < s.members.len() ==> (#[trigger] t.members[j]).id == s.members[j].id && (
            s.members[j].id != id ==> (t.members[j].head is Some <==> s.members[j].head is Some)),
    ensures
        s.keeps_others(t, id),
{
    assert forall|other: usize, item: bool| other != id implies s.has(other) == t.has(other)
        && #[trigger] s.holds(other, item) == t.holds(other, item) by {
        if s.has(other) {
            let p = s.place(other);
            assert(t.members[p].id == other);
            lemma_place(t, other, p);
        }
        if t.has(other) {
            let p = t.place(other);
            assert(s.members[p].id == other);
            lemma_place(s, other, p);
        }
    }
    assert forall|other: usize| other != id implies s.has(other) == #[trigger] t.has(other) by {
        assert(s.holds(other, true) == t.holds(other, true));
    }
}

proof fn lemma_registered_keeps_others<K: Ord, W>(s: GateState<K, W>)
    requires
        s.numbered(),
        s.registered().numbered(),
        s.next_member_id <= usize::MAX,
    ensures
        s.keeps_others(s.registered(), s.next_member_id as usize),
{
    let t = s.registered();
    let id = s.next_member_id as usize;
    assert forall|other: usize, item: bool| other != id implies s.has(other) == t.has(other)
        && #[trigger] s.holds(other, item) == t.holds(other, item) by {
        if s.has(other) {
            let p = s.place(other);
            assert(t.members[p] == s.members[p]);
            lemma_place(t, other, p);
        }
        if t.has(other) {
            let p = t.place(other);
            assert(t.members[p] == s.members[p]);
            lemma_place(s, other, p);
        }
    }
    assert forall|other: usize| other != id implies s.has(other) == #[trigger] t.has(other) by {
        assert(s.holds(other, true) == t.holds(other, true));
    }
}

proof fn lemma_removed_keeps_others<K: Ord, W>(s: GateState<K, W>, id: usize)
    requires
        s.numbered(),
        s.has(id),
        s.without(id).settled().numbered(),
    ensures
        s.keeps_others(s.without(id).settled(), id),
{
    let t = s.without(id).settled();
    let gone = s.place(id);
    assert forall|other: usize, item: bool| other != id implies s.has(other) == t.has(other)
        && #[trigger] s.holds(other, item) == t.holds(other, item) by {
        if s.has(other) {
            let p = s.place(other);
            let q = if p < gone {
                p
            } else {
                p - 1
            };
            assert(s.without(id).members[q] == s.members[p]);
            assert(t.members[q].id == other);
            lemma_place(t, other, q);
        }
        if t.has(other) {
            let q = t.place(other);
            let p = if q < gone {
                q
            } else {
                q + 1
            };
            assert(s.without(id).members[q] == s.members[p]);
            assert(s.members[p].id == other);
            lemma_place(s, other, p);
        }
    }
    assert forall|other: usize| other != id implies s.has(other) == #[trigger] t.has(other) by {
        assert(s.holds(other, true) == t.holds(other, true));
    }
}

/// Selecting among one more member: the new head wins only when it is smaller.
proof fn lemma_least_extends<K: Ord, W>(
    members: Seq<Member<K, W>>,
    index: int,
    before: Option<usize>,
    after: Option<usize>,
)
    requires
        0 <= index < members.len(),
        index <= usize::MAX,
        totally_ordered::<K>(),
        match before {
            Some(i) => i < index && is_least(members.take(index), i as int),
            None => forall|j: int| 0 <= j < index ==> #[trigger] members[j].head is None,
        },
        after == (if members[index].head is Some && (match before {
            Some(i) => key_lt(members[index].head->0, members[i as int].head->0),
            None => true,
        }) {
            Some(index as usize)
        } else {
            before
        }),
    ensures
        match after {
            Some(i) => i < index + 1 && is_least(members.take(index + 1), i as int),
            None => forall|j: int| 0 <= j < index + 1 ==> #[trigger] members[j].head is None,
        },
{
    let seen = members.take(index);
    let next = members.take(index + 1);
    assert forall|j: int| 0 <= j < index implies #[trigger] next[j] == seen[j] by {}
    assert(next[index] == members[index]);
    match after {
        Some(i) => {
            let i = i as int;
            assert forall|j: int| 0 <= j < next.len() && #[trigger] next[j].head is Some implies key_le(
                next[i].head->0,
                next[j].head->0,
            ) && (j < i ==> key_lt(next[i].head->0, next[j].head->0)) by {
                if j < index {
                    assert(seen[j] == members[j]);
                    match before {
                        Some(_) => {
                            assert(seen[j].head is Some);
                        },
                        None => {
                            assert(members[j].head is None);
                        },
                    }
                }
                match before {
                    Some(b) => {
                        lemma_key_order(next[i].head->0, next[b as int].head->0, next[j].head->0);
                    },
                    None => {},
                }
                lemma_key_order(next[i].head->0, next[i].head->0, next[j].head->0);
            }
        },
        None => {},
    }
}

/// At most one member has the least head.
pub proof fn lemma_least_unique<K: Ord, W>(members: Seq<Member<K, W>>, i: int, j: int)
    requires
        is_least(members, i),
        is_least(members, j),
    ensures
        i == j,
{
    assert(members[i].head is Some);
    assert(members[j].head is Some);
}

/// While some member lies below the frontier, the members that may pass are
/// those that do: the least head of a complete barrier lies below it too.
pub proof fn lemma_behind_first<K: Ord, W>(s: GateState<K, W>, behind: int, at: int)
    requires
        totally_ordered::<K>(),
        0 <= behind < s.members.len(),
        0 <= at < s.members.len(),
        is_behind_at(s, behind),
    ensures
        s.may_pass(at) == is_behind_at(s, at),
{
    if s.may_pass(at) && !is_behind_at(s, at) {
        assert(s.members[behind].head is Some);
        lemma_key_order(s.members[at].head->0, s.members[behind].head->0, s.frontier->0);
    }
}

/// The signal of a member without a head has no bearing on who may pass.
proof fn lemma_signal_of_headless<K: Ord, W>(s: GateState<K, W>, at: int, signal: Option<W>)
    requires
        s.wf(),
        0 <= at < s.members.len(),
        s.members[at].head is None,
    ensures
        s.with(at, Member { signal, ..s.members[at] }).no_wake_owed(),
{
    let t = s.with(at, Member { signal, ..s.members[at] });
    assert(!all_have_heads(t.members)) by {
        assert(t.members[at].head is None);
    }
    assert forall|j: int| 0 <= j < t.members.len() && #[trigger] t.may_pass(j) implies t.members[j].signal is None by {
        assert(j != at);
        assert(t.members[j] == s.members[j]);
        assert(is_behind_at(t, j));
        assert(is_behind_at(s, j));
        assert(s.may_pass(j));
    }
}

proof fn lemma_without_numbered<K: Ord, W>(s: GateState<K, W>, id: usize)
    requires
        s.numbered(),
        s.has(id),
    ensures
        s.without(id).numbered(),
{
    let p = s.place(id);
    let t = s.without(id);
    assert forall|j: int| 0 <= j < t.members.len() implies (#[trigger] t.members[j]).id < t.next_member_id by {
        assert(t.members[j] == s.members[if j < p {
            j
        } else {
            j + 1
        }]);
    }
    assert forall|i: int, j: int| 0 <= i < j < t.members.len() implies (#[trigger] t.members[i]).id < (
    #[trigger] t.members[j]).id by {
        let si = if i < p {
            i
        } else {
            i + 1
        };
        let sj = if j < p {
            j
        } else {
            j + 1
        };
        assert(s.members[si].id < s.members[sj].id);
    }
}

/// Whom a transition has to wake.
enum Eligible {
    /// Every member whose item lies below the frontier.
    Behind,
    /// The member at this place.
    Selected(usize),
    /// Nobody.
    Nobody,
}

impl Eligible {
    spec fn covers<K: Ord, W>(self, s: GateState<K, W>, at: int) -> bool {
        match self {
            Eligible::Behind => is_behind_at(s, at),
            Eligible::Selected(selected) => at == selected,
            Eligible::Nobody => false,
        }
    }
}

/// Whether a member passed its item, and the key and the waker that the order gate gave
/// up for it.
enum TakeOutcome<K, W> {
    Blocked,
    Released { retired_key: Option<K>, signal: Option<W> },
}

/// What a transition of the order gate leaves to do: whether the polled member passed
/// its item, a key and wakers to drop, and the wakers to wake.
pub struct GateTurn<K, W> {
    pub released: bool,
    pub retired_key: Option<K>,
    pub retired_wakers: Vec<W>,
    pub wakes: Vec<W>,
}

impl<K: Ord, W> GateTurn<K, W> {
    /// The turn is what trying to pass the item of the member at `at` amounts to, after
    /// this waker was replaced.
    pub open spec fn reflects(self, s: GateState<K, W>, at: int, replaced: Option<W>) -> bool {
        &&& self.released == s.may_pass(at)
        &&& self.retired_wakers@ == some_waker(replaced) + (if s.may_pass(at) {
            some_waker(s.members[at].signal)
        } else {
            Seq::empty()
        })
        &&& self.retired_key == (if s.may_pass(at) {
            s.retired(at)
        } else {
            None
        })
        &&& self.wakes@ == (if s.may_pass(at) {
            s.released(at).wakes()
        } else {
            s.wakes()
        })
    }
}

fn waker_vec<W>(signal: Option<W>) -> (wakers: Vec<W>)
    ensures
        wakers@ == some_waker(signal),
{
    let mut wakers: Vec<W> = Vec::new();
    if let Some(waker) = signal {
        wakers.push(waker);
    }
    wakers
}

fn finish_transition<K, W>(outcome: TakeOutcome<K, W>, replaced: Option<W>, wakes: Vec<W>) -> (turn:
    GateTurn<K, W>)
    ensures
        turn.wakes == wakes,
        match outcome {
            TakeOutcome::Blocked => !turn.released && turn.retired_key is None
                && turn.retired_wakers@ == some_waker(replaced),
            TakeOutcome::Released { retired_key, signal } => turn.released && turn.retired_key
                == retired_key && turn.retired_wakers@ == some_waker(replaced) + some_waker(signal),
        },
{
    let mut retired_wakers = waker_vec(replaced);
    match outcome {
        TakeOutcome::Blocked => GateTurn {
            released: false,
            retired_key: None,
            retired_wakers,
            wakes,
        },
        TakeOutcome::Released { retired_key, signal } => {
            if let Some(waker) = signal {
                retired_wakers.push(waker);
            }
            assert(retired_wakers@ =~= some_waker(replaced) + some_waker(signal));
            GateTurn { released: true, retired_key, retired_wakers, wakes }
        },
    }
}

/// Coordinates separately consumed ordered streams against one shared
/// monotonic frontier.
///
/// [`OrderGate::gate`] and [`OrderGate::try_gate`] each register an active
/// member immediately. Every member retains its own output type and is polled
/// independently, while successful items share these release rules:
///
/// - an item whose key is below the current frontier passes through without
///   moving the frontier;
/// - otherwise every active member must have a retained head before the
///   smallest head can pass, with equal keys resolved by registration order;
/// - after a member passes an item, it is missing a head again until that
///   wrapper is polled to another item or completion.
///
/// Members can be added dynamically. Consequently, values observed across all
/// wrappers are not necessarily globally nondecreasing: a newly registered
/// member may pass values below the frontier while it catches up. The frontier
/// itself never moves backward and remains available for later registrations
/// even if the member set temporarily becomes empty.
pub struct OrderGate<K, W> {
    frontier: Option<K>,
    next_member_id: usize,
    members: Vec<Member<K, W>>,
}

impl<K, W> View for OrderGate<K, W> {
    type V = GateState<K, W>;

    closed spec fn view(&self) -> GateState<K, W> {
        GateState {
            frontier: self.frontier,
            next_member_id: self.next_member_id as int,
            members: self.members@,
        }
    }
}

impl<K: Ord, W> OrderGate<K, W> {
    /// Creates an empty order gate with no frontier.
    pub fn new() -> (gate: Self)
        ensures
            gate@.wf(),
            gate@.frontier is None,
            gate@.next_member_id == 0,
            gate@.members == Seq::<Member<K, W>>::empty(),
    {
        OrderGate { frontier: None, next_member_id: 0, members: Vec::new() }
    }

    /// Whether a number is left for one more member.
    pub fn can_register(&self) -> (can: bool)
        ensures
            can == (self@.next_member_id < usize::MAX),
    {
        self.next_member_id < usize::MAX
    }

    /// Adds a member without a head. It takes part in the barrier at once.
    fn register(&mut self) -> (id: usize)
        requires
            old(self)@.wf(),
            old(self)@.next_member_id < usize::MAX,
        ensures
            final(self)@.wf(),
            id == old(self)@.next_member_id,
            final(self)@ == (GateState {
                next_member_id: old(self)@.next_member_id + 1,
                members: old(self)@.members.push(Member { id, head: None, signal: None }),
                ..old(self)@
            }),
    {
        let ghost s = self@;
        let id = self.next_member_id;
        self.next_member_id = self.next_member_id + 1;
        self.members.push(Member { id, head: None, signal: None });
        proof {
            let t = self@;
            let n = s.members.len() as int;
            assert forall|j: int| 0 <= j < t.members.len() implies (#[trigger] t.members[j]).id < t.next_member_id by {
                if j < n {
                    assert(t.members[j] == s.members[j]);
                }
            }
            assert forall|i: int, j: int| 0 <= i < j < t.members.len() implies (#[trigger] t.members[i]).id < (
            #[trigger] t.members[j]).id by {
                assert(t.members[i] == s.members[i]);
                if j < n {
                    assert(t.members[j] == s.members[j]);
                }
            }
            assert(t.members[n].head is None);
            assert(!all_have_heads(t.members));
            assert forall|at: int| 0 <= at < t.members.len() && #[trigger] t.may_pass(at) implies t.members[at].signal is None by {
                assert(at < n);
                assert(t.members[at] == s.members[at]);
                assert(s.may_pass(at));
            }
        }
        id
    }

    /// The place of the member with number `id`, if there is one.
    fn position(&self, id: usize) -> (place: Option<usize>)
        requires
            self@.numbered(),
        ensures
            match place {
                Some(at) => at < self@.members.len() && self@.members[at as int].id == id
                    && self@.has(id) && self@.place(id) == at,
                None => !self@.has(id),
            },
    {
        let mut at: usize = 0;
        while at < self.members.len()
            invariant
                self@.numbered(),
                at <= self@.members.len(),
                forall|j: int| 0 <= j < at ==> #[trigger] self@.members[j].id != id,
            decreases self.members.len() - at,
        {
            if self.members[at].id == id {
                proof {
                    lemma_place(self@, id, at as int);
                }
                return Some(at);
            }
            at = at + 1;
        }
        None
    }

    /// Whether the member at `at` retains an item below the frontier.
    fn behind_frontier(&self, at: usize) -> (behind: bool)
        requires
            at < self@.members.len(),
            totally_ordered::<K>(),
        ensures
            behind == is_behind_at(self@, at as int),
    {
        match (&self.frontier, &self.members[at].head) {
            (Some(frontier), Some(key)) => key_less(key, frontier),
            _ => false,
        }
    }

    /// Whether every member retains a head.
    fn barrier_complete(&self) -> (complete: bool)
        ensures
            complete == all_have_heads(self@.members),
    {
        let mut at: usize = 0;
        while at < self.members.len()
            invariant
                at <= self@.members.len(),
                forall|j: int| 0 <= j < at ==> #[trigger] self@.members[j].head is Some,
            decreases self.members.len() - at,
        {
            if self.members[at].head.is_none() {
                assert(self@.members[at as int].head is None);
                return false;
            }
            at = at + 1;
        }
        true
    }

    /// The place of the member with the least head.
    fn selected_member(&self) -> (selected: Option<usize>)
        requires
            totally_ordered::<K>(),
        ensures
            match selected {
                Some(at) => is_least(self@.members, at as int),
                None => forall|j: int| 0 <= j < self@.members.len() ==> #[trigger] self@.members[j].head is None,
            },
    {
        let ghost members = self@.members;
        let mut selected: Option<usize> = None;
        let mut at: usize = 0;
        while at < self.members.len()
            invariant
                members == self@.members,
                at <= members.len(),
                totally_ordered::<K>(),
                match selected {
                    Some(i) => i < at && is_least(members.take(at as int), i as int),
                    None => forall|j: int| 0 <= j < at ==> #[trigger] members[j].head is None,
                },
            decreases self.members.len() - at,
        {
            let ghost before = selected;
            let should_select = match &self.members[at].head {
                Some(key) => match selected {
                    Some(i) => match &self.members[i].head {
                        Some(selected_key) => key_less(key, selected_key),
                        None => false,
                    },
                    None => true,
                },
                None => false,
            };
            proof {
                match before {
                    Some(i) => {
                        assert(members.take(at as int)[i as int] == members[i as int]);
                    },
                    None => {},
                }
            }
            if should_select {
                selected = Some(at);
            }
            proof {
                lemma_least_extends(members, at as int, before, selected);
            }
            at = at + 1;
        }
        proof {
            assert(members.take(members.len() as int) =~= members);
        }
        selected
    }

    /// Which members may pass.
    fn eligible_members(&self) -> (eligible: Eligible)
        requires
            totally_ordered::<K>(),
        ensures
            forall|at: int| 0 <= at < self@.members.len() ==> #[trigger] self@.may_pass(at)
                == eligible.covers(self@, at),
    {
        let mut at: usize = 0;
        while at < self.members.len()
            invariant
                at <= self@.members.len(),
                totally_ordered::<K>(),
                forall|j: int| 0 <= j < at ==> !#[trigger] is_behind_at(self@, j),
            decreases self.members.len() - at,
        {
            if self.behind_frontier(at) {
                proof {
                    assert forall|j: int| 0 <= j < self@.members.len() implies #[trigger] self@.may_pass(j)
                        == is_behind_at(self@, j) by {
                        lemma_behind_first(self@, at as int, j);
                    }
                }
                return Eligible::Behind;
            }
            at = at + 1;
        }
        if self.barrier_complete() {
            match self.selected_member() {
                Some(selected) => {
                    proof {
                        assert forall|j: int| 0 <= j < self@.members.len() implies #[trigger] self@.may_pass(j)
                            == (j == selected) by {
                            assert(!is_behind_at(self@, j));
                            if is_least(self@.members, j) {
                                lemma_least_unique(self@.members, j, selected as int);
                            }
                        }
                    }
                    Eligible::Selected(selected)
                },
                None => {
                    proof {
                        assert forall|j: int| 0 <= j < self@.members.len() implies !#[trigger] self@.may_pass(j) by {
                            assert(self@.members[j].head is None);
                        }
                    }
                    Eligible::Nobody
                },
            }
        } else {
            proof {
                assert forall|j: int| 0 <= j < self@.members.len() implies !#[trigger] self@.may_pass(j) by {
                    assert(!is_behind_at(self@, j));
                }
            }
            Eligible::Nobody
        }
    }

    /// Takes the wakers of the members that may pass.
    fn eligible_signals(&mut self) -> (signals: Vec<W>)
        requires
            old(self)@.numbered(),
            totally_ordered::<K>(),
        ensures
            signals@ == old(self)@.wakes(),
            final(self)@ == old(self)@.settled(),
            final(self)@.wf(),
    {
        let ghost s = self@;
        let eligible = self.eligible_members();
        let mut signals: Vec<W> = Vec::new();
        let mut at: usize = 0;
        while at < self.members.len()
            invariant
                s == old(self)@,
                s.numbered(),
                totally_ordered::<K>(),
                at <= s.members.len(),
                self@.frontier == s.frontier,
                self@.next_member_id == s.next_member_id,
                self@.members.len() == s.members.len(),
                forall|j: int| 0 <= j < at ==> #[trigger] self@.members[j] == s.settled().members[j],
                forall|j: int| at <= j < s.members.len() ==> #[trigger] self@.members[j] == s.members[j],
                forall|j: int| 0 <= j < s.members.len() ==> #[trigger] s.may_pass(j) == eligible.covers(s, j),
                signals@ == s.wakes_before(at as int),
            decreases self.members.len() - at,
        {
            let ghost before = self@.members;
            let passes = match eligible {
                Eligible::Behind => self.behind_frontier(at),
                Eligible::Selected(selected) => selected == at,
                Eligible::Nobody => false,
            };
            proof {
                assert(self@.members[at as int] == s.members[at as int]);
                assert(s.may_pass(at as int) == passes);
            }
            if passes {
                let signal = self.members[at].signal.take();
                match signal {
                    Some(waker) => {
                        signals.push(waker);
                    },
                    None => {},
                }
            }
            proof {
                assert forall|j: int| 0 <= j < s.members.len() && j != at implies #[trigger] self@.members[j] == before[j] by {}
            }
            at = at + 1;
        }
        proof {
            assert(self@.members =~= s.settled().members);
            lemma_settled(s);
        }
        signals
    }

    /// Passes the item of the member at `at` if it may pass. The outcome is the
    /// key and the waker that the order gate gives up.
    fn take_if_eligible(&mut self, at: usize) -> (outcome: TakeOutcome<K, W>)
        requires
            old(self)@.numbered(),
            at < old(self)@.members.len(),
            totally_ordered::<K>(),
        ensures
            final(self)@.numbered(),
            match outcome {
                TakeOutcome::Blocked => !old(self)@.may_pass(at as int) && final(self)@ == old(self)@,
                TakeOutcome::Released { retired_key, signal } => old(self)@.may_pass(at as int)
                    && retired_key == old(self)@.retired(at as int) && signal == old(
                    self,
                )@.members[at as int].signal && final(self)@ == old(self)@.released(at as int),
            },
    {
        let ghost s = self@;
        let is_behind = self.behind_frontier(at);
        let is_selected = if is_behind {
            true
        } else if !self.barrier_complete() {
            false
        } else {
            match self.selected_member() {
                Some(selected) => {
                    proof {
                        if is_least(s.members, at as int) {
                            lemma_least_unique(s.members, at as int, selected as int);
                        }
                    }
                    selected == at
                },
                None => false,
            }
        };
        if !is_selected {
            return TakeOutcome::Blocked;
        }
        proof {
            lemma_with_numbered(
                s,
                at as int,
                Member { head: None, signal: None, ..s.members[at as int] },
            );
        }
        let key = self.members[at].head.take();
        let signal = self.members[at].signal.take();
        let retired_key = if is_behind {
            key
        } else {
            let mut frontier = key;
            std::mem::swap(&mut self.frontier, &mut frontier);
            frontier
        };
        proof {
            assert(self@.members =~= s.released(at as int).members);
        }
        TakeOutcome::Released { retired_key, signal }
    }

    /// The member `id` is polled while it retains an item: makes `waker` the one
    /// to wake, and passes the item if it may pass.
    fn try_take(&mut self, id: usize, waker: W) -> (turn: GateTurn<K, W>)
        requires
            old(self)@.wf(),
            old(self)@.has(id),
            totally_ordered::<K>(),
        ensures
            final(self)@.wf(),
            ({
                let at = old(self)@.place(id);
                let s = old(self)@.with(
                    at,
                    Member { signal: Some(waker), ..old(self)@.members[at] },
                );
                turn.reflects(s, at, old(self)@.members[at].signal) && final(self)@ == s.tried(at)
            }),
    {
        match self.position(id) {
            Some(at) => {
                let ghost s = self@;
                let replaced = self.members[at].signal.take();
                self.members[at].signal = Some(waker);
                proof {
                    let member = Member { signal: Some(waker), ..s.members[at as int] };
                    lemma_with_numbered(s, at as int, member);
                    assert(self@.members =~= s.with(at as int, member).members);
                }
                let outcome = self.take_if_eligible(at);
                let wakes = self.eligible_signals();
                finish_transition(outcome, replaced, wakes)
            },
            None => GateTurn {
                released: false,
                retired_key: None,
                retired_wakers: Vec::new(),
                wakes: Vec::new(),
            },
        }
    }

    /// The member `id` begins to wait for its source: makes `waker` the one to wake.
    /// The result is the waker that it replaces.
    fn await_head(&mut self, id: usize, waker: W) -> (replaced: Option<W>)
        requires
            old(self)@.wf(),
            old(self)@.has(id),
            old(self)@.member(id).head is None,
        ensures
            final(self)@.wf(),
            replaced == old(self)@.member(id).signal,
            final(self)@ == old(self)@.with(
                old(self)@.place(id),
                Member { signal: Some(waker), ..old(self)@.member(id) },
            ),
    {
        let ghost s = self@;
        match self.position(id) {
            Some(at) => {
                let replaced = self.members[at].signal.take();
                self.members[at].signal = Some(waker);
                proof {
                    let member = Member { signal: Some(waker), ..s.members[at as int] };
                    lemma_with_numbered(s, at as int, member);
                    assert(self@.members =~= s.with(at as int, member).members);
                    lemma_signal_of_headless(s, at as int, Some(waker));
                }
                replaced
            },
            None => None,
        }
    }

    /// The member `id` stops waiting for its source. The result is its waker.
    fn clear_signal(&mut self, id: usize) -> (cleared: Option<W>)
        requires
            old(self)@.wf(),
            old(self)@.has(id),
            old(self)@.member(id).head is None,
        ensures
            final(self)@.wf(),
            cleared == old(self)@.member(id).signal,
            final(self)@ == old(self)@.with(
                old(self)@.place(id),
                Member { signal: None, ..old(self)@.member(id) },
            ),
    {
        let ghost s = self@;
        match self.position(id) {
            Some(at) => {
                let cleared = self.members[at].signal.take();
                proof {
                    let member = Member { signal: None, ..s.members[at as int] };
                    lemma_with_numbered(s, at as int, member);
                    assert(self@.members =~= s.with(at as int, member).members);
                    lemma_signal_of_headless(s, at as int, None);
                }
                cleared
            },
            None => None,
        }
    }

    /// The source of member `id` gave an item with this key: makes it the head,
    /// and passes it if it may pass.
    fn publish_and_try_take(&mut self, id: usize, key: K) -> (turn: GateTurn<K, W>)
        requires
            old(self)@.wf(),
            old(self)@.has(id),
            old(self)@.member(id).head is None,
            totally_ordered::<K>(),
        ensures
            final(self)@.wf(),
            ({
                let at = old(self)@.place(id);
                let s = old(self)@.with(at, Member { head: Some(key), ..old(self)@.members[at] });
                turn.reflects(s, at, None) && final(self)@ == s.tried(at)
            }),
    {
        match self.position(id) {
            Some(at) => {
                let ghost s = self@;
                self.members[at].head = Some(key);
                proof {
                    let member = Member { head: Some(key), ..s.members[at as int] };
                    lemma_with_numbered(s, at as int, member);
                    assert(self@.members =~= s.with(at as int, member).members);
                }
                let outcome = self.take_if_eligible(at);
                let wakes = self.eligible_signals();
                finish_transition(outcome, None, wakes)
            },
            None => GateTurn {
                released: false,
                retired_key: None,
                retired_wakers: Vec::new(),
                wakes: Vec::new(),
            },
        }
    }

    /// Removes the member `id`, if it is active, and takes the wakers of the
    /// members that may pass without it.
    fn remove(&mut self, id: usize) -> (removed: (Option<Member<K, W>>, Vec<W>))
        requires
            old(self)@.wf(),
            totally_ordered::<K>(),
        ensures
            final(self)@.wf(),
            old(self)@.has(id) ==> {
                let s = old(self)@.without(id);
                &&& removed.0 == Some(old(self)@.member(id))
                &&& removed.1@ == s.wakes()
                &&& final(self)@ == s.settled()
            },
            !old(self)@.has(id) ==> removed.0 is None && removed.1@.len() == 0 && final(self)@
                == old(self)@,
    {
        match self.position(id) {
            Some(at) => {
                let ghost s = self@;
                let member = self.members.remove(at);
                proof {
                    lemma_without_numbered(s, id);
                    assert(self@.members =~= s.without(id).members);
                }
                let wakes = self.eligible_signals();
                (Some(member), wakes)
            },
            None => (None, Vec::new()),
        }
    }

    /// Registers an ordered stream as an active member of this gate.
    ///
    /// Registration itself does not poll the stream, but the new member is
    /// immediately part of the missing-head barrier. Each item must belong to a
    /// nondecreasing sequence; the order gate coordinates streams and does not validate
    /// their internal ordering.
    pub fn gate<T: Ordered<Key = K>>(&mut self) -> (stream: OrderGatedStream<T>)
        requires
            old(self)@.wf(),
            old(self)@.next_member_id < usize::MAX,
        ensures
            final(self)@.wf(),
            final(self)@ == old(self)@.registered(),
            stream@ == (GatedState::<T> {
                item: None,
                member_id: old(self)@.next_member_id as usize,
                done: false,
            }),
            stream@.linked(final(self)@),
            old(self)@.keeps_others(final(self)@, stream@.member_id),
    {
        let member_id = self.register();
        proof {
            lemma_place(self@, member_id, old(self)@.members.len() as int);
            lemma_registered_keeps_others(old(self)@);
        }
        OrderGatedStream { item: None, member_id, done: false }
    }

    /// Registers a fallible ordered stream as an active member of this gate.
    ///
    /// Successful items follow the same rules as [`OrderGate::gate`]. An observed
    /// error passes through its own wrapper immediately, does not move the
    /// frontier or discard any retained head, and leaves that member active and
    /// missing a successful head.
    pub fn try_gate<T: Ordered<Key = K>>(&mut self) -> (stream: TryOrderGatedStream<T>)
        requires
            old(self)@.wf(),
            old(self)@.next_member_id < usize::MAX,
        ensures
            final(self)@.wf(),
            final(self)@ == old(self)@.registered(),
            stream@ == (GatedState::<T> {
                item: None,
                member_id: old(self)@.next_member_id as usize,
                done: false,
            }),
            stream@.linked(final(self)@),
            old(self)@.keeps_others(final(self)@, stream@.member_id),
    {
        let stream = self.gate();
        TryOrderGatedStream { stream }
    }
}

/// The mathematical state of a gated stream.
pub struct GatedState<T> {
    /// The item that waits to pass the order gate.
    pub item: Option<T>,
    /// The stream's number in the order gate.
    pub member_id: usize,
    /// The stream has left the order gate.
    pub done: bool,
}

impl<T: Ordered> GatedState<T> {
    /// The order gate and the stream agree: an active stream is a member, and it
    /// retains an item exactly when the order gate has the item's key.
    pub open spec fn linked<W>(self, gate: GateState<T::Key, W>) -> bool {
        if self.done {
            self.item is None && !gate.has(self.member_id)
        } else {
            gate.holds(self.member_id, self.item is Some)
        }
    }
}

/// What the caller has to do next in one poll of a gated stream.
pub enum GateStep<T> {
    /// Poll the source and report the outcome.
    PollSource,
    /// Emit this item.
    Emit(T),
    /// Return pending.
    Pending,
    /// The stream has completed.
    Finished,
}

/// An item that a source gave, with the key that was extracted for it.
///
/// The key is extracted before the order gate is involved, so an `order_key` may use
/// the order gate itself.
pub struct KeyedItem<T: Ordered> {
    item: T,
    key: T::Key,
}

impl<T: Ordered> KeyedItem<T> {
    /// The item.
    pub closed spec fn item(self) -> T {
        self.item
    }

    /// The key that was extracted.
    pub closed spec fn key(self) -> T::Key {
        self.key
    }

    /// The key is what `order_key` gave for the item.
    pub open spec fn wf(self) -> bool {
        call_ensures(T::order_key, (&self.item(),), self.key())
    }

    #[verifier::type_invariant]
    spec fn is_extracted(self) -> bool {
        self.wf()
    }

    /// Extracts the key of an item, once.
    pub fn new(item: T) -> (keyed: Self)
        ensures
            keyed.item() == item,
            keyed.wf(),
    {
        let key = item.order_key();
        KeyedItem { item, key }
    }
}

impl<T: Ordered> StreamPoll<T> {
    /// Extracts the key of the item, if the poll gave one.
    pub fn keyed(self) -> (outcome: StreamPoll<KeyedItem<T>>)
        ensures
            match self {
                StreamPoll::Item(item) => outcome matches StreamPoll::Item(keyed) && keyed.item()
                    == item && keyed.wf(),
                StreamPoll::End => outcome is End,
                StreamPoll::Pending => outcome is Pending,
            },
    {
        match self {
            StreamPoll::Item(item) => StreamPoll::Item(KeyedItem::new(item)),
            StreamPoll::End => StreamPoll::End,
            StreamPoll::Pending => StreamPoll::Pending,
        }
    }
}

impl<T: Ordered, E> TryStreamPoll<T, E> {
    /// Extracts the key of the item, if the poll gave one.
    pub fn keyed(self) -> (outcome: TryStreamPoll<KeyedItem<T>, E>)
        ensures
            match self {
                TryStreamPoll::Item(item) => outcome matches TryStreamPoll::Item(keyed)
                    && keyed.item() == item && keyed.wf(),
                TryStreamPoll::Failed(error) => outcome == TryStreamPoll::<KeyedItem<T>, E>::Failed(
                    error,
                ),
                TryStreamPoll::End => outcome is End,
                TryStreamPoll::Pending => outcome is Pending,
            },
    {
        match self {
            TryStreamPoll::Item(item) => TryStreamPoll::Item(KeyedItem::new(item)),
            TryStreamPoll::Failed(error) => TryStreamPoll::Failed(error),
            TryStreamPoll::End => TryStreamPoll::End,
            TryStreamPoll::Pending => TryStreamPoll::Pending,
        }
    }
}

/// The next step of a poll, with what the order gate leaves to do first: a key, wakers
/// and a member to drop, and wakers to wake.
pub struct MemberTurn<T: Ordered, W> {
    pub step: GateStep<T>,
    pub retired_key: Option<T::Key>,
    pub retired_wakers: Vec<W>,
    pub removed: Option<Member<T::Key, W>>,
    pub wakes: Vec<W>,
}

impl<T: Ordered, W> MemberTurn<T, W> {
    /// The turn of a member at `at` that tries to pass `item` in gate state `s`, after
    /// this waker was replaced.
    pub open spec fn tries(
        self,
        s: GateState<T::Key, W>,
        at: int,
        item: T,
        replaced: Option<W>,
    ) -> bool {
        &&& self.retired_wakers@ == some_waker(replaced) + (if s.may_pass(at) {
            some_waker(s.members[at].signal)
        } else {
            Seq::empty()
        })
        &&& self.step == (if s.may_pass(at) {
            GateStep::Emit(item)
        } else {
            GateStep::Pending
        })
        &&& self.retired_key == (if s.may_pass(at) {
            s.retired(at)
        } else {
            None
        })
        &&& self.removed is None
        &&& self.wakes@ == (if s.may_pass(at) {
            s.released(at).wakes()
        } else {
            s.wakes()
        })
    }

    /// The turn that tries nothing, after this waker was replaced.
    pub open spec fn only(self, step: GateStep<T>, replaced: Option<W>) -> bool {
        &&& self.step == step
        &&& self.retired_key is None
        &&& self.retired_wakers@ == some_waker(replaced)
        &&& self.removed is None
        &&& self.wakes@.len() == 0
    }
}

/// What beginning a poll does. A stream that has left stays completed. A
/// retained item tries to pass; without one, the source has to be polled. Either
/// way `waker` becomes the one that the order gate wakes.
pub open spec fn poll_begun<T: Ordered, W>(
    stream: GatedState<T>,
    gate: GateState<T::Key, W>,
    waker: W,
    turn: MemberTurn<T, W>,
    new_stream: GatedState<T>,
    new_gate: GateState<T::Key, W>,
) -> bool {
    if stream.done {
        &&& turn.only(GateStep::Finished, None)
        &&& new_stream == stream
        &&& new_gate == gate
    } else {
        let at = gate.place(stream.member_id);
        let s = gate.with(at, Member { signal: Some(waker), ..gate.members[at] });
        match stream.item {
            Some(item) => {
                &&& turn.tries(s, at, item, gate.members[at].signal)
                &&& new_gate == s.tried(at)
                &&& new_stream == (GatedState {
                    item: if s.may_pass(at) {
                        None
                    } else {
                        Some(item)
                    },
                    ..stream
                })
            },
            None => {
                &&& turn.only(GateStep::PollSource, gate.members[at].signal)
                &&& new_gate == s
                &&& new_stream == stream
            },
        }
    }
}

/// What reporting a poll of the source does. An item becomes the member's head,
/// under the key that was extracted for it, and tries to pass; the end removes
/// the member and hands out what the order gate held for it; silence changes nothing.
pub open spec fn source_reported<T: Ordered, W>(
    stream: GatedState<T>,
    gate: GateState<T::Key, W>,
    outcome: StreamPoll<KeyedItem<T>>,
    turn: MemberTurn<T, W>,
    new_stream: GatedState<T>,
    new_gate: GateState<T::Key, W>,
) -> bool {
    match outcome {
        StreamPoll::Item(keyed) => {
            let at = gate.place(stream.member_id);
            let s = gate.with(at, Member { head: Some(keyed.key()), ..gate.members[at] });
            &&& keyed.wf()
            &&& turn.tries(s, at, keyed.item(), None)
            &&& new_gate == s.tried(at)
            &&& new_stream == (GatedState {
                item: if s.may_pass(at) {
                    None
                } else {
                    Some(keyed.item())
                },
                ..stream
            })
        },
        StreamPoll::End => {
            let s = gate.without(stream.member_id);
            &&& turn.step == GateStep::<T>::Finished
            &&& turn.retired_key is None
            &&& turn.retired_wakers@.len() == 0
            &&& turn.removed == Some(gate.member(stream.member_id))
            &&& turn.wakes@ == s.wakes()
            &&& new_gate == s.settled()
            &&& new_stream == (GatedState { done: true, ..stream })
        },
        StreamPoll::Pending => {
            &&& turn.only(GateStep::Pending, None)
            &&& new_gate == gate
            &&& new_stream == stream
        },
    }
}

/// What leaving the order gate does: an active member and its item are removed, and
/// those who may pass without it are woken.
pub open spec fn has_left<T: Ordered, W>(
    stream: GatedState<T>,
    gate: GateState<T::Key, W>,
    member: Option<Member<T::Key, W>>,
    wakes: Seq<W>,
    new_stream: GatedState<T>,
    new_gate: GateState<T::Key, W>,
) -> bool {
    &&& new_stream == (GatedState::<T> { item: None, member_id: stream.member_id, done: true })
    &&& if stream.done {
        member is None && wakes.len() == 0 && new_gate == gate
    } else {
        let s = gate.without(stream.member_id);
        &&& member == Some(gate.member(stream.member_id))
        &&& wakes == s.wakes()
        &&& new_gate == s.settled()
    }
}

/// A stream registered through [`OrderGate::gate`].
pub struct OrderGatedStream<T> {
    item: Option<T>,
    member_id: usize,
    done: bool,
}

impl<T> View for OrderGatedStream<T> {
    type V = GatedState<T>;

    closed spec fn view(&self) -> GatedState<T> {
        GatedState { item: self.item, member_id: self.member_id, done: self.done }
    }
}

proof fn lemma_tried_links<K: Ord, W>(s: GateState<K, W>, id: usize, at: int)
    requires
        s.numbered(),
        0 <= at < s.members.len(),
        s.members[at].id == id,
        s.members[at].head is Some,
    ensures
        s.tried(at).has(id),
        s.tried(at).member(id).head is Some <==> !s.may_pass(at),
{
    let t = if s.may_pass(at) {
        s.released(at)
    } else {
        s
    };
    assert(t.numbered()) by {
        lemma_with_numbered(s, at, Member { head: None, signal: None, ..s.members[at] });
    }
    lemma_settled(t);
    lemma_place(t.settled(), id, at);
}

proof fn lemma_removed_links<K: Ord, W>(s: GateState<K, W>, id: usize)
    requires
        s.numbered(),
        s.has(id),
    ensures
        !s.without(id).settled().has(id),
{
    let p = s.place(id);
    let t = s.without(id).settled();
    if t.has(id) {
        let q = t.place(id);
        let sq = if q < p {
            q
        } else {
            q + 1
        };
        assert(t.members[q].id == s.members[sq].id);
        if sq < p {
            assert(s.members[sq].id < s.members[p].id);
        } else {
            assert(s.members[p].id < s.members[sq].id);
        }
    }
}

impl<T: Ordered> OrderGatedStream<T> {
    /// Begins a poll, with the waker of the polling task.
    ///
    /// A retained item passes if the order gate lets it; otherwise the task is woken
    /// when that may have changed. Without an item the source is polled.
    pub fn begin_poll<W>(&mut self, gate: &mut OrderGate<T::Key, W>, waker: W) -> (turn:
        MemberTurn<T, W>)
        requires
            old(gate)@.wf(),
            old(self)@.linked(old(gate)@),
            totally_ordered::<T::Key>(),
        ensures
            final(gate)@.wf(),
            final(self)@.linked(final(gate)@),
            old(gate)@.keeps_others(final(gate)@, old(self)@.member_id),
            poll_begun(old(self)@, old(gate)@, waker, turn, final(self)@, final(gate)@),
    {
        if self.done {
            return MemberTurn {
                step: GateStep::Finished,
                retired_key: None,
                retired_wakers: Vec::new(),
                removed: None,
                wakes: Vec::new(),
            };
        }
        let ghost g = gate@;
        let ghost at = g.place(self.member_id);
        match self.item.take() {
            Some(item) => {
                let ghost s = g.with(at, Member { signal: Some(waker), ..g.members[at] });
                let turn = gate.try_take(self.member_id, waker);
                proof {
                    lemma_with_numbered(g, at, s.members[at]);
                    lemma_tried_links(s, self.member_id, at);
                    lemma_keeps_others(g, gate@, self.member_id);
                }
                let step = if turn.released {
                    GateStep::Emit(item)
                } else {
                    self.item = Some(item);
                    GateStep::Pending
                };
                MemberTurn {
                    step,
                    retired_key: turn.retired_key,
                    retired_wakers: turn.retired_wakers,
                    removed: None,
                    wakes: turn.wakes,
                }
            },
            None => {
                let replaced = gate.await_head(self.member_id, waker);
                proof {
                    lemma_place(gate@, self.member_id, at);
                    lemma_keeps_others(g, gate@, self.member_id);
                }
                MemberTurn {
                    step: GateStep::PollSource,
                    retired_key: None,
                    retired_wakers: waker_vec(replaced),
                    removed: None,
                    wakes: Vec::new(),
                }
            },
        }
    }

    /// Reports what the poll of the source gave.
    ///
    /// Completion removes the member from the order gate.
    pub fn source_polled<W>(
        &mut self,
        gate: &mut OrderGate<T::Key, W>,
        outcome: StreamPoll<KeyedItem<T>>,
    ) -> (turn: MemberTurn<T, W>)
        requires
            old(gate)@.wf(),
            old(self)@.linked(old(gate)@),
            !old(self)@.done,
            old(self)@.item is None,
            totally_ordered::<T::Key>(),
        ensures
            final(gate)@.wf(),
            final(self)@.linked(final(gate)@),
            old(gate)@.keeps_others(final(gate)@, old(self)@.member_id),
            source_reported(old(self)@, old(gate)@, outcome, turn, final(self)@, final(gate)@),
    {
        let ghost g = gate@;
        let ghost at = g.place(self.member_id);
        match outcome {
            StreamPoll::Item(keyed) => {
                proof {
                    use_type_invariant(&keyed);
                }
                let KeyedItem { item, key } = keyed;
                let ghost s = g.with(at, Member { head: Some(key), ..g.members[at] });
                let turn = gate.publish_and_try_take(self.member_id, key);
                proof {
                    lemma_with_numbered(g, at, s.members[at]);
                    lemma_tried_links(s, self.member_id, at);
                    lemma_keeps_others(g, gate@, self.member_id);
                }
                let step = if turn.released {
                    GateStep::Emit(item)
                } else {
                    self.item = Some(item);
                    GateStep::Pending
                };
                MemberTurn {
                    step,
                    retired_key: turn.retired_key,
                    retired_wakers: turn.retired_wakers,
                    removed: None,
                    wakes: turn.wakes,
                }
            },
            StreamPoll::End => {
                self.done = true;
                let (removed, wakes) = gate.remove(self.member_id);
                proof {
                    lemma_removed_links(g, self.member_id);
                    lemma_removed_keeps_others(g, self.member_id);
                }
                MemberTurn {
                    step: GateStep::Finished,
                    retired_key: None,
                    retired_wakers: Vec::new(),
                    removed,
                    wakes,
                }
            },
            StreamPoll::Pending => MemberTurn {
                step: GateStep::Pending,
                retired_key: None,
                retired_wakers: Vec::new(),
                removed: None,
                wakes: Vec::new(),
            },
        }
    }

    /// The stream is dropped: it leaves the order gate, if it has not left it before.
    /// The result is the wakers of the members that may pass without it, and
    /// what the order gate held for it.
    pub fn leave<W>(&mut self, gate: &mut OrderGate<T::Key, W>) -> (left: (
        Option<Member<T::Key, W>>,
        Vec<W>,
    ))
        requires
            old(gate)@.wf(),
            old(self)@.linked(old(gate)@),
            totally_ordered::<T::Key>(),
        ensures
            final(gate)@.wf(),
            final(self)@.linked(final(gate)@),
            old(gate)@.keeps_others(final(gate)@, old(self)@.member_id),
            has_left(old(self)@, old(gate)@, left.0, left.1@, final(self)@, final(gate)@),
    {
        if self.done {
            return (None, Vec::new());
        }
        self.done = true;
        self.item = None;
        let ghost g = gate@;
        let left = gate.remove(self.member_id);
        proof {
            lemma_removed_links(g, self.member_id);
            lemma_removed_keeps_others(g, self.member_id);
        }
        left
    }

    /// The source failed: the member stays active and waits for nothing. The result is
    /// its waker.
    fn source_failed<W>(&mut self, gate: &mut OrderGate<T::Key, W>) -> (cleared: Option<W>)
        requires
            old(gate)@.wf(),
            old(self)@.linked(old(gate)@),
            !old(self)@.done,
            old(self)@.item is None,
        ensures
            final(gate)@.wf(),
            cleared == old(gate)@.member(old(self)@.member_id).signal,
            final(self)@ == old(self)@,
            final(self)@.linked(final(gate)@),
            old(gate)@.keeps_others(final(gate)@, old(self)@.member_id),
            final(gate)@ == old(gate)@.with(
                old(gate)@.place(old(self)@.member_id),
                Member { signal: None, ..old(gate)@.member(old(self)@.member_id) },
            ),
    {
        let ghost g = gate@;
        let ghost at = g.place(self.member_id);
        let cleared = gate.clear_signal(self.member_id);
        proof {
            lemma_place(gate@, self.member_id, at);
            lemma_keeps_others(g, gate@, self.member_id);
        }
        cleared
    }
}

/// What the caller has to do next in one poll of a fallible gated stream.
pub enum TryGateStep<T, E> {
    /// Poll the source and report the outcome.
    PollSource,
    /// Emit this item.
    Emit(T),
    /// Emit this error.
    Fail(E),
    /// Return pending.
    Pending,
    /// The stream has completed.
    Finished,
}

/// The next step of a poll of a fallible gated stream.
pub struct TryMemberTurn<T: Ordered, E, W> {
    pub step: TryGateStep<T, E>,
    pub retired_key: Option<T::Key>,
    pub retired_wakers: Vec<W>,
    pub removed: Option<Member<T::Key, W>>,
    pub wakes: Vec<W>,
}

/// The turn of an infallible stream that this turn amounts to.
pub open spec fn infallible_turn<T: Ordered, E, W>(turn: TryMemberTurn<T, E, W>) -> MemberTurn<T, W>
    recommends
        !(turn.step is Fail),
{
    MemberTurn {
        step: match turn.step {
            TryGateStep::PollSource => GateStep::PollSource,
            TryGateStep::Emit(item) => GateStep::Emit(item),
            TryGateStep::Pending => GateStep::Pending,
            _ => GateStep::Finished,
        },
        retired_key: turn.retired_key,
        retired_wakers: turn.retired_wakers,
        removed: turn.removed,
        wakes: turn.wakes,
    }
}

/// What reporting a poll of a fallible source does. An error passes at once: every
/// head stays as it is, and the member waits for nothing. Everything else is what it
/// is for an infallible source.
pub open spec fn try_source_reported<T: Ordered, E, W>(
    stream: GatedState<T>,
    gate: GateState<T::Key, W>,
    outcome: TryStreamPoll<KeyedItem<T>, E>,
    turn: TryMemberTurn<T, E, W>,
    new_stream: GatedState<T>,
    new_gate: GateState<T::Key, W>,
) -> bool {
    match outcome {
        TryStreamPoll::Failed(error) => {
            let at = gate.place(stream.member_id);
            &&& turn.step == TryGateStep::<T, E>::Fail(error)
            &&& turn.retired_key is None
            &&& turn.retired_wakers@ == some_waker(gate.members[at].signal)
            &&& turn.removed is None
            &&& turn.wakes@.len() == 0
            &&& new_stream == stream
            &&& new_gate == gate.with(at, Member { signal: None, ..gate.members[at] })
        },
        _ => {
            &&& !(turn.step is Fail)
            &&& source_reported(
                stream,
                gate,
                match outcome {
                    TryStreamPoll::Item(keyed) => StreamPoll::Item(keyed),
                    TryStreamPoll::Pending => StreamPoll::Pending,
                    _ => StreamPoll::End,
                },
                infallible_turn(turn),
                new_stream,
                new_gate,
            )
        },
    }
}

fn fallible_turn<T: Ordered, E, W>(turn: MemberTurn<T, W>) -> (result: TryMemberTurn<T, E, W>)
    ensures
        !(result.step is Fail),
        infallible_turn(result) == turn,
{
    let step = match turn.step {
        GateStep::PollSource => TryGateStep::PollSource,
        GateStep::Emit(item) => TryGateStep::Emit(item),
        GateStep::Pending => TryGateStep::Pending,
        GateStep::Finished => TryGateStep::Finished,
    };
    TryMemberTurn {
        step,
        retired_key: turn.retired_key,
        retired_wakers: turn.retired_wakers,
        removed: turn.removed,
        wakes: turn.wakes,
    }
}

/// A fallible stream registered through [`OrderGate::try_gate`].
///
/// Successful items participate in the shared gate. Observed errors pass
/// through immediately and do not terminate membership.
pub struct TryOrderGatedStream<T> {
    stream: OrderGatedStream<T>,
}

impl<T> View for TryOrderGatedStream<T> {
    type V = GatedState<T>;

    closed spec fn view(&self) -> GatedState<T> {
        self.stream@
    }
}

impl<T: Ordered> TryOrderGatedStream<T> {
    /// Begins a poll, with the waker of the polling task.
    pub fn begin_poll<E, W>(&mut self, gate: &mut OrderGate<T::Key, W>, waker: W) -> (turn:
        TryMemberTurn<T, E, W>)
        requires
            old(gate)@.wf(),
            old(self)@.linked(old(gate)@),
            totally_ordered::<T::Key>(),
        ensures
            final(gate)@.wf(),
            final(self)@.linked(final(gate)@),
            old(gate)@.keeps_others(final(gate)@, old(self)@.member_id),
            !(turn.step is Fail),
            poll_begun(
                old(self)@,
                old(gate)@,
                waker,
                infallible_turn(turn),
                final(self)@,
                final(gate)@,
            ),
    {
        let turn = self.stream.begin_poll(gate, waker);
        fallible_turn(turn)
    }

    /// Reports what the poll of the source gave.
    ///
    /// An error passes at once. The frontier and every head stay as they are, and
    /// the member stays active and without a head.
    pub fn source_polled<E, W>(
        &mut self,
        gate: &mut OrderGate<T::Key, W>,
        outcome: TryStreamPoll<KeyedItem<T>, E>,
    ) -> (turn: TryMemberTurn<T, E, W>)
        requires
            old(gate)@.wf(),
            old(self)@.linked(old(gate)@),
            !old(self)@.done,
            old(self)@.item is None,
            totally_ordered::<T::Key>(),
        ensures
            final(gate)@.wf(),
            final(self)@.linked(final(gate)@),
            old(gate)@.keeps_others(final(gate)@, old(self)@.member_id),
            try_source_reported(
                old(self)@,
                old(gate)@,
                outcome,
                turn,
                final(self)@,
                final(gate)@,
            ),
    {
        match outcome {
            TryStreamPoll::Item(keyed) => {
                let turn = self.stream.source_polled(gate, StreamPoll::Item(keyed));
                fallible_turn(turn)
            },
            TryStreamPoll::Failed(error) => {
                let cleared = self.stream.source_failed(gate);
                TryMemberTurn {
                    step: TryGateStep::Fail(error),
                    retired_key: None,
                    retired_wakers: waker_vec(cleared),
                    removed: None,
                    wakes: Vec::new(),
                }
            },
            TryStreamPoll::End => {
                let turn = self.stream.source_polled(gate, StreamPoll::End);
                fallible_turn(turn)
            },
            TryStreamPoll::Pending => {
                let turn = self.stream.source_polled(gate, StreamPoll::Pending);
                fallible_turn(turn)
            },
        }
    }

    /// The stream is dropped: it leaves the order gate, if it has not left it before.
    pub fn leave<W>(&mut self, gate: &mut OrderGate<T::Key, W>) -> (left: (
        Option<Member<T::Key, W>>,
        Vec<W>,
    ))
        requires
            old(gate)@.wf(),
            old(self)@.linked(old(gate)@),
            totally_ordered::<T::Key>(),
        ensures
            final(gate)@.wf(),
            final(self)@.linked(final(gate)@),
            old(gate)@.keeps_others(final(gate)@, old(self)@.member_id),
            has_left(old(self)@, old(gate)@, left.0, left.1@, final(self)@, final(gate)@),
    {
        self.stream.leave(gate)
    }
}

} // verus!
