use vstd::prelude::*;

use crate::budget::WORK_BUDGET;
use crate::key_order::{key_less, key_le, key_lt, lemma_key_order, totally_ordered};
use crate::poll::{StreamPoll, TryStreamPoll};

verus! {

/// An item with a canonical key used for ordered stream merging.
///
/// The key is extracted once when an item becomes the current head of an input
/// stream. Equal keys are allowed; an ordered merge resolves them by input
/// order.
pub trait Ordered {
    /// The canonical key used to merge this item with other ordered items.
    type Key: Ord;

    /// Return this item's canonical merge key.
    fn order_key(&self) -> Self::Key;
}

/// What the merge holds of one input: at most one head, with the key that was
/// extracted when the item arrived.
pub enum Slot<T: Ordered> {
    /// The input is unfinished and has no head.
    Missing,
    /// The input's current head.
    Head { item: T, key: T::Key },
    /// The input has completed and its last head has been emitted.
    Done,
}

/// What the caller has to do next in one downstream poll of a merge.
pub enum MergeStep {
    /// Poll this input and report the outcome.
    PollInput(usize),
    /// Every unfinished input has a head: take the selected item.
    Select,
    /// A head is missing: return pending, after asking whether to wake.
    Suspend,
    /// The merge has completed.
    Finished,
}

/// The mathematical state of an ordered merge.
pub struct MergeState<T: Ordered> {
    /// One slot per input, in input order.
    pub slots: Seq<Slot<T>>,
    /// The input at which the scan continues.
    pub cursor: int,
    /// The inputs that the current scan has still to visit.
    pub scan_remaining: int,
    /// The wake generation that was current when the scan began.
    pub scan_generation: usize,
    /// The inputs that the current downstream poll has visited.
    pub work: int,
    /// The inputs that were polled and found pending since the scan began.
    pub parked: Set<int>,
    /// The merge has reported its completion.
    pub terminated: bool,
}

/// The number of unfinished inputs without a head.
pub open spec fn missing_count<T: Ordered>(slots: Seq<Slot<T>>) -> nat
    decreases slots.len(),
{
    if slots.len() == 0 {
        0
    } else {
        missing_count(slots.drop_last()) + if slots.last() is Missing {
            1nat
        } else {
            0nat
        }
    }
}

/// No unfinished input lacks a head.
pub open spec fn no_missing<T: Ordered>(slots: Seq<Slot<T>>) -> bool {
    forall|i: int| 0 <= i < slots.len() ==> !(#[trigger] slots[i] is Missing)
}

/// Input `i` is the one to emit: no head is smaller, and no earlier input has
/// an equal one.
pub open spec fn is_selected<T: Ordered>(slots: Seq<Slot<T>>, i: int) -> bool {
    &&& 0 <= i < slots.len()
    &&& slots[i] is Head
    &&& forall|j: int|
        0 <= j < slots.len() && #[trigger] slots[j] is Head ==> key_le(
            slots[i]->key,
            slots[j]->key,
        )
    &&& forall|j: int|
        0 <= j < i && #[trigger] slots[j] is Head ==> key_lt(slots[i]->key, slots[j]->key)
}

/// No input has a head.
pub open spec fn no_head<T: Ordered>(slots: Seq<Slot<T>>) -> bool {
    forall|i: int| 0 <= i < slots.len() ==> !(#[trigger] slots[i] is Head)
}

/// Where a round trip over `n` inputs stands at step `x < 2 * n`.
pub open spec fn wrapped(x: int, n: int) -> int {
    if x < n {
        x
    } else {
        x - n
    }
}

impl<T: Ordered> MergeState<T> {
    /// The current scan has still to visit input `i`.
    pub open spec fn awaits(self, i: int) -> bool {
        exists|d: int|
            0 <= d < self.scan_remaining && i == #[trigger] wrapped(
                self.cursor + d,
                self.slots.len() as int,
            )
    }

    /// Every input without a head, `except` aside, is still ahead of the scan or
    /// was found pending by it.
    pub open spec fn covered(self, except: int) -> bool {
        forall|i: int|
            0 <= i < self.slots.len() && #[trigger] self.slots[i] is Missing && i != except
                ==> self.awaits(i) || self.parked.contains(i)
    }

    /// The counters are in range, and an unfinished scan accounts for every
    /// input without a head, except for the one that is being polled.
    pub open spec fn wf_while_polling(self, polled: int) -> bool {
        &&& self.slots.len() <= usize::MAX
        &&& 0 <= self.cursor
        &&& self.slots.len() > 0 ==> self.cursor < self.slots.len()
        &&& 0 <= self.scan_remaining <= self.slots.len()
        &&& 0 <= self.work <= WORK_BUDGET
        &&& self.scan_remaining > 0 ==> self.covered(polled)
        &&& self.terminated ==> no_missing(self.slots) && no_head(self.slots)
    }

    /// The state is well-formed, and no input is being polled.
    pub open spec fn wf(self) -> bool {
        self.wf_while_polling(-1)
    }

    /// How many inputs the scan may visit before this downstream poll has to stop.
    pub open spec fn reach(self) -> int {
        if self.scan_remaining < WORK_BUDGET - self.work {
            self.scan_remaining
        } else {
            WORK_BUDGET - self.work
        }
    }

    /// The first input without a head is `k` visits away.
    pub open spec fn first_missing_after(self, k: int) -> bool {
        let n = self.slots.len() as int;
        &&& self.slots[wrapped(self.cursor + k, n)] is Missing
        &&& forall|d: int|
            0 <= d < k ==> !(self.slots[#[trigger] wrapped(self.cursor + d, n)] is Missing)
    }

    /// The next `k` inputs of the scan have heads or are done.
    pub open spec fn all_present_for(self, k: int) -> bool {
        forall|d: int|
            0 <= d < k ==> !(self.slots[#[trigger] wrapped(
                self.cursor + d,
                self.slots.len() as int,
            )] is Missing)
    }

    /// The state after the scan has moved on by `k` visits.
    pub open spec fn moved(self, k: int) -> Self {
        MergeState {
            cursor: wrapped(self.cursor + k, self.slots.len() as int),
            scan_remaining: self.scan_remaining - k,
            work: self.work + k,
            ..self
        }
    }

    /// Going on with the scan from this state leads to `step` and `next`: past
    /// inputs that need no poll to the first one that does, unless the scan or
    /// the work budget ends before, or no head is missing at all.
    pub open spec fn continues(self, step: MergeStep, next: Self) -> bool {
        if no_missing(self.slots) {
            step == MergeStep::Select && next == (MergeState { scan_remaining: 0, ..self })
        } else if 0 < self.reach() && self.slots[self.cursor] is Missing {
            step == MergeStep::PollInput(self.cursor as usize) && next == self.moved(1)
        } else if self.all_present_for(self.reach()) {
            step == MergeStep::Suspend && next == self.moved(self.reach())
        } else {
            exists|k: int|
                0 <= k < self.reach() && #[trigger] self.first_missing_after(k) && step
                    == MergeStep::PollInput(
                    wrapped(self.cursor + k, self.slots.len() as int) as usize,
                ) && next == self.moved(k + 1)
        }
    }

    /// The state after input `i`'s slot has become `slot`.
    pub open spec fn filled(self, i: int, slot: Slot<T>) -> Self {
        MergeState { slots: self.slots.update(i, slot), ..self }
    }

    /// The state after input `i` was polled and found pending.
    pub open spec fn found_pending(self, i: int) -> Self {
        MergeState { parked: self.parked.insert(i), ..self }
    }

    /// The state after the head of input `i` has been emitted: only that input
    /// has to be replenished before the next selection.
    pub open spec fn emitted(self, i: int, generation: usize) -> Self {
        MergeState {
            slots: self.slots.update(i, Slot::Missing),
            cursor: i,
            scan_remaining: 1,
            scan_generation: generation,
            parked: Set::empty(),
            ..self
        }
    }

    /// What beginning a downstream poll does: a completed merge stays as it is, and
    /// so does one with every head present; otherwise the inputs are scanned.
    pub open spec fn begins(self, generation: usize, step: MergeStep, next: Self) -> bool {
        if self.terminated {
            step == MergeStep::Finished && next == self
        } else if no_missing(self.slots) {
            step == MergeStep::Select && next == self
        } else {
            self.scanning(generation).continues(step, next)
        }
    }

    /// What reporting the poll of input `i` does: an item becomes the input's head
    /// under the key that was extracted for it, the end finishes the input, and then
    /// the scan goes on.
    pub open spec fn reports(self, i: int, outcome: StreamPoll<T>, step: MergeStep, next: Self) -> bool {
        match outcome {
            StreamPoll::Item(item) => {
                let key = next.slots[i]->key;
                &&& call_ensures(T::order_key, (&item,), key)
                &&& self.filled(i, Slot::Head { item, key }).continues(step, next)
            },
            StreamPoll::End => self.filled(i, Slot::Done).continues(step, next),
            StreamPoll::Pending => self.found_pending(i).continues(step, next),
        }
    }

    /// What taking the selected head does: the smallest one is emitted, and without
    /// any the merge completes.
    pub open spec fn selects(self, generation: usize, item: Option<T>, next: Self) -> bool {
        match item {
            Some(item) => exists|i: int| #[trigger]
                is_selected(self.slots, i) && item == self.slots[i]->item && next == self.emitted(
                    i,
                    generation,
                ),
            None => no_head(self.slots) && next == (MergeState { terminated: true, ..self }),
        }
    }

    /// The state in which a downstream poll begins to scan: a finished scan is
    /// followed by a complete new one, an unfinished one goes on.
    pub open spec fn scanning(self, generation: usize) -> Self {
        if self.scan_remaining == 0 {
            MergeState {
                scan_remaining: self.slots.len() as int,
                scan_generation: generation,
                work: 0,
                parked: Set::empty(),
                ..self
            }
        } else {
            MergeState { work: 0, ..self }
        }
    }
}

/// A merge of individually ordered inputs that selects one head at a time.
///
/// The inputs themselves stay with the caller: the merge says which input to
/// poll, is told what the poll gave, and decides what to emit.
pub struct MergeOrderedStream<T: Ordered> {
    slots: Vec<Slot<T>>,
    missing_heads: usize,
    poll_cursor: usize,
    scan_remaining: usize,
    scan_generation: usize,
    work: usize,
    parked: Ghost<Set<int>>,
    terminated: bool,
}

impl<T: Ordered> View for MergeOrderedStream<T> {
    type V = MergeState<T>;

    closed spec fn view(&self) -> MergeState<T> {
        MergeState {
            slots: self.slots@,
            cursor: self.poll_cursor as int,
            scan_remaining: self.scan_remaining as int,
            scan_generation: self.scan_generation,
            work: self.work as int,
            parked: self.parked@,
            terminated: self.terminated,
        }
    }
}

proof fn lemma_missing_count_update<T: Ordered>(slots: Seq<Slot<T>>, i: int, slot: Slot<T>)
    requires
        0 <= i < slots.len(),
    ensures
        missing_count(slots.update(i, slot)) + (if slots[i] is Missing {
            1nat
        } else {
            0nat
        }) == missing_count(slots) + (if slot is Missing {
            1nat
        } else {
            0nat
        }),
    decreases slots.len(),
{
    let updated = slots.update(i, slot);
    if i == slots.len() - 1 {
        assert(updated.drop_last() =~= slots.drop_last());
    } else {
        assert(updated.drop_last() =~= slots.drop_last().update(i, slot));
        lemma_missing_count_update(slots.drop_last(), i, slot);
    }
}

proof fn lemma_missing_count<T: Ordered>(slots: Seq<Slot<T>>)
    ensures
        missing_count(slots) <= slots.len(),
        missing_count(slots) == 0 <==> no_missing(slots),
    decreases slots.len(),
{
    if slots.len() > 0 {
        let init = slots.drop_last();
        lemma_missing_count(init);
        if no_missing(slots) {
            assert forall|i: int| 0 <= i < init.len() implies !(#[trigger] init[i] is Missing) by {
                assert(init[i] == slots[i]);
            }
        }
        if missing_count(slots) == 0 {
            assert forall|i: int| 0 <= i < slots.len() implies !(#[trigger] slots[i] is Missing) by {
                if i < init.len() {
                    assert(init[i] == slots[i]);
                }
            }
        } else if slots.last() is Missing {
            assert(slots[slots.len() - 1] is Missing);
        } else {
            let i = choose|i: int| 0 <= i < init.len() && #[trigger] init[i] is Missing;
            assert(slots[i] is Missing);
        }
    }
}

proof fn lemma_all_missing<T: Ordered>(slots: Seq<Slot<T>>)
    requires
        forall|i: int| 0 <= i < slots.len() ==> #[trigger] slots[i] is Missing,
    ensures
        missing_count(slots) == slots.len(),
    decreases slots.len(),
{
    if slots.len() > 0 {
        assert(slots[slots.len() - 1] is Missing);
        assert forall|i: int| 0 <= i < slots.drop_last().len() implies #[trigger] slots.drop_last()[i] is Missing by {
            assert(slots.drop_last()[i] == slots[i]);
        }
        lemma_all_missing(slots.drop_last());
    }
}

proof fn lemma_moved_covers<T: Ordered>(s: MergeState<T>, k: int, polled: int)
    requires
        0 <= s.cursor < s.slots.len(),
        0 <= k <= s.scan_remaining <= s.slots.len(),
        s.covered(-1),
        forall|d: int|
            0 <= d < k ==> !(s.slots[#[trigger] wrapped(s.cursor + d, s.slots.len() as int)] is Missing)
                || wrapped(s.cursor + d, s.slots.len() as int) == polled,
    ensures
        s.moved(k).covered(polled),
{
    let n = s.slots.len() as int;
    let t = s.moved(k);
    assert forall|i: int|
        0 <= i < t.slots.len() && #[trigger] t.slots[i] is Missing && i != polled implies t.awaits(i)
        || t.parked.contains(i) by {
        assert(s.slots[i] is Missing);
        if s.awaits(i) {
            let d = choose|d: int| 0 <= d < s.scan_remaining && i == #[trigger] wrapped(s.cursor + d, n);
            if d >= k {
                assert(wrapped(t.cursor + (d - k), n) == i);
            }
        }
    }
}

proof fn lemma_filled_covers<T: Ordered>(s: MergeState<T>, i: int, slot: Slot<T>)
    requires
        0 <= i < s.slots.len(),
        s.covered(i),
        !(slot is Missing),
    ensures
        s.filled(i, slot).covered(-1),
{
    let t = s.filled(i, slot);
    assert forall|j: int| 0 <= j < t.slots.len() && #[trigger] t.slots[j] is Missing implies t.awaits(j)
        || t.parked.contains(j) by {
        assert(s.slots[j] is Missing);
        lemma_awaits_same(s, t, j);
    }
}

proof fn lemma_found_pending_covers<T: Ordered>(s: MergeState<T>, i: int)
    requires
        s.covered(i),
    ensures
        s.found_pending(i).covered(-1),
{
    let t = s.found_pending(i);
    assert forall|j: int| 0 <= j < t.slots.len() && #[trigger] t.slots[j] is Missing implies t.awaits(j)
        || t.parked.contains(j) by {
        assert(s.slots[j] is Missing);
        lemma_awaits_same(s, t, j);
    }
}

proof fn lemma_emitted_covers<T: Ordered>(s: MergeState<T>, i: int, generation: usize)
    requires
        0 <= i < s.slots.len(),
        no_missing(s.slots),
    ensures
        s.emitted(i, generation).covered(-1),
{
    let t = s.emitted(i, generation);
    assert forall|j: int| 0 <= j < t.slots.len() && #[trigger] t.slots[j] is Missing implies t.awaits(j) by {
        if j != i {
            assert(s.slots[j] is Missing);
        }
        assert(wrapped(t.cursor + 0, t.slots.len() as int) == i);
    }
}

proof fn lemma_awaits_same<T: Ordered>(s: MergeState<T>, t: MergeState<T>, i: int)
    requires
        s.cursor == t.cursor,
        s.scan_remaining == t.scan_remaining,
        s.slots.len() == t.slots.len(),
    ensures
        s.awaits(i) ==> t.awaits(i),
{
    let n = s.slots.len() as int;
    if s.awaits(i) {
        let d = choose|d: int| 0 <= d < s.scan_remaining && i == #[trigger] wrapped(s.cursor + d, n);
        assert(wrapped(t.cursor + d, n) == i);
    }
}

/// Selecting among one more slot: the new head wins only when it is smaller.
proof fn lemma_selected_extends<T: Ordered>(
    slots: Seq<Slot<T>>,
    index: int,
    before: Option<usize>,
    after: Option<usize>,
)
    requires
        0 <= index < slots.len(),
        totally_ordered::<T::Key>(),
        match before {
            Some(i) => i < index && is_selected(slots.take(index), i as int),
            None => no_head(slots.take(index)),
        },
        after == (if slots[index] is Head && (match before {
            Some(i) => key_lt(slots[index]->key, slots[i as int]->key),
            None => true,
        }) {
            Some(index as usize)
        } else {
            before
        }),
        index <= usize::MAX,
    ensures
        match after {
            Some(i) => i < index + 1 && is_selected(slots.take(index + 1), i as int),
            None => no_head(slots.take(index + 1)),
        },
{
    let seen = slots.take(index);
    let next = slots.take(index + 1);
    assert forall|j: int| 0 <= j < index implies #[trigger] next[j] == seen[j] by {}
    assert(next[index] == slots[index]);
    match after {
        Some(i) => {
            let i = i as int;
            assert forall|j: int| 0 <= j < next.len() && #[trigger] next[j] is Head implies key_le(
                next[i]->key,
                next[j]->key,
            ) && (j < i ==> key_lt(next[i]->key, next[j]->key)) by {
                if j < index {
                    assert(seen[j] is Head);
                }
                match before {
                    Some(b) => {
                        lemma_key_order(next[i]->key, next[b as int]->key, next[j]->key);
                    },
                    None => {},
                }
                lemma_key_order(next[i]->key, next[i]->key, next[j]->key);
            }
        },
        None => {
            assert forall|j: int| 0 <= j < next.len() implies !(#[trigger] next[j] is Head) by {
                if j < index {
                    assert(!(seen[j] is Head));
                }
            }
        },
    }
}

impl<T: Ordered> MergeOrderedStream<T> {
    /// The counter of missing heads is right.
    closed spec fn counted(&self) -> bool {
        self.missing_heads == missing_count(self.slots@)
    }

    /// The merge is consistent while input `polled` is being polled.
    pub closed spec fn wf_while_polling(&self, polled: int) -> bool {
        self.counted() && self@.wf_while_polling(polled)
    }

    /// The merge is consistent and no input is being polled.
    pub open spec fn wf(&self) -> bool {
        self.wf_while_polling(-1)
    }

    /// What holds of the merge after it has asked for `step`.
    pub open spec fn ready_for(&self, step: MergeStep) -> bool {
        match step {
            MergeStep::PollInput(i) => {
                &&& i < self@.slots.len()
                &&& self@.slots[i as int] is Missing
                &&& self@.covered(i as int)
                &&& self.wf_while_polling(i as int)
            },
            MergeStep::Select => self.wf() && no_missing(self@.slots) && !self@.terminated,
            MergeStep::Suspend => self.wf() && self@.covered(-1) && !no_missing(self@.slots),
            MergeStep::Finished => self.wf(),
        }
    }

    /// Goes on with the scan: past inputs that need no poll, to the next that does.
    fn advance(&mut self) -> (step: MergeStep)
        requires
            old(self).wf_while_polling(-1),
            old(self)@.covered(-1),
            !old(self)@.terminated,
        ensures
            old(self)@.continues(step, final(self)@),
            final(self).ready_for(step),
    {
        let ghost s = self@;
        let ghost mut k: int = 0;
        proof {
            lemma_missing_count(self.slots@);
        }
        while self.missing_heads > 0 && self.scan_remaining > 0 && self.work < WORK_BUDGET
            invariant
                s == old(self)@,
                s.wf(),
                s.covered(-1),
                !s.terminated,
                0 <= k <= s.reach(),
                s.all_present_for(k),
                self@ == s.moved(k),
                self.counted(),
                self.missing_heads == old(self).missing_heads,
                self.missing_heads == 0 <==> no_missing(s.slots),
                self.missing_heads == 0 ==> k == 0,
            decreases self.scan_remaining,
        {
            let index: usize = self.poll_cursor;
            proof {
                let i = choose|i: int| 0 <= i < s.slots.len() && #[trigger] s.slots[i] is Missing;
                assert(s.slots.len() > 0);
                assert(index == wrapped(s.cursor + k, s.slots.len() as int));
            }
            self.poll_cursor = if index + 1 == self.slots.len() {
                0
            } else {
                index + 1
            };
            self.scan_remaining = self.scan_remaining - 1;
            self.work = self.work + 1;
            proof {
                assert(self@ == s.moved(k + 1));
            }
            let missing = match &self.slots[index] {
                Slot::Missing => true,
                _ => false,
            };
            if missing {
                proof {
                    assert(wrapped(s.cursor + 0, s.slots.len() as int) == s.cursor);
                    assert(s.first_missing_after(k));
                    assert(!s.all_present_for(s.reach())) by {
                        assert(wrapped(s.cursor + k, s.slots.len() as int) == index);
                    }
                    lemma_moved_covers(s, k + 1, index as int);
                }
                return MergeStep::PollInput(index);
            }
            proof {
                k = k + 1;
            }
        }
        if self.missing_heads > 0 {
            proof {
                lemma_moved_covers(s, k, -1);
            }
            MergeStep::Suspend
        } else {
            self.scan_remaining = 0;
            MergeStep::Select
        }
    }

    /// Begins a downstream poll at wake generation `generation`.
    ///
    /// When a head is missing, an unfinished scan of the inputs goes on and a
    /// finished one is followed by a complete new one.
    pub fn begin_poll(&mut self, generation: usize) -> (step: MergeStep)
        requires
            old(self).wf(),
        ensures
            old(self)@.begins(generation, step, final(self)@),
            final(self).ready_for(step),
    {
        proof {
            lemma_missing_count(self.slots@);
        }
        if self.terminated {
            return MergeStep::Finished;
        }
        if self.missing_heads == 0 {
            return MergeStep::Select;
        }
        if self.scan_remaining == 0 {
            self.scan_remaining = self.slots.len();
            self.scan_generation = generation;
            proof {
                self.parked@ = Set::empty();
            }
        }
        self.work = 0;
        proof {
            let t = self@;
            assert(t == old(self)@.scanning(generation));
            let n = t.slots.len() as int;
            assert(n > 0) by {
                let i = choose|i: int| 0 <= i < n && #[trigger] t.slots[i] is Missing;
            }
            if old(self)@.scan_remaining == 0 {
                assert forall|i: int| 0 <= i < n && #[trigger] t.slots[i] is Missing implies t.awaits(i) by {
                    let d = if i >= t.cursor {
                        i - t.cursor
                    } else {
                        i - t.cursor + n
                    };
                    assert(wrapped(t.cursor + d, n) == i);
                }
            } else {
                assert forall|i: int| 0 <= i < n && #[trigger] t.slots[i] is Missing implies t.awaits(i)
                    || t.parked.contains(i) by {
                    assert(old(self)@.slots[i] is Missing);
                    if old(self)@.awaits(i) {
                        let d = choose|d: int|
                            0 <= d < old(self)@.scan_remaining && i == #[trigger] wrapped(
                                old(self)@.cursor + d,
                                n,
                            );
                        assert(wrapped(t.cursor + d, n) == i);
                    }
                }
            }
        }
        self.advance()
    }

    /// Reports what the poll of input `index` gave, and goes on.
    ///
    /// An item becomes the input's head, and its key is extracted here, once.
    pub fn input_polled(&mut self, index: usize, outcome: StreamPoll<T>) -> (step: MergeStep)
        requires
            index < old(self)@.slots.len(),
            old(self)@.slots[index as int] is Missing,
            old(self).wf_while_polling(index as int),
            old(self)@.covered(index as int),
        ensures
            old(self)@.reports(index as int, outcome, step, final(self)@),
            final(self).ready_for(step),
    {
        proof {
            lemma_missing_count(self.slots@);
        }
        let ghost before = self@;
        match outcome {
            StreamPoll::Item(item) => {
                let key = item.order_key();
                let slot = Slot::Head { item, key };
                proof {
                    lemma_missing_count_update(self.slots@, index as int, slot);
                }
                self.slots[index] = slot;
                self.missing_heads = self.missing_heads - 1;
                proof {
                    lemma_filled_covers(before, index as int, slot);
                }
            },
            StreamPoll::End => {
                proof {
                    lemma_missing_count_update(self.slots@, index as int, Slot::Done);
                }
                self.slots[index] = Slot::Done;
                self.missing_heads = self.missing_heads - 1;
                proof {
                    lemma_filled_covers(before, index as int, Slot::Done);
                }
            },
            StreamPoll::Pending => {
                proof {
                    self.parked@ = self.parked@.insert(index as int);
                    lemma_found_pending_covers(before, index as int);
                }
            },
        }
        self.advance()
    }

    /// Gives up the current scan because input `index` produced an error.
    ///
    /// Every head is kept and the input stays unfinished. The cursor stays where
    /// the scan had come to, and the next downstream poll begins a complete scan.
    pub(crate) fn abandon_scan(&mut self, index: usize)
        requires
            old(self).wf_while_polling(index as int),
        ensures
            final(self).wf(),
            final(self)@ == (MergeState { scan_remaining: 0, ..old(self)@ }),
    {
        self.scan_remaining = 0;
    }

    /// Whether a poll that ends pending has to wake its own task, at wake
    /// generation `generation`.
    ///
    /// It has to when the scan is unfinished, or when some input woke since the
    /// scan began. Otherwise every input without a head was found pending by this
    /// scan and none has woken since: their wakers control the next attempt.
    pub fn must_wake(&self, generation: usize) -> (wake: bool)
        requires
            self.wf(),
            self@.covered(-1),
        ensures
            wake == (self@.scan_remaining > 0 || generation != self@.scan_generation),
            !wake ==> forall|i: int|
                0 <= i < self@.slots.len() && #[trigger] self@.slots[i] is Missing
                    ==> self@.parked.contains(i),
    {
        self.scan_remaining > 0 || generation != self.scan_generation
    }

    /// Takes the selected head: the smallest one, and of equal ones the one of
    /// the earliest input. `None` completes the merge.
    pub fn select(&mut self, generation: usize) -> (item: Option<T>)
        requires
            old(self).wf(),
            no_missing(old(self)@.slots),
            !old(self)@.terminated,
            totally_ordered::<T::Key>(),
        ensures
            final(self).wf(),
            old(self)@.selects(generation, item, final(self)@),
            item is Some ==> !no_missing(final(self)@.slots),
    {
        let ghost slots = self.slots@;
        proof {
            lemma_missing_count(slots);
        }
        let mut selected: Option<usize> = None;
        let mut index: usize = 0;
        while index < self.slots.len()
            invariant
                self.slots@ == slots,
                *self == *old(self),
                index <= slots.len(),
                totally_ordered::<T::Key>(),
                match selected {
                    Some(i) => i < index && is_selected(slots.take(index as int), i as int),
                    None => no_head(slots.take(index as int)),
                },
            decreases self.slots.len() - index,
        {
            let ghost before = selected;
            let should_select = match &self.slots[index] {
                Slot::Head { item: _, key } => match selected {
                    Some(i) => match &self.slots[i] {
                        Slot::Head { item: _, key: selected_key } => key_less(key, selected_key),
                        _ => false,
                    },
                    None => true,
                },
                _ => false,
            };
            if should_select {
                selected = Some(index);
            }
            proof {
                lemma_selected_extends(slots, index as int, before, selected);
            }
            index = index + 1;
        }
        proof {
            assert(slots.take(slots.len() as int) =~= slots);
        }
        match selected {
            None => {
                self.terminated = true;
                None
            },
            Some(i) => {
                let mut slot = Slot::Missing;
                proof {
                    lemma_missing_count_update(slots, i as int, Slot::Missing);
                }
                std::mem::swap(&mut self.slots[i], &mut slot);
                self.missing_heads = self.missing_heads + 1;
                self.poll_cursor = i;
                self.scan_remaining = 1;
                self.scan_generation = generation;
                proof {
                    self.parked@ = Set::empty();
                    assert(self.slots@ =~= slots.update(i as int, Slot::Missing));
                    lemma_emitted_covers(old(self)@, i as int, generation);
                }
                match slot {
                    Slot::Head { item, key: _ } => Some(item),
                    _ => None,
                }
            },
        }
    }
}

/// Merge `inputs` inputs whose items have a canonical [`Ordered`] key.
///
/// Each input must already be ordered by a nondecreasing key. The result is
/// pull-based and lossless, preserves the order within every input, and emits
/// equal-key items from earlier inputs first. No input is polled yet.
pub fn merge_ordered<T: Ordered>(inputs: usize) -> (merge: MergeOrderedStream<T>)
    ensures
        merge.wf(),
        merge@ == (MergeState::<T> {
            slots: Seq::new(inputs as nat, |i: int| Slot::Missing),
            cursor: 0,
            scan_remaining: 0,
            scan_generation: 0,
            work: 0,
            parked: Set::empty(),
            terminated: false,
        }),
        no_missing(merge@.slots) <==> inputs == 0,
{
    let mut slots: Vec<Slot<T>> = Vec::new();
    let mut i: usize = 0;
    while i < inputs
        invariant
            i <= inputs,
            slots@.len() == i,
            forall|j: int| 0 <= j < i ==> #[trigger] slots@[j] == Slot::<T>::Missing,
        decreases inputs - i,
    {
        slots.push(Slot::Missing);
        i = i + 1;
    }
    proof {
        lemma_all_missing(slots@);
        assert(slots@ =~= Seq::new(inputs as nat, |i: int| Slot::<T>::Missing));
        assert(inputs > 0 ==> slots@[0] is Missing);
    }
    MergeOrderedStream {
        slots,
        missing_heads: inputs,
        poll_cursor: 0,
        scan_remaining: 0,
        scan_generation: 0,
        work: 0,
        parked: Ghost(Set::empty()),
        terminated: false,
    }
}

/// What the caller has to do next in one downstream poll of a fallible merge.
pub enum TryMergeStep<E> {
    /// Poll this input and report the outcome.
    PollInput(usize),
    /// Emit this error at once.
    Fail(E),
    /// Every unfinished input has a head: take the selected item.
    Select,
    /// A head is missing: return pending, after asking whether to wake.
    Suspend,
    /// The merge has completed.
    Finished,
}

/// The step of the infallible merge that a step of the fallible one stands for.
pub open spec fn infallible<E>(step: TryMergeStep<E>) -> MergeStep
    recommends
        !(step is Fail),
{
    match step {
        TryMergeStep::PollInput(i) => MergeStep::PollInput(i),
        TryMergeStep::Select => MergeStep::Select,
        TryMergeStep::Suspend => MergeStep::Suspend,
        _ => MergeStep::Finished,
    }
}

fn fallible<E>(step: MergeStep) -> (result: TryMergeStep<E>)
    ensures
        !(result is Fail),
        infallible(result) == step,
{
    match step {
        MergeStep::PollInput(i) => TryMergeStep::PollInput(i),
        MergeStep::Select => TryMergeStep::Select,
        MergeStep::Suspend => TryMergeStep::Suspend,
        MergeStep::Finished => TryMergeStep::Finished,
    }
}

/// An ordered merge of fallible inputs.
///
/// Successful items follow the rules of [`MergeOrderedStream`]. An error is
/// emitted as soon as it is observed; it neither discards a head nor completes
/// its input.
pub struct TryMergeOrderedStream<T: Ordered> {
    merge: MergeOrderedStream<T>,
}

impl<T: Ordered> View for TryMergeOrderedStream<T> {
    type V = MergeState<T>;

    closed spec fn view(&self) -> MergeState<T> {
        self.merge@
    }
}

impl<T: Ordered> TryMergeOrderedStream<T> {
    /// The merge is consistent while input `polled` is being polled.
    pub closed spec fn wf_while_polling(&self, polled: int) -> bool {
        self.merge.wf_while_polling(polled)
    }

    /// The merge is consistent and no input is being polled.
    pub open spec fn wf(&self) -> bool {
        self.wf_while_polling(-1)
    }

    /// What holds of the merge after it has asked for `step`.
    pub open spec fn ready_for<E>(&self, step: TryMergeStep<E>) -> bool {
        match step {
            TryMergeStep::PollInput(i) => {
                &&& i < self@.slots.len()
                &&& self@.slots[i as int] is Missing
                &&& self@.covered(i as int)
                &&& self.wf_while_polling(i as int)
            },
            TryMergeStep::Select => self.wf() && no_missing(self@.slots) && !self@.terminated,
            TryMergeStep::Suspend => self.wf() && self@.covered(-1) && !no_missing(self@.slots),
            TryMergeStep::Fail(_) => self.wf(),
            TryMergeStep::Finished => self.wf(),
        }
    }

    /// Begins a downstream poll at wake generation `generation`.
    pub fn begin_poll<E>(&mut self, generation: usize) -> (step: TryMergeStep<E>)
        requires
            old(self).wf(),
        ensures
            !(step is Fail),
            old(self)@.begins(generation, infallible(step), final(self)@),
            final(self).ready_for(step),
    {
        let step = self.merge.begin_poll(generation);
        fallible(step)
    }

    /// Reports what the poll of input `index` gave, and goes on.
    ///
    /// An error passes through at once, with every head kept; no key is
    /// extracted for it, and the input stays unfinished and without a head.
    pub fn input_polled<E>(&mut self, index: usize, outcome: TryStreamPoll<T, E>) -> (step:
        TryMergeStep<E>)
        requires
            index < old(self)@.slots.len(),
            old(self)@.slots[index as int] is Missing,
            old(self).wf_while_polling(index as int),
            old(self)@.covered(index as int),
        ensures
            match outcome {
                TryStreamPoll::Failed(error) => {
                    &&& step == TryMergeStep::Fail(error)
                    &&& final(self)@ == (MergeState { scan_remaining: 0, ..old(self)@ })
                },
                TryStreamPoll::Item(item) => {
                    &&& !(step is Fail)
                    &&& old(self)@.reports(
                        index as int,
                        StreamPoll::Item(item),
                        infallible(step),
                        final(self)@,
                    )
                },
                TryStreamPoll::End => {
                    &&& !(step is Fail)
                    &&& old(self)@.reports(
                        index as int,
                        StreamPoll::End,
                        infallible(step),
                        final(self)@,
                    )
                },
                TryStreamPoll::Pending => {
                    &&& !(step is Fail)
                    &&& old(self)@.reports(
                        index as int,
                        StreamPoll::Pending,
                        infallible(step),
                        final(self)@,
                    )
                },
            },
            final(self).ready_for(step),
    {
        match outcome {
            TryStreamPoll::Item(item) => {
                let step = self.merge.input_polled(index, StreamPoll::Item(item));
                fallible(step)
            },
            TryStreamPoll::Failed(error) => {
                self.merge.abandon_scan(index);
                TryMergeStep::Fail(error)
            },
            TryStreamPoll::End => {
                let step = self.merge.input_polled(index, StreamPoll::End);
                fallible(step)
            },
            TryStreamPoll::Pending => {
                let step = self.merge.input_polled(index, StreamPoll::Pending);
                fallible(step)
            },
        }
    }

    /// Whether a poll that ends pending has to wake its own task.
    pub fn must_wake(&self, generation: usize) -> (wake: bool)
        requires
            self.wf(),
            self@.covered(-1),
        ensures
            wake == (self@.scan_remaining > 0 || generation != self@.scan_generation),
            !wake ==> forall|i: int|
                0 <= i < self@.slots.len() && #[trigger] self@.slots[i] is Missing
                    ==> self@.parked.contains(i),
    {
        self.merge.must_wake(generation)
    }

    /// Takes the selected head. `None` completes the merge.
    pub fn select(&mut self, generation: usize) -> (item: Option<T>)
        requires
            old(self).wf(),
            no_missing(old(self)@.slots),
            !old(self)@.terminated,
            totally_ordered::<T::Key>(),
        ensures
            final(self).wf(),
            old(self)@.selects(generation, item, final(self)@),
            item is Some ==> !no_missing(final(self)@.slots),
    {
        self.merge.select(generation)
    }
}

/// Merge `inputs` fallible inputs whose successful items have an [`Ordered`] key.
///
/// Removing every error from the result leaves what [`merge_ordered`] gives for
/// the successful items of every input.
pub fn try_merge_ordered<T: Ordered>(inputs: usize) -> (merge: TryMergeOrderedStream<T>)
    ensures
        merge.wf(),
        merge@ == (MergeState::<T> {
            slots: Seq::new(inputs as nat, |i: int| Slot::Missing),
            cursor: 0,
            scan_remaining: 0,
            scan_generation: 0,
            work: 0,
            parked: Set::empty(),
            terminated: false,
        }),
        no_missing(merge@.slots) <==> inputs == 0,
{
    TryMergeOrderedStream { merge: merge_ordered(inputs) }
}

/// What the wakers of the inputs share with a merge: how often they woke, and
/// whom to wake.
///
/// It is kept apart from the merge because an input may wake while it is polled.
pub struct ScanWake<W> {
    generation: usize,
    downstream: Option<W>,
}

impl<W> ScanWake<W> {
    /// How often an input woke, modulo the range of `usize`.
    pub closed spec fn spec_generation(&self) -> usize {
        self.generation
    }

    /// The waker of the latest downstream poll, unless it was used up.
    pub closed spec fn downstream(&self) -> Option<W> {
        self.downstream
    }

    /// No wake has happened and nobody waits.
    pub fn new() -> (wake: Self)
        ensures
            wake.spec_generation() == 0,
            wake.downstream() is None,
    {
        ScanWake { generation: 0, downstream: None }
    }

    /// Makes `waker` the one that the inputs wake, in place of any earlier one.
    pub fn register(&mut self, waker: W)
        ensures
            final(self).downstream() == Some(waker),
            final(self).spec_generation() == old(self).spec_generation(),
    {
        self.downstream = Some(waker);
    }

    /// The current wake generation.
    pub fn generation(&self) -> (generation: usize)
        ensures
            generation == self.spec_generation(),
    {
        self.generation
    }

    /// An input woke: begins a new generation and hands out the waker to wake.
    pub fn wake_by_ref(&mut self) -> (waker: Option<W>)
        ensures
            waker == old(self).downstream(),
            final(self).downstream() is None,
            final(self).spec_generation() == if old(self).spec_generation() == usize::MAX {
                0usize
            } else {
                (old(self).spec_generation() + 1) as usize
            },
            final(self).spec_generation() != old(self).spec_generation(),
    {
        self.generation = self.generation.wrapping_add(1);
        self.downstream.take()
    }
}

} // verus!
