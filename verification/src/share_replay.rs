use std::collections::VecDeque;
use std::task::Context;

use async_broadcast::{Receiver, Sender};
use vstd::prelude::*;

use crate::broadcast::{
    can_report, fits_in_memory, is_handle_of, makes_channel, receives_from, reports_closed,
};
use crate::budget::WORK_BUDGET;
use crate::distinct_until_changed::clones_are_equal;
use crate::hot::newest;
use crate::poll::StreamPoll;
use crate::share::{
    can_give, can_receive, closes, create_share_stream, handles, has_stopped, share_leads, ShareCall,
    ShareHub, ShareState, ShareStream,
};

verus! {

/// The mathematical state of a shared source with replay history.
#[verifier::ext_equal]
pub struct ReplayState<T> {
    /// Who is subscribed, and whether the source still runs.
    pub share: ShareState,
    /// The sequence number of the next item.
    pub next_sequence: nat,
    /// The recorded items with their sequence numbers, oldest first.
    pub history: Seq<(u64, T)>,
    /// The most items that the history holds.
    pub buffer_size: nat,
}

impl<T> ReplayState<T> {
    /// The state of a new shared source.
    pub open spec fn fresh(buffer_size: nat) -> Self {
        ReplayState {
            share: ShareState { strong: 1, closed: false },
            next_sequence: 0,
            history: Seq::empty(),
            buffer_size,
        }
    }

    /// The history is bounded, and holds the items directly before the next one.
    pub open spec fn wf(self) -> bool {
        &&& self.share.wf()
        &&& self.next_sequence <= u64::MAX
        &&& self.history.len() <= self.buffer_size
        &&& self.history.len() <= self.next_sequence
        &&& forall|i: int|
            0 <= i < self.history.len() ==> (#[trigger] self.history[i]).0 == self.next_sequence
                - self.history.len() + i
    }

    /// The state after an item is recorded, of which this is kept.
    pub open spec fn recorded(self, kept: T) -> Self {
        ReplayState {
            next_sequence: self.next_sequence + 1,
            history: newest(
                self.history.push((self.next_sequence as u64, kept)),
                self.buffer_size,
            ),
            ..self
        }
    }

    /// The state after these items are recorded.
    pub open spec fn recorded_all(self, items: Seq<T>) -> Self
        decreases items.len(),
    {
        if items.len() == 0 {
            self
        } else {
            self.recorded_all(items.drop_last()).recorded(items.last())
        }
    }
}

/// What a strong subscription has yet to give.
#[verifier::ext_equal]
pub struct ReplaySubscription<T> {
    /// The captured history that was not given out yet.
    pub replay: Seq<T>,
    /// The sequence number from which on live items belong to it.
    pub live_start: nat,
}

/// The subscription captures the history as it is at its creation, and the
/// boundary between it and what comes live.
pub open spec fn captures<T: Clone>(state: ReplayState<T>, subscription: ReplaySubscription<T>) -> bool {
    &&& subscription.live_start == state.next_sequence
    &&& subscription.replay.len() == state.history.len()
    &&& forall|i: int|
        0 <= i < state.history.len() ==> cloned(
            state.history[i].1,
            #[trigger] subscription.replay[i],
        )
}

/// What polling a subscription gives.
pub enum ReplayPoll<T> {
    /// The next item.
    Item(T),
    /// The source has completed, and everything was given out.
    End,
    /// Nothing yet; the task is woken when there is more.
    Pending,
    /// Nothing yet; the task has to be woken to go on.
    Yield,
}

/// What polling gives after the channel gave these outcomes: the first live item
/// at or above the boundary, or what stopped the search for it.
pub open spec fn live_result<T>(polled: Seq<StreamPoll<(u64, T)>>, live_start: nat) -> ReplayPoll<T> {
    match polled.last() {
        StreamPoll::Item(message) => if message.0 < live_start {
            ReplayPoll::Yield
        } else {
            ReplayPoll::Item(message.1)
        },
        StreamPoll::End => ReplayPoll::End,
        StreamPoll::Pending => ReplayPoll::Pending,
    }
}

/// The message was recorded before the subscription, and so belongs to its replay.
pub open spec fn is_stale<T>(outcome: StreamPoll<(u64, T)>, live_start: nat) -> bool {
    outcome matches StreamPoll::Item(message) && message.0 < live_start
}

/// A search for a live item: it passes over stale messages, and over no more of
/// them than the work budget allows.
pub open spec fn is_live_search<T>(polled: Seq<StreamPoll<(u64, T)>>, live_start: nat) -> bool {
    &&& 0 < polled.len() <= WORK_BUDGET
    &&& forall|i: int|
        0 <= i < polled.len() - 1 ==> is_stale(#[trigger] polled[i], live_start)
    &&& is_stale(polled.last(), live_start) ==> polled.len() == WORK_BUDGET
}

/// What one poll of a subscription does, where the channel gave these outcomes to
/// it: the captured history comes first and takes nothing from the channel; after
/// it a search for a live item decides.
pub open spec fn gives<T>(
    before: ReplaySubscription<T>,
    polled: Seq<StreamPoll<(u64, T)>>,
    outcome: ReplayPoll<T>,
    after: ReplaySubscription<T>,
) -> bool {
    &&& after.live_start == before.live_start
    &&& if before.replay.len() > 0 {
        &&& polled.len() == 0
        &&& outcome == ReplayPoll::Item(before.replay[0])
        &&& after.replay == before.replay.drop_first()
    } else {
        &&& is_live_search(polled, before.live_start)
        &&& outcome == live_result(polled, before.live_start)
        &&& after.replay == before.replay
    }
}

/// What the handles of one shared source with replay history have in common.
#[verifier::reject_recursive_types(T)]
pub struct ReplayHub<T> {
    hub: ShareHub<(u64, T)>,
    next_sequence: u64,
    buffer: VecDeque<(u64, T)>,
    buffer_size: usize,
}

impl<T> View for ReplayHub<T> {
    type V = ReplayState<T>;

    closed spec fn view(&self) -> ReplayState<T> {
        ReplayState {
            share: self.hub@,
            next_sequence: self.next_sequence as nat,
            history: self.buffer@,
            buffer_size: self.buffer_size as nat,
        }
    }
}

/// A strong subscription to one shared source with replay history, active from its
/// creation.
#[verifier::reject_recursive_types(T)]
pub struct ShareReplayStream<T> {
    live: ShareStream<(u64, T)>,
    replay: VecDeque<T>,
    live_start: u64,
}

impl<T> View for ShareReplayStream<T> {
    type V = ReplaySubscription<T>;

    closed spec fn view(&self) -> ReplaySubscription<T> {
        ReplaySubscription { replay: self.replay@, live_start: self.live_start as nat }
    }
}

impl<T> ShareReplayStream<T> {
    /// The subscription's own handle of the channel.
    pub closed spec fn receiver(&self) -> Receiver<(u64, T)> {
        self.live.receiver()
    }
}

/// A shared source with replay history, with its first strong subscription.
pub fn create_share_replay_stream<T>(buffer_size: usize, capacity: usize, overflow: bool) -> (shared:
    (ReplayHub<T>, ShareReplayStream<T>))
    requires
        capacity > 0,
        fits_in_memory::<(u64, T)>(capacity),
    ensures
        shared.0.wf(),
        shared.0@ == ReplayState::<T>::fresh(buffer_size as nat),
        shared.1@ == (ReplaySubscription::<T> { replay: Seq::empty(), live_start: 0 }),
        exists|sender: &mut Sender<(u64, T)>| #[trigger]
            makes_channel(capacity, overflow, sender, shared.1.receiver()) && *final(sender)
                == shared.0.channel(),
{
    let (hub, live) = create_share_stream::<(u64, T)>(capacity, overflow);
    let replay_hub = ReplayHub { hub, next_sequence: 0, buffer: VecDeque::new(), buffer_size };
    let stream = ShareReplayStream { live, replay: VecDeque::new(), live_start: 0 };
    assert(replay_hub.channel() == hub.channel());
    assert(stream.receiver() == live.receiver());
    (replay_hub, stream)
}

/// Lossless sharing with independent replay history and live capacity.
pub fn share_replay<T>(buffer_size: usize, capacity: usize) -> (shared: (
    ReplayHub<T>,
    ShareReplayStream<T>,
))
    requires
        capacity > 0,
        fits_in_memory::<(u64, T)>(capacity),
    ensures
        shared.0.wf(),
        shared.0@ == ReplayState::<T>::fresh(buffer_size as nat),
        shared.1@ == (ReplaySubscription::<T> { replay: Seq::empty(), live_start: 0 }),
        exists|sender: &mut Sender<(u64, T)>| #[trigger]
            makes_channel(capacity, false, sender, shared.1.receiver()) && *final(sender)
                == shared.0.channel(),
{
    create_share_replay_stream(buffer_size, capacity, false)
}

/// Replay plus drop-oldest live delivery.
pub fn share_replay_overflow<T>(buffer_size: usize, capacity: usize) -> (shared: (
    ReplayHub<T>,
    ShareReplayStream<T>,
))
    requires
        capacity > 0,
        fits_in_memory::<(u64, T)>(capacity),
    ensures
        shared.0.wf(),
        shared.0@ == ReplayState::<T>::fresh(buffer_size as nat),
        shared.1@ == (ReplaySubscription::<T> { replay: Seq::empty(), live_start: 0 }),
        exists|sender: &mut Sender<(u64, T)>| #[trigger]
            makes_channel(capacity, true, sender, shared.1.receiver()) && *final(sender)
                == shared.0.channel(),
{
    create_share_replay_stream(buffer_size, capacity, true)
}

/// Equivalent to `share_replay_overflow(1, 1)`.
pub fn share_replay_latest<T>() -> (shared: (ReplayHub<T>, ShareReplayStream<T>))
    requires
        fits_in_memory::<(u64, T)>(1),
    ensures
        shared.0.wf(),
        shared.0@ == ReplayState::<T>::fresh(1),
        shared.1@ == (ReplaySubscription::<T> { replay: Seq::empty(), live_start: 0 }),
        exists|sender: &mut Sender<(u64, T)>| #[trigger]
            makes_channel(1, true, sender, shared.1.receiver()) && *final(sender)
                == shared.0.channel(),
{
    share_replay_overflow(1, 1)
}

impl<T> ReplayHub<T> {
    /// The channel that carries the live items.
    pub closed spec fn channel(&self) -> Sender<(u64, T)> {
        self.hub.channel()
    }

    /// The channel is closed when the source has completed or was stopped.
    pub open spec fn wf(&self) -> bool {
        &&& self@.wf()
        &&& self@.share.closed ==> reports_closed(self.channel())
    }

    /// A handle through which the driver broadcasts live items.
    pub fn sender(&self) -> (sender: Sender<(u64, T)>)
        ensures
            is_handle_of(sender, self.channel()),
    {
        self.hub.sender()
    }

    /// Whether one more strong subscription can be counted.
    pub fn can_subscribe(&self) -> (can: bool)
        ensures
            can == (self@.share.strong < usize::MAX),
    {
        self.hub.can_subscribe()
    }

    /// Whether a sequence number is left for one more item.
    pub fn can_record(&self) -> (can: bool)
        ensures
            can == (self@.next_sequence < u64::MAX),
    {
        self.next_sequence < u64::MAX
    }

    /// Closes live delivery: the source has completed, or its driver is gone.
    pub fn close(&mut self)
        ensures
            final(self)@ == (ReplayState { share: old(self)@.share.completed(), ..old(self)@ }),
            reports_closed(final(self).channel()),
            exists|sender: &mut Sender<(u64, T)>| #[trigger]
                closes(sender) && *sender == old(self).channel() && *final(sender) == final(self).channel(),
            old(self)@.wf() ==> final(self).wf(),
    {
        self.hub.close();
    }

    /// Removes the subscription of a dropped strong handle. The result says whether
    /// it was the last one, with which the source is stopped.
    pub fn remove_subscription(&mut self) -> (stop: bool)
        requires
            old(self).wf(),
            old(self)@.share.strong > 0,
        ensures
            final(self).wf(),
            final(self)@ == (ReplayState { share: old(self)@.share.removed(), ..old(self)@ }),
            stop == (old(self)@.share.strong == 1),
            if stop {
                exists|sender: &mut Sender<(u64, T)>| #[trigger]
                    closes(sender) && *sender == old(self).channel() && *final(sender) == final(self).channel()
            } else {
                final(self).channel() == old(self).channel()
            },
    {
        self.hub.remove_subscription()
    }
}

impl<T: Clone> ReplayHub<T> {
    /// Records an item before its live delivery: gives it its sequence number and
    /// keeps a clone of it in the history.
    pub fn record(&mut self, item: T) -> (message: (u64, T))
        requires
            old(self).wf(),
            old(self)@.next_sequence < u64::MAX,
        ensures
            final(self).wf(),
            message.0 == old(self)@.next_sequence,
            message.1 == item,
            exists|kept: T| #[trigger] cloned(item, kept) && final(self)@ == old(self)@.recorded(kept),
            final(self).channel() == old(self).channel(),
    {
        let sequence = self.next_sequence;
        self.next_sequence = sequence + 1;
        if self.buffer_size > 0 {
            let kept = item.clone();
            if self.buffer.len() == self.buffer_size {
                let _ = self.buffer.pop_front();
            }
            self.buffer.push_back((sequence, kept));
            assert(cloned(item, kept));
            assert(self@ =~= old(self)@.recorded(kept));
        } else {
            assert(cloned(item, item));
            assert(self@ =~= old(self)@.recorded(item));
        }
        (sequence, item)
    }

    /// Captures the history and the boundary for a live subscription.
    fn capture(&self, live: ShareStream<(u64, T)>) -> (stream: ShareReplayStream<T>)
        ensures
            captures(self@, stream@),
            stream.receiver() == live.receiver(),
    {
        let mut replay: VecDeque<T> = VecDeque::new();
        for i in 0..self.buffer.len()
            invariant
                replay@.len() == i,
                forall|j: int|
                    0 <= j < i ==> cloned(self.buffer@[j].1, #[trigger] replay@[j]),
        {
            replay.push_back(self.buffer[i].1.clone());
        }
        ShareReplayStream { live, replay, live_start: self.next_sequence }
    }

    /// Adds the strong subscription of a clone of a strong handle.
    pub fn subscribe(&mut self) -> (stream: ShareReplayStream<T>)
        requires
            old(self).wf(),
            0 < old(self)@.share.strong < usize::MAX,
        ensures
            final(self).wf(),
            final(self)@ == (ReplayState { share: old(self)@.share.added(), ..old(self)@ }),
            captures(old(self)@, stream@),
            receives_from(stream.receiver(), old(self).channel()),
            final(self).channel() == old(self).channel(),
    {
        let live = self.hub.subscribe();
        self.capture(live)
    }

    /// Turns a weak handle into a strong subscription, while the source is live and
    /// at least one strong subscription exists.
    ///
    /// It succeeds exactly when the channel reports that it is not closed and a
    /// strong subscription exists.
    pub fn upgrade(&mut self) -> (stream: Option<ShareReplayStream<T>>)
        requires
            old(self).wf(),
            old(self)@.share.strong < usize::MAX,
        ensures
            final(self).wf(),
            match stream {
                Some(stream) => {
                    &&& old(self)@.share.upgradable()
                    &&& final(self)@ == (ReplayState { share: old(self)@.share.added(), ..old(self)@ })
                    &&& captures(old(self)@, stream@)
                    &&& receives_from(stream.receiver(), old(self).channel())
                },
                None => final(self)@ == old(self)@,
            },
            exists|closed: bool| #[trigger]
                can_report(old(self).channel(), closed) && (stream is Some <==> !closed
                    && old(self)@.share.strong > 0),
            final(self).channel() == old(self).channel(),
    {
        let live = self.hub.upgrade();
        proof {
            let closed = choose|closed: bool| #[trigger]
                can_report(old(self).hub.channel(), closed) && (live is Some <==> !closed
                    && old(self).hub@.strong > 0);
            assert(can_report(old(self).channel(), closed));
        }
        match live {
            Some(live) => Some(self.capture(live)),
            None => None,
        }
    }
}

impl<T: Clone> ShareReplayStream<T> {
    /// Reports what the channel gave: a message below the boundary is passed over.
    pub fn live_polled(&self, outcome: StreamPoll<(u64, T)>) -> (result: Option<ReplayPoll<T>>)
        ensures
            result == (if is_stale(outcome, self@.live_start) {
                None
            } else {
                Some(live_result(seq![outcome], self@.live_start))
            }),
    {
        match outcome {
            StreamPoll::Item((sequence, item)) => {
                if sequence < self.live_start {
                    None
                } else {
                    Some(ReplayPoll::Item(item))
                }
            },
            StreamPoll::End => Some(ReplayPoll::End),
            StreamPoll::Pending => Some(ReplayPoll::Pending),
        }
    }

    /// Gives out the captured history first, and then the live items at or above the
    /// boundary, which come from the subscription's own receiver.
    pub fn poll_next(&mut self, cx: &mut Context<'_>) -> (outcome: ReplayPoll<T>)
        ensures
            exists|receivers: Seq<Receiver<(u64, T)>>, polled: Seq<StreamPoll<(u64, T)>>|
                #![trigger gives(old(self)@, polled, outcome, final(self)@), receivers.last()]
                gives(old(self)@, polled, outcome, final(self)@) && receivers.len() == polled.len()
                    + 1 && receivers[0] == old(self).receiver() && receivers.last() == final(
                    self).receiver() && (forall|i: int|
                    0 <= i < polled.len() ==> can_give(receivers[i], #[trigger] polled[i])
                        && exists|receiver: &mut Receiver<(u64, T)>, task: &mut Context<'_>| #[trigger]
                        can_receive(receiver, task, polled[i]) && *receiver == receivers[i]
                            && *final(receiver) == receivers[i + 1]),
    {
        let ghost mut polled: Seq<StreamPoll<(u64, T)>> = Seq::empty();
        let ghost mut receivers: Seq<Receiver<(u64, T)>> = seq![self.receiver()];
        if let Some(item) = self.replay.pop_front() {
            assert(receivers.last() == self.receiver());
            assert(gives(old(self)@, polled, ReplayPoll::Item(item), self@));
            return ReplayPoll::Item(item);
        }
        let mut work: usize = 0;
        while work < WORK_BUDGET
            invariant
                work <= WORK_BUDGET,
                self@ == old(self)@,
                self@.replay.len() == 0,
                polled.len() == work,
                receivers.len() == work + 1,
                receivers[0] == old(self).receiver(),
                receivers.last() == self.receiver(),
                forall|i: int|
                    0 <= i < polled.len() ==> is_stale(#[trigger] polled[i], self@.live_start),
                forall|i: int|
                    0 <= i < polled.len() ==> can_give(receivers[i], #[trigger] polled[i])
                        && exists|receiver: &mut Receiver<(u64, T)>, task: &mut Context<'_>| #[trigger]
                        can_receive(receiver, task, polled[i]) && *receiver == receivers[i]
                            && *final(receiver) == receivers[i + 1],
            decreases WORK_BUDGET - work,
        {
            let ghost earlier = polled;
            let ghost held = receivers;
            let outcome = self.live.poll_next(cx);
            proof {
                polled = polled.push(outcome);
                receivers = receivers.push(self.receiver());
                assert forall|i: int| 0 <= i < polled.len() implies can_give(
                    receivers[i],
                    #[trigger] polled[i],
                ) && exists|receiver: &mut Receiver<(u64, T)>, task: &mut Context<'_>| #[trigger]
                    can_receive(receiver, task, polled[i]) && *receiver == receivers[i]
                        && *final(receiver) == receivers[i + 1] by {
                    if i < earlier.len() {
                        assert(polled[i] == earlier[i]);
                        assert(receivers[i] == held[i]);
                        assert(receivers[i + 1] == held[i + 1]);
                    } else {
                        assert(polled[i] == outcome);
                        assert(receivers[i] == held.last());
                        assert(receivers[i + 1] == self.live.receiver());
                    }
                }
            }
            if let Some(result) = self.live_polled(outcome) {
                assert(is_live_search(polled, self@.live_start));
                assert(gives(old(self)@, polled, result, self@));
                assert(receivers.last() == self.receiver());
                return result;
            }
            work = work + 1;
        }
        assert(is_live_search(polled, self@.live_start));
        assert(gives(old(self)@, polled, ReplayPoll::Yield, self@));
        ReplayPoll::Yield
    }
}

/// The items with the sequence numbers from `first` on.
pub open spec fn numbered<T>(items: Seq<T>, first: nat) -> Seq<(u64, T)> {
    Seq::new(items.len(), |i: int| ((first + i) as u64, items[i]))
}

/// The messages at or above the boundary, in order.
pub open spec fn live_messages<T>(messages: Seq<(u64, T)>, live_start: nat) -> Seq<(u64, T)>
    decreases messages.len(),
{
    if messages.len() == 0 {
        Seq::empty()
    } else {
        let before = live_messages(messages.drop_last(), live_start);
        if messages.last().0 < live_start {
            before
        } else {
            before.push(messages.last())
        }
    }
}

/// The messages without their sequence numbers.
pub open spec fn contents<T>(messages: Seq<(u64, T)>) -> Seq<T> {
    Seq::new(messages.len(), |i: int| messages[i].1)
}

/// Each message has a higher sequence number than the ones before it.
pub open spec fn is_increasing<T>(messages: Seq<(u64, T)>) -> bool {
    forall|i: int, j: int|
        0 <= i < j < messages.len() ==> (#[trigger] messages[i]).0 < (#[trigger] messages[j]).0
}

/// The history is exactly the newest of the recorded items, numbered in their
/// order, whatever became of their live delivery.
pub proof fn law_history_is_the_newest_items<T>(items: Seq<T>, buffer_size: nat)
    requires
        items.len() <= u64::MAX,
    ensures
        ReplayState::fresh(buffer_size).recorded_all(items).history == newest(
            numbered(items, 0),
            buffer_size,
        ),
        ReplayState::fresh(buffer_size).recorded_all(items).next_sequence == items.len(),
        ReplayState::fresh(buffer_size).recorded_all(items).buffer_size == buffer_size,
    decreases items.len(),
{
    let fresh = ReplayState::<T>::fresh(buffer_size);
    if items.len() == 0 {
        assert(fresh.history =~= newest(numbered(items, 0), buffer_size));
    } else {
        let init = items.drop_last();
        law_history_is_the_newest_items(init, buffer_size);
        let before = fresh.recorded_all(init);
        assert(numbered(items, 0) =~= numbered(init, 0).push((init.len() as u64, items.last())));
        assert(newest(before.history.push((init.len() as u64, items.last())), buffer_size)
            =~= newest(numbered(items, 0), buffer_size));
    }
}

proof fn lemma_live_messages<T>(items: Seq<T>, first: nat, live_start: nat)
    requires
        first <= live_start <= first + items.len() <= u64::MAX,
    ensures
        live_messages(numbered(items, first), live_start) == numbered(
            items.skip(live_start - first),
            live_start,
        ),
    decreases items.len(),
{
    if items.len() > 0 {
        let init = items.drop_last();
        let last = (first + items.len() - 1) as nat;
        assert(numbered(items, first).drop_last() =~= numbered(init, first));
        if last < live_start {
            lemma_none_live(items, first, live_start);
            assert(items.skip(live_start - first).len() == 0);
            assert(numbered(items.skip(live_start - first), live_start) =~= Seq::empty());
        } else {
            lemma_live_messages(init, first, live_start);
            assert(numbered(items.skip(live_start - first), live_start) =~= numbered(
                init.skip(live_start - first),
                live_start,
            ).push((last as u64, items.last())));
        }
    } else {
        assert(numbered(items.skip(live_start - first), live_start) =~= Seq::empty());
    }
}

proof fn lemma_none_live<T>(items: Seq<T>, first: nat, live_start: nat)
    requires
        first + items.len() <= live_start <= u64::MAX,
    ensures
        live_messages(numbered(items, first), live_start).len() == 0,
    decreases items.len(),
{
    if items.len() > 0 {
        assert(numbered(items, first).drop_last() =~= numbered(items.drop_last(), first));
        lemma_none_live(items.drop_last(), first, live_start);
    }
}

/// The replay/live boundary neither duplicates nor loses an item.
///
/// The source gives `items`. A subscription is created when the first `taken` of
/// them are recorded. The channel delivers to it every message that was broadcast
/// since: those from `first` on, which is no later than `taken`, for an item may be
/// recorded before the subscription and broadcast after it. The subscription then
/// observes the captured history and every later item exactly once, in order.
pub proof fn law_handoff_neither_duplicates_nor_loses<T>(
    items: Seq<T>,
    buffer_size: nat,
    taken: nat,
    first: nat,
)
    requires
        first <= taken <= items.len() <= u64::MAX,
    ensures
        ({
            let history = ReplayState::fresh(buffer_size).recorded_all(
                items.take(taken as int),
            ).history;
            let delivered = numbered(items.skip(first as int), first);
            let observed = contents(history) + contents(live_messages(delivered, taken));
            &&& history.len() == (if taken <= buffer_size {
                taken
            } else {
                buffer_size
            })
            &&& observed == items.skip(taken - history.len())
        }),
{
    let before = items.take(taken as int);
    law_history_is_the_newest_items(before, buffer_size);
    let history = ReplayState::fresh(buffer_size).recorded_all(before).history;
    lemma_live_messages(items.skip(first as int), first, taken);
    let delivered = numbered(items.skip(first as int), first);
    assert(items.skip(first as int).skip(taken - first) =~= items.skip(taken as int));
    let observed = contents(history) + contents(live_messages(delivered, taken));
    assert(observed =~= items.skip(taken - history.len()));
}

proof fn lemma_live_increasing<T>(messages: Seq<(u64, T)>, live_start: nat)
    requires
        is_increasing(messages),
    ensures
        is_increasing(live_messages(messages, live_start)),
        forall|i: int|
            0 <= i < live_messages(messages, live_start).len() ==> live_start <= (
            #[trigger] live_messages(messages, live_start)[i]).0,
        forall|i: int|
            0 <= i < live_messages(messages, live_start).len() && messages.len() > 0 ==> (
            #[trigger] live_messages(messages, live_start)[i]).0 <= messages.last().0,
    decreases messages.len(),
{
    if messages.len() > 0 {
        let init = messages.drop_last();
        lemma_live_increasing(init, live_start);
        if init.len() > 0 {
            assert(messages[init.len() - 1].0 < messages[messages.len() - 1].0);
        }
    }
}

/// Even where an overflow has removed live messages before they were observed, a
/// subscription observes no item twice, and none out of order.
pub proof fn law_overflow_neither_duplicates_nor_reorders<T>(
    state: ReplayState<T>,
    delivered: Seq<(u64, T)>,
)
    requires
        state.wf(),
        is_increasing(delivered),
    ensures
        is_increasing(state.history + live_messages(delivered, state.next_sequence)),
{
    lemma_live_increasing(delivered, state.next_sequence);
    let live = live_messages(delivered, state.next_sequence);
    let observed = state.history + live;
    assert forall|i: int, j: int| 0 <= i < j < observed.len() implies (#[trigger] observed[i]).0 < (
    #[trigger] observed[j]).0 by {
        let n = state.history.len() as int;
        if j < n {
            assert(state.history[i].0 < state.history[j].0);
        } else if i < n {
            assert(state.history[i].0 < state.next_sequence);
            assert(live[j - n].0 >= state.next_sequence);
        } else {
            assert(live[i - n].0 < live[j - n].0);
        }
    }
}

/// One poll of a subscription: what the channel gave to it, and what it gave.
pub struct ReplayPolled<T> {
    pub polled: Seq<StreamPoll<(u64, T)>>,
    pub outcome: ReplayPoll<T>,
}

/// A run of polls of one subscription: each state follows from the one before it.
pub open spec fn is_replay_run<T>(
    states: Seq<ReplaySubscription<T>>,
    polls: Seq<ReplayPolled<T>>,
) -> bool {
    &&& states.len() == polls.len() + 1
    &&& forall|i: int|
        0 <= i < polls.len() ==> gives(
            states[i],
            (#[trigger] polls[i]).polled,
            polls[i].outcome,
            states[i + 1],
        )
}

/// The messages among the outcomes, in order.
pub open spec fn messages<T>(polled: Seq<StreamPoll<(u64, T)>>) -> Seq<(u64, T)>
    decreases polled.len(),
{
    if polled.len() == 0 {
        Seq::empty()
    } else {
        let before = messages(polled.drop_last());
        match polled.last() {
            StreamPoll::Item(message) => before.push(message),
            _ => before,
        }
    }
}

/// The messages that the channel gave in these polls, in order.
pub open spec fn delivered<T>(polls: Seq<ReplayPolled<T>>) -> Seq<(u64, T)>
    decreases polls.len(),
{
    if polls.len() == 0 {
        Seq::empty()
    } else {
        delivered(polls.drop_last()) + messages(polls.last().polled)
    }
}

/// The items that the subscription gave in these polls, in order.
pub open spec fn outputs<T>(polls: Seq<ReplayPolled<T>>) -> Seq<T>
    decreases polls.len(),
{
    if polls.len() == 0 {
        Seq::empty()
    } else {
        let before = outputs(polls.drop_last());
        match polls.last().outcome {
            ReplayPoll::Item(item) => before.push(item),
            _ => before,
        }
    }
}

proof fn lemma_live_messages_add<T>(a: Seq<(u64, T)>, b: Seq<(u64, T)>, live_start: nat)
    ensures
        live_messages(a + b, live_start) == live_messages(a, live_start) + live_messages(
            b,
            live_start,
        ),
    decreases b.len(),
{
    if b.len() == 0 {
        assert(a + b =~= a);
    } else {
        lemma_live_messages_add(a, b.drop_last(), live_start);
        assert((a + b).drop_last() =~= a + b.drop_last());
    }
}

proof fn lemma_stale_messages<T>(polled: Seq<StreamPoll<(u64, T)>>, live_start: nat)
    requires
        forall|i: int| 0 <= i < polled.len() ==> is_stale(#[trigger] polled[i], live_start),
    ensures
        live_messages(messages(polled), live_start).len() == 0,
    decreases polled.len(),
{
    if polled.len() > 0 {
        lemma_stale_messages(polled.drop_last(), live_start);
        assert(is_stale(polled[polled.len() - 1], live_start));
        assert(messages(polled).drop_last() =~= messages(polled.drop_last()));
    }
}

proof fn lemma_live_search<T>(polled: Seq<StreamPoll<(u64, T)>>, live_start: nat)
    requires
        is_live_search(polled, live_start),
    ensures
        contents(live_messages(messages(polled), live_start)) == (match live_result(
            polled,
            live_start,
        ) {
            ReplayPoll::Item(item) => seq![item],
            _ => Seq::empty(),
        }),
{
    let before = polled.drop_last();
    assert forall|i: int| 0 <= i < before.len() implies is_stale(#[trigger] before[i], live_start) by {
        assert(is_stale(polled[i], live_start));
    }
    lemma_stale_messages(before, live_start);
    match polled.last() {
        StreamPoll::Item(message) => {
            assert(messages(polled).drop_last() =~= messages(before));
            if message.0 < live_start {
                assert(contents(live_messages(messages(polled), live_start)) =~= Seq::empty());
            } else {
                assert(contents(live_messages(messages(polled), live_start)) =~= seq![message.1]);
            }
        },
        _ => {
            assert(messages(polled) == messages(before));
            assert(contents(live_messages(messages(polled), live_start)) =~= Seq::empty());
        },
    }
}

/// The first polls of a subscription give its captured history, in order, and take
/// nothing from the channel.
pub proof fn law_history_is_given_first<T>(
    states: Seq<ReplaySubscription<T>>,
    polls: Seq<ReplayPolled<T>>,
    i: int,
)
    requires
        is_replay_run(states, polls),
        0 <= i < polls.len(),
        i < states[0].replay.len(),
    ensures
        polls[i].outcome == ReplayPoll::Item(states[0].replay[i]),
        polls[i].polled.len() == 0,
{
    lemma_history_left(states, polls, i);
    assert(gives(states[i], polls[i].polled, polls[i].outcome, states[i + 1]));
}

proof fn lemma_history_left<T>(
    states: Seq<ReplaySubscription<T>>,
    polls: Seq<ReplayPolled<T>>,
    i: int,
)
    requires
        is_replay_run(states, polls),
        0 <= i < states.len(),
    ensures
        states[i].live_start == states[0].live_start,
        i <= states[0].replay.len() ==> states[i].replay == states[0].replay.skip(i),
        i >= states[0].replay.len() ==> states[i].replay.len() == 0,
    decreases i,
{
    if i == 0 {
        assert(states[0].replay =~= states[0].replay.skip(0));
    } else {
        lemma_history_left(states, polls, i - 1);
        assert(gives(states[i - 1], polls[i - 1].polled, polls[i - 1].outcome, states[i - 1 + 1]));
        if i <= states[0].replay.len() {
            assert(states[0].replay.skip(i - 1).drop_first() =~= states[0].replay.skip(i));
        }
    }
}

/// A subscription ends only when its captured history is given out and the channel
/// itself has ended.
pub proof fn law_subscription_ends_with_the_channel<T>(
    states: Seq<ReplaySubscription<T>>,
    polls: Seq<ReplayPolled<T>>,
    i: int,
)
    requires
        is_replay_run(states, polls),
        0 <= i < polls.len(),
        polls[i].outcome is End,
    ensures
        states[i].replay.len() == 0,
        polls[i].polled.len() > 0,
        polls[i].polled.last() is End,
{
    assert(gives(states[i], polls[i].polled, polls[i].outcome, states[i + 1]));
}

/// Whenever a subscription is polled, what it has given is its captured history and
/// then exactly the messages at or above its boundary that the channel gave to it,
/// in the channel's order.
pub proof fn law_subscription_gives_history_then_live<T>(
    states: Seq<ReplaySubscription<T>>,
    polls: Seq<ReplayPolled<T>>,
)
    requires
        is_replay_run(states, polls),
    ensures
        outputs(polls) + states.last().replay == states[0].replay + contents(
            live_messages(delivered(polls), states[0].live_start),
        ),
    decreases polls.len(),
{
    let start = states[0].live_start;
    if polls.len() == 0 {
        assert(outputs(polls) + states.last().replay =~= states[0].replay + contents(
            live_messages(delivered(polls), start),
        ));
    } else {
        let n = polls.len() - 1;
        let before = states.drop_last();
        let earlier = polls.drop_last();
        assert forall|i: int| 0 <= i < earlier.len() implies gives(
            before[i],
            (#[trigger] earlier[i]).polled,
            earlier[i].outcome,
            before[i + 1],
        ) by {
            assert(earlier[i] == polls[i]);
        }
        law_subscription_gives_history_then_live(before, earlier);
        lemma_history_left(states, polls, n);
        let state = states[n];
        let poll = polls[n];
        assert(gives(state, poll.polled, poll.outcome, states[n + 1]));
        lemma_live_messages_add(delivered(earlier), messages(poll.polled), start);
        let given = live_messages(delivered(earlier), start);
        let fresh = live_messages(messages(poll.polled), start);
        assert(contents(given + fresh) =~= contents(given) + contents(fresh));
        if state.replay.len() > 0 {
            assert(fresh.len() == 0);
            assert(outputs(polls) + states.last().replay =~= outputs(earlier) + state.replay);
            assert(contents(given) + contents(fresh) =~= contents(given));
        } else {
            lemma_live_search(poll.polled, start);
            assert(outputs(polls) + states.last().replay =~= (outputs(earlier) + state.replay)
                + contents(fresh));
            assert((states[0].replay + contents(given)) + contents(fresh) =~= states[0].replay + (
            contents(given) + contents(fresh)));
        }
    }
}

/// A subscription that is polled to its end observes the captured history and every
/// later item exactly once, in order, whenever it is first polled.
///
/// The source gives `items`; the subscription captures the history when the first
/// `taken` of them are recorded, and the channel delivers to it every message that
/// is broadcast from then on: those from `first` on. Clones of an item are the item.
pub proof fn law_polled_subscription_neither_duplicates_nor_loses<T>(
    items: Seq<T>,
    buffer_size: nat,
    taken: nat,
    first: nat,
    states: Seq<ReplaySubscription<T>>,
    polls: Seq<ReplayPolled<T>>,
)
    requires
        first <= taken <= items.len() <= u64::MAX,
        is_replay_run(states, polls),
        polls.len() > 0,
        polls.last().outcome is End,
        states[0].live_start == taken,
        states[0].replay == contents(
            ReplayState::fresh(buffer_size).recorded_all(items.take(taken as int)).history,
        ),
        delivered(polls) == numbered(items.skip(first as int), first),
    ensures
        outputs(polls) == items.skip(
            if taken <= buffer_size {
                0
            } else {
                taken - buffer_size
            },
        ),
{
    law_handoff_neither_duplicates_nor_loses(items, buffer_size, taken, first);
    law_subscription_gives_history_then_live(states, polls);
    let n = polls.len() - 1;
    assert(gives(states[n], polls[n].polled, polls[n].outcome, states[n + 1]));
    assert(states.last().replay.len() == 0);
    assert(outputs(polls) + states.last().replay =~= outputs(polls));
}

/// One call on what the handles of a shared source with replay have in common, with what
/// it gave.
pub enum ReplayCall<T> {
    /// The source gave an item, which is recorded.
    Record { item: T, message: (u64, T) },
    /// A strong handle is cloned.
    Subscribe { subscription: ReplaySubscription<T> },
    /// A weak handle is to be upgraded.
    Upgrade { subscription: Option<ReplaySubscription<T>> },
    /// A strong handle is dropped.
    Remove { stop: bool },
    /// The source has completed, or its driver is gone.
    Close,
}

/// What the call means to the count of strong handles, if it means anything.
pub open spec fn share_call<T>(call: ReplayCall<T>) -> Option<ShareCall> {
    match call {
        ReplayCall::Record { .. } => None,
        ReplayCall::Subscribe { .. } => Some(ShareCall::Subscribe),
        ReplayCall::Upgrade { subscription } => Some(
            ShareCall::Upgrade { upgraded: subscription is Some },
        ),
        ReplayCall::Remove { stop } => Some(ShareCall::Remove { stop }),
        ReplayCall::Close => Some(ShareCall::Close),
    }
}

/// The call leads from one state to the other.
pub open spec fn replay_leads<T: Clone>(
    s: ReplayState<T>,
    call: ReplayCall<T>,
    t: ReplayState<T>,
) -> bool {
    &&& match share_call(call) {
        Some(call) => share_leads(s.share, call, t.share) && t == (ReplayState {
            share: t.share,
            ..s
        }),
        None => true,
    }
    &&& match call {
        ReplayCall::Record { item, message } => {
            &&& s.next_sequence < u64::MAX
            &&& message.0 == s.next_sequence
            &&& message.1 == item
            &&& exists|kept: T| #[trigger] cloned(item, kept) && t == s.recorded(kept)
        },
        ReplayCall::Subscribe { subscription } => captures(s, subscription),
        ReplayCall::Upgrade { subscription: Some(subscription) } => captures(s, subscription),
        _ => true,
    }
}

/// A run of calls on a new shared source with replay: each state follows from the one
/// before it.
pub open spec fn is_replay_hub_run<T: Clone>(
    size: nat,
    states: Seq<ReplayState<T>>,
    calls: Seq<ReplayCall<T>>,
) -> bool {
    &&& states.len() == calls.len() + 1
    &&& states[0].share.strong == 1
    &&& !states[0].share.closed
    &&& states[0].next_sequence == 0
    &&& states[0].history.len() == 0
    &&& states[0].buffer_size == size
    &&& forall|j: int|
        0 <= j < calls.len() ==> replay_leads(states[j], #[trigger] calls[j], states[j + 1])
}

/// A shared source with replay is made with one strong subscription, which has nothing to
/// replay and receives everything; its history and its channel have the sizes that were
/// asked for, and the channel drops its oldest item when it is full exactly in the overflow
/// forms.
pub proof fn law_replay_source_has_its_own_channel<T: Clone>()
    ensures
        forall|size: usize, capacity: usize, overflow: bool, shared: (ReplayHub<T>, ShareReplayStream<T>)| #[trigger]
            call_ensures(create_share_replay_stream::<T>, (size, capacity, overflow), shared) ==> is_replay_hub_run(
                size as nat,
                seq![shared.0@],
                Seq::<ReplayCall<T>>::empty(),
            ) && shared.1@.replay.len() == 0 && shared.1@.live_start == 0 && exists|
                sender: &mut Sender<(u64, T)>,
            |
                call_ensures(
                    async_broadcast::broadcast::<(u64, T)>,
                    (capacity,),
                    (*sender, shared.1.receiver()),
                ) && #[trigger] call_ensures(Sender::<(u64, T)>::set_overflow, (sender, overflow), ())
                    && *final(sender) == shared.0.channel(),
        forall|size: usize, capacity: usize, shared: (ReplayHub<T>, ShareReplayStream<T>)| #[trigger]
            call_ensures(share_replay::<T>, (size, capacity), shared) ==> is_replay_hub_run(
                size as nat,
                seq![shared.0@],
                Seq::<ReplayCall<T>>::empty(),
            ) && shared.1@.replay.len() == 0 && shared.1@.live_start == 0 && exists|
                sender: &mut Sender<(u64, T)>,
            |
                call_ensures(
                    async_broadcast::broadcast::<(u64, T)>,
                    (capacity,),
                    (*sender, shared.1.receiver()),
                ) && #[trigger] call_ensures(Sender::<(u64, T)>::set_overflow, (sender, false), ())
                    && *final(sender) == shared.0.channel(),
        forall|size: usize, capacity: usize, shared: (ReplayHub<T>, ShareReplayStream<T>)| #[trigger]
            call_ensures(share_replay_overflow::<T>, (size, capacity), shared) ==> is_replay_hub_run(
                size as nat,
                seq![shared.0@],
                Seq::<ReplayCall<T>>::empty(),
            ) && shared.1@.replay.len() == 0 && shared.1@.live_start == 0 && exists|
                sender: &mut Sender<(u64, T)>,
            |
                call_ensures(
                    async_broadcast::broadcast::<(u64, T)>,
                    (capacity,),
                    (*sender, shared.1.receiver()),
                ) && #[trigger] call_ensures(Sender::<(u64, T)>::set_overflow, (sender, true), ())
                    && *final(sender) == shared.0.channel(),
        forall|shared: (ReplayHub<T>, ShareReplayStream<T>)| #[trigger]
            call_ensures(share_replay_latest::<T>, (), shared) ==> is_replay_hub_run(
                1,
                seq![shared.0@],
                Seq::<ReplayCall<T>>::empty(),
            ) && shared.1@.replay.len() == 0 && shared.1@.live_start == 0 && exists|
                sender: &mut Sender<(u64, T)>,
            |
                call_ensures(
                    async_broadcast::broadcast::<(u64, T)>,
                    (1usize,),
                    (*sender, shared.1.receiver()),
                ) && #[trigger] call_ensures(Sender::<(u64, T)>::set_overflow, (sender, true), ())
                    && *final(sender) == shared.0.channel(),
{
    assert forall|size: usize, capacity: usize, overflow: bool, shared: (ReplayHub<T>, ShareReplayStream<T>)| #[trigger]
        call_ensures(create_share_replay_stream::<T>, (size, capacity, overflow), shared) implies exists|sender: &mut Sender<(u64, T)>|
        call_ensures(
            async_broadcast::broadcast::<(u64, T)>,
            (capacity,),
            (*sender, shared.1.receiver()),
        ) && #[trigger] call_ensures(Sender::<(u64, T)>::set_overflow, (sender, overflow), ())
            && *final(sender) == shared.0.channel() by {
        let sender = choose|sender: &mut Sender<(u64, T)>| #[trigger]
            makes_channel(capacity, overflow, sender, shared.1.receiver()) && *final(sender)
                == shared.0.channel();
        assert(call_ensures(Sender::<(u64, T)>::set_overflow, (sender, overflow), ()));
    }
    assert forall|size: usize, capacity: usize, shared: (ReplayHub<T>, ShareReplayStream<T>)| #[trigger]
        call_ensures(share_replay::<T>, (size, capacity), shared) implies exists|sender: &mut Sender<(u64, T)>|
        call_ensures(
            async_broadcast::broadcast::<(u64, T)>,
            (capacity,),
            (*sender, shared.1.receiver()),
        ) && #[trigger] call_ensures(Sender::<(u64, T)>::set_overflow, (sender, false), ())
            && *final(sender) == shared.0.channel() by {
        let sender = choose|sender: &mut Sender<(u64, T)>| #[trigger]
            makes_channel(capacity, false, sender, shared.1.receiver()) && *final(sender)
                == shared.0.channel();
        assert(call_ensures(Sender::<(u64, T)>::set_overflow, (sender, false), ()));
    }
    assert forall|size: usize, capacity: usize, shared: (ReplayHub<T>, ShareReplayStream<T>)| #[trigger]
        call_ensures(share_replay_overflow::<T>, (size, capacity), shared) implies exists|sender: &mut Sender<(u64, T)>|
        call_ensures(
            async_broadcast::broadcast::<(u64, T)>,
            (capacity,),
            (*sender, shared.1.receiver()),
        ) && #[trigger] call_ensures(Sender::<(u64, T)>::set_overflow, (sender, true), ())
            && *final(sender) == shared.0.channel() by {
        let sender = choose|sender: &mut Sender<(u64, T)>| #[trigger]
            makes_channel(capacity, true, sender, shared.1.receiver()) && *final(sender)
                == shared.0.channel();
        assert(call_ensures(Sender::<(u64, T)>::set_overflow, (sender, true), ()));
    }
    assert forall|shared: (ReplayHub<T>, ShareReplayStream<T>)| #[trigger]
        call_ensures(share_replay_latest::<T>, (), shared) implies exists|sender: &mut Sender<(u64, T)>|
        call_ensures(
            async_broadcast::broadcast::<(u64, T)>,
            (1usize,),
            (*sender, shared.1.receiver()),
        ) && #[trigger] call_ensures(Sender::<(u64, T)>::set_overflow, (sender, true), ())
            && *final(sender) == shared.0.channel() by {
        let sender = choose|sender: &mut Sender<(u64, T)>| #[trigger]
            makes_channel(1usize, true, sender, shared.1.receiver()) && *final(sender)
                == shared.0.channel();
        assert(call_ensures(Sender::<(u64, T)>::set_overflow, (sender, true), ()));
    }
}

/// Every call on the hub of a shared source with replay is one of its run.
pub proof fn law_replay_calls_are_run_calls<T: Clone>()
    ensures
        forall|hub: &mut ReplayHub<T>, item: T, message: (u64, T)| #[trigger]
            call_ensures(ReplayHub::<T>::record, (hub, item), message) && hub@.next_sequence
                < u64::MAX ==> replay_leads(
                hub@,
                ReplayCall::Record { item, message },
                final(hub)@,
            ) && final(hub).channel() == hub.channel(),
        forall|hub: &mut ReplayHub<T>, stream: ShareReplayStream<T>| #[trigger]
            call_ensures(ReplayHub::<T>::subscribe, (hub,), stream) && hub@.share.strong > 0
                ==> replay_leads(
                hub@,
                ReplayCall::Subscribe { subscription: stream@ },
                final(hub)@,
            ),
        forall|hub: &mut ReplayHub<T>, stream: Option<ShareReplayStream<T>>| #[trigger]
            call_ensures(ReplayHub::<T>::upgrade, (hub,), stream) ==> replay_leads(
                hub@,
                ReplayCall::Upgrade {
                    subscription: match stream {
                        Some(stream) => Some(stream@),
                        None => None,
                    },
                },
                final(hub)@,
            ),
        forall|hub: &mut ReplayHub<T>, stop: bool| #[trigger]
            call_ensures(ReplayHub::<T>::remove_subscription, (hub,), stop) && hub@.share.strong > 0
                ==> replay_leads(hub@, ReplayCall::Remove { stop }, final(hub)@),
        forall|hub: &mut ReplayHub<T>| #[trigger]
            call_ensures(ReplayHub::<T>::close, (hub,), ()) ==> replay_leads(
                hub@,
                ReplayCall::Close,
                final(hub)@,
            ),
        forall|hub: &ReplayHub<T>, can: bool| #[trigger]
            call_ensures(ReplayHub::<T>::can_subscribe, (hub,), can) ==> can == (hub@.share.strong
                < usize::MAX),
        forall|hub: &ReplayHub<T>, can: bool| #[trigger]
            call_ensures(ReplayHub::<T>::can_record, (hub,), can) ==> can == (hub@.next_sequence
                < u64::MAX),
{
}

/// A strong subscription receives from the hub's own channel, and the driver broadcasts
/// through a handle of it. A weak handle is upgraded exactly when that channel reports
/// that it is not closed and a strong subscription exists; and once the source has
/// completed or the last strong subscription is gone, it reports that it is closed.
pub proof fn law_replay_handles_belong_to_the_channel<T: Clone>()
    ensures
        forall|hub: &ReplayHub<T>, sender: Sender<(u64, T)>| #[trigger]
            call_ensures(ReplayHub::<T>::sender, (hub,), sender) ==> call_ensures(
                <Sender<(u64, T)> as Clone>::clone,
                (&hub.channel(),),
                sender,
            ),
        forall|hub: &mut ReplayHub<T>, stream: ShareReplayStream<T>| #[trigger]
            call_ensures(ReplayHub::<T>::subscribe, (hub,), stream) ==> call_ensures(
                Sender::<(u64, T)>::new_receiver,
                (&hub.channel(),),
                stream.receiver(),
            ) && final(hub).channel() == hub.channel(),
        forall|hub: &mut ReplayHub<T>, stream: Option<ShareReplayStream<T>>| #[trigger]
            call_ensures(ReplayHub::<T>::upgrade, (hub,), stream) ==> {
                &&& final(hub).channel() == hub.channel()
                &&& stream matches Some(stream) ==> call_ensures(
                    Sender::<(u64, T)>::new_receiver,
                    (&hub.channel(),),
                    stream.receiver(),
                )
                &&& exists|closed: bool| #[trigger]
                    call_ensures(Sender::<(u64, T)>::is_closed, (&hub.channel(),), closed) && (
                    stream is Some <==> !closed && hub@.share.strong > 0)
            },
        forall|hub: &mut ReplayHub<T>| #[trigger]
            call_ensures(ReplayHub::<T>::close, (hub,), ()) ==> forall|closed: bool| #[trigger]
                call_ensures(Sender::<(u64, T)>::is_closed, (&final(hub).channel(),), closed)
                    ==> closed,
        forall|hub: &mut ReplayHub<T>, stop: bool| #[trigger]
            call_ensures(ReplayHub::<T>::remove_subscription, (hub,), stop) && stop ==> forall|
                closed: bool,
            | #[trigger]
                call_ensures(Sender::<(u64, T)>::is_closed, (&final(hub).channel(),), closed)
                    ==> closed,
        forall|hub: &mut ReplayHub<T>, stop: bool| #[trigger]
            call_ensures(ReplayHub::<T>::remove_subscription, (hub,), stop) && !stop
                ==> final(hub).channel() == hub.channel(),
{
    assert forall|hub: &mut ReplayHub<T>, stream: Option<ShareReplayStream<T>>| #[trigger]
        call_ensures(ReplayHub::<T>::upgrade, (hub,), stream) implies exists|closed: bool| #[trigger]
        call_ensures(Sender::<(u64, T)>::is_closed, (&hub.channel(),), closed) && (stream is Some
            <==> !closed && hub@.share.strong > 0) by {
        let closed = choose|closed: bool| #[trigger]
            can_report(hub.channel(), closed) && (stream is Some <==> !closed && hub@.share.strong
                > 0);
        assert(call_ensures(Sender::<(u64, T)>::is_closed, (&hub.channel(),), closed));
    }
}

/// The items that the source gave in these calls.
pub open spec fn source_items<T>(calls: Seq<ReplayCall<T>>) -> Seq<T>
    decreases calls.len(),
{
    if calls.len() == 0 {
        Seq::empty()
    } else {
        let before = source_items(calls.drop_last());
        match calls.last() {
            ReplayCall::Record { item, .. } => before.push(item),
            _ => before,
        }
    }
}

/// How many of this many items are too old for a history of this size.
pub open spec fn forgotten(given: nat, size: nat) -> int {
    if given <= size {
        0
    } else {
        given - size
    }
}

/// What the calls mean to the count of strong handles.
pub open spec fn share_calls<T>(calls: Seq<ReplayCall<T>>) -> Seq<ShareCall>
    decreases calls.len(),
{
    if calls.len() == 0 {
        Seq::empty()
    } else {
        let before = share_calls(calls.drop_last());
        match share_call(calls.last()) {
            Some(call) => before.push(call),
            None => before,
        }
    }
}

proof fn lemma_hub_history<T: Clone>(
    size: nat,
    states: Seq<ReplayState<T>>,
    calls: Seq<ReplayCall<T>>,
    n: int,
)
    requires
        is_replay_hub_run(size, states, calls),
        clones_are_equal::<T>(),
        0 <= n <= calls.len(),
    ensures
        ({
            let items = source_items(calls.take(n));
            let t = states[n];
            &&& items.len() <= u64::MAX
            &&& t.next_sequence == items.len()
            &&& t.buffer_size == size
            &&& t.history.len() == items.len() - forgotten(items.len(), size)
            &&& forall|i: int|
                0 <= i < t.history.len() ==> (#[trigger] t.history[i]).1 == items[forgotten(
                    items.len(),
                    size,
                ) + i]
        }),
    decreases n,
{
    if n > 0 {
        lemma_hub_history(size, states, calls, n - 1);
        let past = calls.take(n);
        assert(past.drop_last() =~= calls.take(n - 1));
        assert(past.last() == calls[n - 1]);
        assert(replay_leads(states[n - 1], calls[n - 1], states[n]));
    }
}

/// Each item of the source gets the number of the items before it, and is sent as it is;
/// the history holds the newest of the items, as many as it has room for, in their order.
pub proof fn law_items_are_numbered_and_kept<T: Clone>(
    size: nat,
    states: Seq<ReplayState<T>>,
    calls: Seq<ReplayCall<T>>,
    j: int,
)
    requires
        is_replay_hub_run(size, states, calls),
        clones_are_equal::<T>(),
        0 <= j < calls.len(),
    ensures
        calls[j] matches ReplayCall::Record { item, message } ==> message.1 == item && message.0
            == source_items(calls.take(j)).len(),
        contents(states[j].history) == source_items(calls.take(j)).skip(
            forgotten(source_items(calls.take(j)).len(), size),
        ),
{
    lemma_hub_history(size, states, calls, j);
    assert(replay_leads(states[j], calls[j], states[j + 1]));
    assert(contents(states[j].history) =~= source_items(calls.take(j)).skip(
        forgotten(source_items(calls.take(j)).len(), size),
    ));
}

/// The subscription that a call made, if it made one.
pub open spec fn made_by<T>(call: ReplayCall<T>) -> Option<ReplaySubscription<T>> {
    match call {
        ReplayCall::Subscribe { subscription } => Some(subscription),
        ReplayCall::Upgrade { subscription } => subscription,
        _ => None,
    }
}

/// A subscription, whether it comes from a clone of a strong handle or from a weak one,
/// captures at its creation all of the newest items that the history has room for, in
/// their order, and what belongs to it live begins right after them.
pub proof fn law_subscription_captures_the_whole_history<T: Clone>(
    size: nat,
    states: Seq<ReplayState<T>>,
    calls: Seq<ReplayCall<T>>,
    j: int,
)
    requires
        is_replay_hub_run(size, states, calls),
        clones_are_equal::<T>(),
        0 <= j < calls.len(),
        made_by(calls[j]) is Some,
    ensures
        ({
            let given = source_items(calls.take(j));
            let subscription = made_by(calls[j])->0;
            &&& subscription.replay == given.skip(forgotten(given.len(), size))
            &&& subscription.live_start == given.len()
        }),
{
    lemma_hub_history(size, states, calls, j);
    assert(replay_leads(states[j], calls[j], states[j + 1]));
    let given = source_items(calls.take(j));
    let subscription = made_by(calls[j])->0;
    assert forall|i: int| 0 <= i < subscription.replay.len() implies #[trigger] subscription.replay[i]
        == given.skip(forgotten(given.len(), size))[i] by {
        assert(cloned(states[j].history[i].1, subscription.replay[i]));
    }
    assert(subscription.replay =~= given.skip(forgotten(given.len(), size)));
}

proof fn lemma_items_grow<T>(calls: Seq<ReplayCall<T>>, a: int, b: int)
    requires
        0 <= a <= b <= calls.len(),
    ensures
        source_items(calls.take(a)).is_prefix_of(source_items(calls.take(b))),
    decreases b - a,
{
    if a < b {
        lemma_items_grow(calls, a, b - 1);
        assert(calls.take(b).drop_last() =~= calls.take(b - 1));
    }
}

/// A subscription that is made in a run of the hub and then polled to its end, whenever it
/// is first polled, gives the newest items that the source had given at its creation, as
/// many as the history has room for, and then every later item of the source, each once
/// and in order.
///
/// The channel delivers to it what is broadcast from its creation on: the messages from
/// number `first` on, which is no later than its creation, for an item may be recorded
/// before it and broadcast after it.
pub proof fn law_made_subscription_neither_duplicates_nor_loses<T: Clone>(
    size: nat,
    hubs: Seq<ReplayState<T>>,
    calls: Seq<ReplayCall<T>>,
    j: int,
    first: nat,
    states: Seq<ReplaySubscription<T>>,
    polls: Seq<ReplayPolled<T>>,
)
    requires
        is_replay_hub_run(size, hubs, calls),
        clones_are_equal::<T>(),
        0 <= j < calls.len(),
        made_by(calls[j]) == Some(states[0]),
        is_replay_run(states, polls),
        polls.len() > 0,
        polls.last().outcome is End,
        first <= source_items(calls.take(j)).len(),
        delivered(polls) == numbered(source_items(calls).skip(first as int), first),
    ensures
        outputs(polls) == source_items(calls).skip(
            forgotten(source_items(calls.take(j)).len(), size),
        ),
{
    let items = source_items(calls);
    let taken = source_items(calls.take(j)).len();
    law_subscription_captures_the_whole_history(size, hubs, calls, j);
    lemma_items_grow(calls, j, calls.len() as int);
    assert(calls.take(calls.len() as int) =~= calls);
    lemma_hub_history(size, hubs, calls, calls.len() as int);
    let given = source_items(calls.take(j));
    assert(given =~= items.take(taken as int));
    lemma_live_messages(items.skip(first as int), first, taken);
    law_subscription_gives_history_then_live(states, polls);
    let n = polls.len() - 1;
    assert(gives(states[n], polls[n].polled, polls[n].outcome, states[n + 1]));
    assert(states.last().replay.len() == 0);
    assert(outputs(polls) + states.last().replay =~= outputs(polls));
    assert(items.skip(first as int).skip(taken - first) =~= items.skip(taken as int));
    let live = live_messages(numbered(items.skip(first as int), first), taken);
    assert(contents(live) =~= items.skip(taken as int));
    assert(given.skip(forgotten(taken, size)) + items.skip(taken as int) =~= items.skip(
        forgotten(taken, size),
    ));
}

/// The first subscription, which is made with the source, gives every item of the source.
pub proof fn law_first_subscription_gives_everything<T: Clone>(
    items: Seq<T>,
    states: Seq<ReplaySubscription<T>>,
    polls: Seq<ReplayPolled<T>>,
)
    requires
        items.len() <= u64::MAX,
        states[0].replay.len() == 0,
        states[0].live_start == 0,
        is_replay_run(states, polls),
        delivered(polls) == numbered(items, 0),
    ensures
        outputs(polls) == items,
{
    lemma_live_messages(items, 0, 0);
    law_subscription_gives_history_then_live(states, polls);
    lemma_history_left(states, polls, polls.len() as int);
    assert(outputs(polls) + states.last().replay =~= outputs(polls));
    assert(items.skip(0) =~= items);
    assert(states[0].replay + contents(numbered(items, 0)) =~= items);
}

/// A run of the hub of a shared source with replay is a run of its strong handles, of
/// which the laws on those hold.
pub proof fn law_replay_hub_counts_its_handles<T: Clone>(
    size: nat,
    states: Seq<ReplayState<T>>,
    calls: Seq<ReplayCall<T>>,
    j: int,
)
    requires
        is_replay_hub_run(size, states, calls),
        0 <= j < calls.len(),
    ensures
        ({
            let past = share_calls(calls.take(j));
            &&& states[j].share.strong == handles(past)
            &&& states[j].share.closed == has_stopped(past)
            &&& match calls[j] {
                ReplayCall::Upgrade { subscription } => subscription is Some ==> handles(past) > 0
                    && !has_stopped(past),
                ReplayCall::Remove { stop } => stop <==> handles(past) == 1,
                _ => true,
            }
        }),
{
    lemma_hub_handles(size, states, calls, j);
    assert(replay_leads(states[j], calls[j], states[j + 1]));
}

proof fn lemma_hub_handles<T: Clone>(
    size: nat,
    states: Seq<ReplayState<T>>,
    calls: Seq<ReplayCall<T>>,
    n: int,
)
    requires
        is_replay_hub_run(size, states, calls),
        0 <= n <= calls.len(),
    ensures
        states[n].share.strong == handles(share_calls(calls.take(n))),
        states[n].share.closed == has_stopped(share_calls(calls.take(n))),
    decreases n,
{
    if n > 0 {
        lemma_hub_handles(size, states, calls, n - 1);
        let past = calls.take(n);
        let before = share_calls(calls.take(n - 1));
        assert(past.drop_last() =~= calls.take(n - 1));
        assert(past.last() == calls[n - 1]);
        assert(replay_leads(states[n - 1], calls[n - 1], states[n]));
        if let Some(call) = share_call(calls[n - 1]) {
            assert(before.push(call).drop_last() =~= before);
            assert(handles(before) == 0 ==> has_stopped(before));
        }
    }
}

/// One poll of a subscription, as far as the channel is concerned: while history is left
/// the channel is not asked. After it, the channel is asked until it gives a message at or
/// above the boundary, nothing or the end, and that is what the poll gives; messages below
/// the boundary are passed over, and after [`WORK_BUDGET`] of them the poll yields.
pub proof fn law_poll_asks_the_channel<T>(
    states: Seq<ReplaySubscription<T>>,
    polls: Seq<ReplayPolled<T>>,
    i: int,
)
    requires
        is_replay_run(states, polls),
        0 <= i < polls.len(),
    ensures
        ({
            let polled = polls[i].polled;
            let start = states[0].live_start;
            &&& i < states[0].replay.len() <==> polled.len() == 0
            &&& polled.len() <= WORK_BUDGET
            &&& forall|k: int|
                0 <= k < polled.len() - 1 ==> (#[trigger] polled[k] matches StreamPoll::Item(message)
                    && message.0 < start)
            &&& polled.len() > 0 ==> (match polled.last() {
                StreamPoll::Item(message) => if message.0 >= start {
                    polls[i].outcome == ReplayPoll::Item(message.1)
                } else {
                    polls[i].outcome is Yield && polled.len() == WORK_BUDGET
                },
                StreamPoll::End => polls[i].outcome is End,
                StreamPoll::Pending => polls[i].outcome is Pending,
            })
        }),
{
    lemma_history_left(states, polls, i);
    assert(gives(states[i], polls[i].polled, polls[i].outcome, states[i + 1]));
    let polled = polls[i].polled;
    assert forall|k: int| 0 <= k < polled.len() - 1 implies (
    #[trigger] polled[k] matches StreamPoll::Item(message) && message.0 < states[0].live_start) by {
        assert(is_stale(polled[k], states[i].live_start));
    }
}

/// Every poll of a subscription is one of its run. What the channel gave is passed over
/// exactly if it is a message below the boundary, and else decides the poll.
#[verifier::spinoff_prover]
pub proof fn law_subscription_polls_are_run_polls<T: Clone>()
    ensures
        forall|stream: &mut ShareReplayStream<T>, cx: &mut Context<'_>, outcome: ReplayPoll<T>| #[trigger]
            call_ensures(ShareReplayStream::<T>::poll_next, (stream, cx), outcome) ==> exists|
                states: Seq<ReplaySubscription<T>>,
                polls: Seq<ReplayPolled<T>>,
            | #[trigger]
                is_replay_run(states, polls) && polls.len() == 1 && states[0] == stream@ && states[1]
                    == final(stream)@ && polls[0].outcome == outcome,
        forall|stream: &ShareReplayStream<T>, outcome: StreamPoll<(u64, T)>, result: Option<
            ReplayPoll<T>,
        >| #[trigger]
            call_ensures(ShareReplayStream::<T>::live_polled, (stream, outcome), result) ==> result
                == (match outcome {
                StreamPoll::Item(message) => if message.0 < stream@.live_start {
                    None
                } else {
                    Some(ReplayPoll::Item(message.1))
                },
                StreamPoll::End => Some(ReplayPoll::End),
                StreamPoll::Pending => Some(ReplayPoll::Pending),
            }),
{
    assert forall|stream: &mut ShareReplayStream<T>, cx: &mut Context<'_>, outcome: ReplayPoll<T>| #[trigger]
        call_ensures(ShareReplayStream::<T>::poll_next, (stream, cx), outcome) implies exists|
        states: Seq<ReplaySubscription<T>>,
        polls: Seq<ReplayPolled<T>>,
    | #[trigger]
        is_replay_run(states, polls) && polls.len() == 1 && states[0] == stream@ && states[1]
            == final(stream)@ && polls[0].outcome == outcome by {
        assert(exists|polled: Seq<StreamPoll<(u64, T)>>| #[trigger]
            gives(stream@, polled, outcome, final(stream)@));
        let polled = choose|polled: Seq<StreamPoll<(u64, T)>>| #[trigger]
            gives(stream@, polled, outcome, final(stream)@);
        let polls = seq![ReplayPolled { polled, outcome }];
        let states = seq![stream@, final(stream)@];
        assert(states[0] == stream@ && states[1] == final(stream)@);
        assert(polls[0].polled == polled && polls[0].outcome == outcome);
        assert(gives(states[0], polls[0].polled, polls[0].outcome, states[1]));
        assert(is_replay_run(states, polls));
    }
}

} // verus!
