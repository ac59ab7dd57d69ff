use std::task::Context;

use async_broadcast::{Receiver, Sender};
use vstd::prelude::*;

use crate::broadcast::{
    can_report, close_channel, fits_in_memory, is_handle_of, makes_channel, poll_receiver,
    receives_from, reports_closed,
};
use crate::budget::{WorkBudget, WORK_BUDGET};
use crate::driver::{spent_after_work, step_after_work, work, DriverStep};
use crate::poll::StreamPoll;

verus! {

/// Who is subscribed to a shared source, and whether it still runs.
pub struct ShareState {
    /// The strong subscriptions.
    pub strong: nat,
    /// The source has completed or was stopped.
    pub closed: bool,
}

impl ShareState {
    /// Without a strong subscription the source does not run.
    pub open spec fn wf(self) -> bool {
        &&& self.strong <= usize::MAX
        &&& self.strong == 0 ==> self.closed
    }

    /// A weak handle can become a strong one.
    pub open spec fn upgradable(self) -> bool {
        !self.closed && self.strong > 0
    }

    /// The state after one more strong subscription.
    pub open spec fn added(self) -> Self {
        ShareState { strong: self.strong + 1, ..self }
    }

    /// The state after a strong subscription is dropped: the last one stops the
    /// source.
    pub open spec fn removed(self) -> Self {
        ShareState {
            strong: (self.strong - 1) as nat,
            closed: self.closed || self.strong == 1,
        }
    }

    /// The state after the source has completed.
    pub open spec fn completed(self) -> Self {
        ShareState { closed: true, ..self }
    }
}

/// What the handles of one shared source have in common.
#[verifier::reject_recursive_types(T)]
pub struct ShareHub<T> {
    sender: Sender<T>,
    strong: usize,
    closed: Ghost<bool>,
}

impl<T> View for ShareHub<T> {
    type V = ShareState;

    closed spec fn view(&self) -> ShareState {
        ShareState { strong: self.strong as nat, closed: self.closed@ }
    }
}

/// A strong subscription to one shared source, active from its creation.
///
/// First polling has no lifecycle meaning.
#[verifier::reject_recursive_types(T)]
pub struct ShareStream<T> {
    receiver: Receiver<T>,
}

/// Polling this receiver in this context can give this outcome, and leave the two
/// in their final states.
pub closed spec fn can_receive<T: Clone>(
    receiver: &mut Receiver<T>,
    cx: &mut Context<'_>,
    outcome: StreamPoll<T>,
) -> bool {
    call_ensures(poll_receiver::<T>, (receiver, cx), outcome)
}

/// Polling the receiver as it is can give this outcome.
pub open spec fn can_give<T: Clone>(receiver: Receiver<T>, outcome: StreamPoll<T>) -> bool {
    exists|polled: &mut Receiver<T>, task: &mut Context<'_>| #[trigger]
        can_receive(polled, task, outcome) && *polled == receiver
}

/// Closing the channel through this handle can leave it in its final state.
pub closed spec fn closes<T>(sender: &mut Sender<T>) -> bool {
    call_ensures(close_channel::<T>, (sender,), ())
}

impl<T> ShareStream<T> {
    /// The subscription's own handle of the channel.
    pub closed spec fn receiver(&self) -> Receiver<T> {
        self.receiver
    }
}

impl<T: Clone> ShareStream<T> {
    /// Polls for the next live item: one poll of the subscription's own receiver, in
    /// the context of the polling task, gives the outcome.
    ///
    /// Which outcome that is, is up to the channel that all handles share.
    pub fn poll_next(&mut self, cx: &mut Context<'_>) -> (outcome: StreamPoll<T>)
        ensures
            exists|receiver: &mut Receiver<T>, task: &mut Context<'_>| #[trigger]
                can_receive(receiver, task, outcome) && *receiver == old(self).receiver()
                    && *final(receiver) == final(self).receiver() && *task == *old(cx)
                    && *final(task) == *final(cx),
    {
        let outcome = poll_receiver(&mut self.receiver, cx);
        assert(exists|receiver: &mut Receiver<T>, task: &mut Context<'_>| #[trigger]
            call_ensures(poll_receiver::<T>, (receiver, task), outcome) && can_receive(
                receiver,
                task,
                outcome,
            ) && *receiver == old(self).receiver && *final(receiver) == self.receiver && *task
                == *old(cx) && *final(task) == *cx);
        outcome
    }
}

/// A shared source with its first strong subscription.
pub fn create_share_stream<T>(capacity: usize, overflow: bool) -> (shared: (
    ShareHub<T>,
    ShareStream<T>,
))
    requires
        capacity > 0,
        fits_in_memory::<T>(capacity),
    ensures
        shared.0.wf(),
        shared.0@ == (ShareState { strong: 1, closed: false }),
        exists|sender: &mut Sender<T>| #[trigger]
            makes_channel(capacity, overflow, sender, shared.1.receiver()) && *final(sender)
                == shared.0.channel(),
{
    let (mut sender, receiver) = async_broadcast::broadcast::<T>(capacity);
    let ghost made = sender;
    assert(call_ensures(async_broadcast::broadcast::<T>, (capacity,), (made, receiver)));
    sender.set_overflow(overflow);
    assert(exists|handle: &mut Sender<T>| #[trigger]
        call_ensures(Sender::<T>::set_overflow, (handle, overflow), ()) && *handle == made
            && makes_channel(capacity, overflow, handle, receiver) && *final(handle) == sender);
    let shared = (
        ShareHub { sender, strong: 1, closed: Ghost(false) },
        ShareStream { receiver },
    );
    assert(shared.0.channel() == sender);
    assert(shared.1.receiver() == receiver);
    shared
}

/// Losslessly multicast with bounded live capacity and slow-subscriber backpressure.
pub fn share<T>(capacity: usize) -> (shared: (ShareHub<T>, ShareStream<T>))
    requires
        capacity > 0,
        fits_in_memory::<T>(capacity),
    ensures
        shared.0.wf(),
        shared.0@ == (ShareState { strong: 1, closed: false }),
        exists|sender: &mut Sender<T>| #[trigger]
            makes_channel(capacity, false, sender, shared.1.receiver()) && *final(sender)
                == shared.0.channel(),
{
    create_share_stream(capacity, false)
}

/// Multicast while dropping the oldest live item when capacity is full.
pub fn share_overflow<T>(capacity: usize) -> (shared: (ShareHub<T>, ShareStream<T>))
    requires
        capacity > 0,
        fits_in_memory::<T>(capacity),
    ensures
        shared.0.wf(),
        shared.0@ == (ShareState { strong: 1, closed: false }),
        exists|sender: &mut Sender<T>| #[trigger]
            makes_channel(capacity, true, sender, shared.1.receiver()) && *final(sender)
                == shared.0.channel(),
{
    create_share_stream(capacity, true)
}

/// Equivalent to `share_overflow(1)`; it does not replay to later subscribers.
pub fn share_latest<T>() -> (shared: (ShareHub<T>, ShareStream<T>))
    requires
        fits_in_memory::<T>(1),
    ensures
        shared.0.wf(),
        shared.0@ == (ShareState { strong: 1, closed: false }),
        exists|sender: &mut Sender<T>| #[trigger]
            makes_channel(1, true, sender, shared.1.receiver()) && *final(sender)
                == shared.0.channel(),
{
    share_overflow(1)
}

impl<T> ShareHub<T> {
    /// The channel that carries the live items.
    pub closed spec fn channel(&self) -> Sender<T> {
        self.sender
    }

    /// The channel is closed when the source has completed or was stopped.
    pub open spec fn wf(&self) -> bool {
        &&& self@.wf()
        &&& self@.closed ==> reports_closed(self.channel())
    }

    /// A handle through which the driver broadcasts live items.
    pub fn sender(&self) -> (sender: Sender<T>)
        ensures
            is_handle_of(sender, self.channel()),
    {
        self.sender.clone()
    }

    /// Whether one more strong subscription can be counted.
    pub fn can_subscribe(&self) -> (can: bool)
        ensures
            can == (self@.strong < usize::MAX),
    {
        self.strong < usize::MAX
    }

    /// Adds the strong subscription of a clone of a strong handle.
    pub fn subscribe(&mut self) -> (stream: ShareStream<T>)
        requires
            old(self).wf(),
            0 < old(self)@.strong < usize::MAX,
        ensures
            final(self).wf(),
            final(self)@ == old(self)@.added(),
            receives_from(stream.receiver(), old(self).channel()),
            final(self).channel() == old(self).channel(),
    {
        self.strong = self.strong + 1;
        ShareStream { receiver: self.sender.new_receiver() }
    }

    /// Reserves a strong subscription for a weak handle, given whether the channel
    /// reports that it is closed.
    pub fn try_add_subscription(&mut self, channel_closed: bool) -> (added: bool)
        requires
            old(self).wf(),
            old(self)@.strong < usize::MAX,
        ensures
            final(self).wf(),
            added == (!channel_closed && old(self)@.strong > 0),
            final(self)@ == (if added {
                old(self)@.added()
            } else {
                old(self)@
            }),
            final(self).channel() == old(self).channel(),
    {
        if channel_closed || self.strong == 0 {
            false
        } else {
            self.strong = self.strong + 1;
            true
        }
    }

    /// Turns a weak handle into a strong subscription, while the source is live and
    /// at least one strong subscription exists.
    ///
    /// It succeeds exactly when the channel reports that it is not closed and a
    /// strong subscription exists.
    pub fn upgrade(&mut self) -> (stream: Option<ShareStream<T>>)
        requires
            old(self).wf(),
            old(self)@.strong < usize::MAX,
        ensures
            final(self).wf(),
            match stream {
                Some(stream) => {
                    &&& old(self)@.upgradable()
                    &&& final(self)@ == old(self)@.added()
                    &&& receives_from(stream.receiver(), old(self).channel())
                },
                None => final(self)@ == old(self)@,
            },
            exists|closed: bool| #[trigger]
                can_report(old(self).channel(), closed) && (stream is Some <==> !closed
                    && old(self)@.strong > 0),
            final(self).channel() == old(self).channel(),
    {
        let channel_closed = self.sender.is_closed();
        assert(can_report(self.channel(), channel_closed));
        if self.try_add_subscription(channel_closed) {
            Some(ShareStream { receiver: self.sender.new_receiver() })
        } else {
            None
        }
    }

    /// Removes the subscription of a dropped strong handle. The result says whether
    /// it was the last one, with which the source is stopped.
    pub fn remove_subscription(&mut self) -> (stop: bool)
        requires
            old(self).wf(),
            old(self)@.strong > 0,
        ensures
            final(self).wf(),
            final(self)@ == old(self)@.removed(),
            stop == (old(self)@.strong == 1),
            if stop {
                exists|sender: &mut Sender<T>| #[trigger]
                    closes(sender) && *sender == old(self).channel() && *final(sender) == final(self).channel()
            } else {
                final(self).channel() == old(self).channel()
            },
    {
        self.strong = self.strong - 1;
        if self.strong == 0 {
            self.close();
            true
        } else {
            false
        }
    }

    /// Closes live delivery: the source has completed, or its driver is gone.
    pub fn close(&mut self)
        ensures
            final(self)@ == old(self)@.completed(),
            reports_closed(final(self).channel()),
            exists|sender: &mut Sender<T>| #[trigger]
                closes(sender) && *sender == old(self).channel() && *final(sender) == final(self).channel(),
            old(self)@.wf() ==> final(self).wf(),
    {
        close_channel(&mut self.sender);
        assert(exists|sender: &mut Sender<T>| #[trigger]
            call_ensures(close_channel::<T>, (sender,), ()) && closes(sender) && *sender == old(self).sender && *final(sender) == self.sender);
        self.closed = Ghost(true);
    }
}

/// The driver of a shared source.
pub struct ShareDriver {
    budget: WorkBudget,
}

impl ShareDriver {
    /// The work that was done since the driver last yielded.
    pub closed spec fn spent(&self) -> nat {
        self.budget.spent()
    }

    pub open spec fn wf(&self) -> bool {
        self.spent() < WORK_BUDGET
    }

    pub fn new() -> (driver: Self)
        ensures
            driver.wf(),
            driver.spent() == 0,
    {
        ShareDriver { budget: WorkBudget::new() }
    }

    /// Reports whether the channel accepted an item. A closed channel ends the
    /// driver.
    pub fn forwarded(&mut self, accepted: bool) -> (step: DriverStep)
        requires
            old(self).wf(),
        ensures
            final(self).wf(),
            accepted ==> step == step_after_work(old(self).spent()) && final(self).spent()
                == spent_after_work(old(self).spent()),
            !accepted ==> step == DriverStep::Finish && final(self).spent() == old(self).spent(),
    {
        if accepted {
            work(&mut self.budget)
        } else {
            DriverStep::Finish
        }
    }
}

/// What happens to a shared source.
pub enum ShareEvent {
    /// A strong handle is cloned.
    Cloned,
    /// A weak handle is upgraded, if it can be.
    Upgraded,
    /// A strong handle is dropped.
    Dropped,
    /// The source completes.
    Completed,
}

/// Strong handles are cloned and dropped only while there is one.
pub open spec fn can_happen(s: ShareState, event: ShareEvent) -> bool {
    (event is Cloned || event is Dropped) ==> s.strong > 0
}

/// The state after an event.
pub open spec fn share_after(s: ShareState, event: ShareEvent) -> ShareState {
    match event {
        ShareEvent::Cloned => s.added(),
        ShareEvent::Upgraded => if s.upgradable() {
            s.added()
        } else {
            s
        },
        ShareEvent::Dropped => s.removed(),
        ShareEvent::Completed => s.completed(),
    }
}

/// A run of a shared source: each state follows from the one before it.
pub open spec fn is_share_run(states: Seq<ShareState>, events: Seq<ShareEvent>) -> bool {
    &&& states.len() == events.len() + 1
    &&& forall|i: int|
        0 <= i < events.len() ==> can_happen(states[i], #[trigger] events[i]) && states[i + 1]
            == share_after(states[i], events[i])
}

/// A source that was stopped or has completed is never restarted: whatever happens
/// to its handles, no weak handle can be upgraded any more.
pub proof fn law_stopped_source_is_not_restarted(
    states: Seq<ShareState>,
    events: Seq<ShareEvent>,
    i: int,
    j: int,
)
    requires
        is_share_run(states, events),
        0 <= i <= j < states.len(),
        states[i].closed,
    ensures
        states[j].closed,
        !states[j].upgradable(),
    decreases j - i,
{
    if i < j {
        assert(states[i + 1] == share_after(states[i], events[i]));
        law_stopped_source_is_not_restarted(states, events, i + 1, j);
    }
}

/// Dropping the last strong handle stops the source, and no handle brings it back.
pub proof fn law_last_drop_stops_the_source(
    states: Seq<ShareState>,
    events: Seq<ShareEvent>,
    i: int,
    j: int,
)
    requires
        is_share_run(states, events),
        0 <= i < j < states.len(),
        states[i].strong == 1,
        events[i] is Dropped,
    ensures
        states[j].closed,
        states[j].strong == 0,
    decreases j - i,
{
    if j == i + 1 {
        assert(states[i + 1] == share_after(states[i], events[i]));
    } else {
        law_last_drop_stops_the_source(states, events, i, j - 1);
        assert(can_happen(states[j - 1], events[j - 1]));
        assert(states[j - 1 + 1] == share_after(states[j - 1], events[j - 1]));
    }
}

/// While a source runs, at least one strong handle is there: the count of strong
/// handles, and nothing else, keeps the source alive.
pub proof fn law_running_source_has_a_strong_handle(
    states: Seq<ShareState>,
    events: Seq<ShareEvent>,
    j: int,
)
    requires
        is_share_run(states, events),
        0 <= j < states.len(),
        states[0] == (ShareState { strong: 1, closed: false }),
    ensures
        !states[j].closed ==> states[j].strong > 0,
    decreases j,
{
    if j > 0 {
        law_running_source_has_a_strong_handle(states, events, j - 1);
        assert(can_happen(states[j - 1], events[j - 1]));
        assert(states[j - 1 + 1] == share_after(states[j - 1], events[j - 1]));
    }
}

/// A shared source is made with one strong subscription, whose receiver is the one that
/// came with the channel; the channel has the capacity that was asked for, and drops its
/// oldest item when it is full exactly in the overflow forms.
pub proof fn law_shared_source_has_its_own_channel<T>()
    ensures
        forall|capacity: usize, overflow: bool, shared: (ShareHub<T>, ShareStream<T>)| #[trigger]
            call_ensures(create_share_stream::<T>, (capacity, overflow), shared) ==> shared.0@.strong == 1
                && !shared.0@.closed && exists|sender: &mut Sender<T>|
                call_ensures(
                    async_broadcast::broadcast::<T>,
                    (capacity,),
                    (*sender, shared.1.receiver()),
                ) && #[trigger] call_ensures(Sender::<T>::set_overflow, (sender, overflow), ())
                    && *final(sender) == shared.0.channel(),
        forall|capacity: usize, shared: (ShareHub<T>, ShareStream<T>)| #[trigger]
            call_ensures(share::<T>, (capacity,), shared) ==> shared.0@.strong == 1
                && !shared.0@.closed && exists|sender: &mut Sender<T>|
                call_ensures(
                    async_broadcast::broadcast::<T>,
                    (capacity,),
                    (*sender, shared.1.receiver()),
                ) && #[trigger] call_ensures(Sender::<T>::set_overflow, (sender, false), ())
                    && *final(sender) == shared.0.channel(),
        forall|capacity: usize, shared: (ShareHub<T>, ShareStream<T>)| #[trigger]
            call_ensures(share_overflow::<T>, (capacity,), shared) ==> shared.0@.strong == 1
                && !shared.0@.closed && exists|sender: &mut Sender<T>|
                call_ensures(
                    async_broadcast::broadcast::<T>,
                    (capacity,),
                    (*sender, shared.1.receiver()),
                ) && #[trigger] call_ensures(Sender::<T>::set_overflow, (sender, true), ())
                    && *final(sender) == shared.0.channel(),
        forall|shared: (ShareHub<T>, ShareStream<T>)| #[trigger]
            call_ensures(share_latest::<T>, (), shared) ==> shared.0@.strong == 1
                && !shared.0@.closed && exists|sender: &mut Sender<T>|
                call_ensures(
                    async_broadcast::broadcast::<T>,
                    (1usize,),
                    (*sender, shared.1.receiver()),
                ) && #[trigger] call_ensures(Sender::<T>::set_overflow, (sender, true), ())
                    && *final(sender) == shared.0.channel(),
{
    assert forall|capacity: usize, overflow: bool, shared: (ShareHub<T>, ShareStream<T>)| #[trigger]
        call_ensures(create_share_stream::<T>, (capacity, overflow), shared) implies exists|
        sender: &mut Sender<T>,
    |
        call_ensures(
            async_broadcast::broadcast::<T>,
            (capacity,),
            (*sender, shared.1.receiver()),
        ) && #[trigger] call_ensures(Sender::<T>::set_overflow, (sender, overflow), ())
            && *final(sender) == shared.0.channel() by {
        let sender = choose|sender: &mut Sender<T>| #[trigger]
            makes_channel(capacity, overflow, sender, shared.1.receiver()) && *final(sender)
                == shared.0.channel();
        assert(call_ensures(Sender::<T>::set_overflow, (sender, overflow), ()));
    }
    assert forall|capacity: usize, shared: (ShareHub<T>, ShareStream<T>)| #[trigger]
        call_ensures(share::<T>, (capacity,), shared) implies exists|sender: &mut Sender<T>|
        call_ensures(
            async_broadcast::broadcast::<T>,
            (capacity,),
            (*sender, shared.1.receiver()),
        ) && #[trigger] call_ensures(Sender::<T>::set_overflow, (sender, false), ())
            && *final(sender) == shared.0.channel() by {
        let sender = choose|sender: &mut Sender<T>| #[trigger]
            makes_channel(capacity, false, sender, shared.1.receiver()) && *final(sender)
                == shared.0.channel();
        assert(call_ensures(Sender::<T>::set_overflow, (sender, false), ()));
    }
    assert forall|capacity: usize, shared: (ShareHub<T>, ShareStream<T>)| #[trigger]
        call_ensures(share_overflow::<T>, (capacity,), shared) implies exists|sender: &mut Sender<T>|
        call_ensures(
            async_broadcast::broadcast::<T>,
            (capacity,),
            (*sender, shared.1.receiver()),
        ) && #[trigger] call_ensures(Sender::<T>::set_overflow, (sender, true), ())
            && *final(sender) == shared.0.channel() by {
        let sender = choose|sender: &mut Sender<T>| #[trigger]
            makes_channel(capacity, true, sender, shared.1.receiver()) && *final(sender)
                == shared.0.channel();
        assert(call_ensures(Sender::<T>::set_overflow, (sender, true), ()));
    }
    assert forall|shared: (ShareHub<T>, ShareStream<T>)| #[trigger]
        call_ensures(share_latest::<T>, (), shared) implies exists|sender: &mut Sender<T>|
        call_ensures(
            async_broadcast::broadcast::<T>,
            (1usize,),
            (*sender, shared.1.receiver()),
        ) && #[trigger] call_ensures(Sender::<T>::set_overflow, (sender, true), ())
            && *final(sender) == shared.0.channel() by {
        let sender = choose|sender: &mut Sender<T>| #[trigger]
            makes_channel(1usize, true, sender, shared.1.receiver()) && *final(sender)
                == shared.0.channel();
        assert(call_ensures(Sender::<T>::set_overflow, (sender, true), ()));
    }
}

/// A strong subscription receives from the hub's own channel, and the driver broadcasts
/// through a handle of it. Neither changes the channel. A weak handle is upgraded exactly
/// when that channel reports that it is not closed and a strong subscription exists.
pub proof fn law_handles_belong_to_the_channel<T>()
    ensures
        forall|hub: &ShareHub<T>, sender: Sender<T>| #[trigger]
            call_ensures(ShareHub::<T>::sender, (hub,), sender) ==> call_ensures(
                <Sender<T> as Clone>::clone,
                (&hub.channel(),),
                sender,
            ),
        forall|hub: &ShareHub<T>, can: bool| #[trigger]
            call_ensures(ShareHub::<T>::can_subscribe, (hub,), can) ==> can == (hub@.strong
                < usize::MAX),
        forall|hub: &mut ShareHub<T>, stream: ShareStream<T>| #[trigger]
            call_ensures(ShareHub::<T>::subscribe, (hub,), stream) ==> call_ensures(
                Sender::<T>::new_receiver,
                (&hub.channel(),),
                stream.receiver(),
            ) && final(hub).channel() == hub.channel(),
        forall|hub: &mut ShareHub<T>, stream: Option<ShareStream<T>>| #[trigger]
            call_ensures(ShareHub::<T>::upgrade, (hub,), stream) ==> {
                &&& final(hub).channel() == hub.channel()
                &&& stream matches Some(stream) ==> call_ensures(
                    Sender::<T>::new_receiver,
                    (&hub.channel(),),
                    stream.receiver(),
                )
                &&& exists|closed: bool| #[trigger]
                    call_ensures(Sender::<T>::is_closed, (&hub.channel(),), closed) && (
                    stream is Some <==> !closed && hub@.strong > 0)
            },
{
    assert forall|hub: &mut ShareHub<T>, stream: Option<ShareStream<T>>| #[trigger]
        call_ensures(ShareHub::<T>::upgrade, (hub,), stream) implies exists|closed: bool| #[trigger]
        call_ensures(Sender::<T>::is_closed, (&hub.channel(),), closed) && (stream is Some
            <==> !closed && hub@.strong > 0) by {
        let closed = choose|closed: bool| #[trigger]
            can_report(hub.channel(), closed) && (stream is Some <==> !closed && hub@.strong > 0);
        assert(call_ensures(Sender::<T>::is_closed, (&hub.channel(),), closed));
    }
}

/// Once the source has completed or the last strong subscription is gone, the channel
/// reports that it is closed, and so no weak handle is upgraded.
pub proof fn law_closed_hub_is_not_upgraded<T>()
    ensures
        forall|hub: &mut ShareHub<T>| #[trigger]
            call_ensures(ShareHub::<T>::close, (hub,), ()) ==> forall|closed: bool| #[trigger]
                call_ensures(Sender::<T>::is_closed, (&final(hub).channel(),), closed) ==> closed,
        forall|hub: &mut ShareHub<T>, stop: bool| #[trigger]
            call_ensures(ShareHub::<T>::remove_subscription, (hub,), stop) && stop ==> forall|
                closed: bool,
            | #[trigger]
                call_ensures(Sender::<T>::is_closed, (&final(hub).channel(),), closed) ==> closed,
        forall|hub: &mut ShareHub<T>, stop: bool| #[trigger]
            call_ensures(ShareHub::<T>::remove_subscription, (hub,), stop) && !stop ==> final(hub).channel() == hub.channel(),
{
}

/// One call on what the handles of a shared source have in common, with what it gave.
pub enum ShareCall {
    /// A strong handle is cloned.
    Subscribe,
    /// A weak handle is to be upgraded.
    Upgrade { upgraded: bool },
    /// A place is to be reserved for a weak handle.
    TryAdd { channel_closed: bool, added: bool },
    /// A strong handle is dropped.
    Remove { stop: bool },
    /// The source has completed, or its driver is gone.
    Close,
}

/// The call leads from one state to the other.
pub open spec fn share_leads(s: ShareState, call: ShareCall, t: ShareState) -> bool {
    match call {
        ShareCall::Subscribe => {
            &&& s.strong > 0
            &&& t == s.added()
        },
        ShareCall::Upgrade { upgraded } => if upgraded {
            &&& s.upgradable()
            &&& t == s.added()
        } else {
            t == s
        },
        ShareCall::TryAdd { channel_closed, added } => {
            &&& s.closed ==> channel_closed
            &&& added == (!channel_closed && s.strong > 0)
            &&& t == (if added {
                s.added()
            } else {
                s
            })
        },
        ShareCall::Remove { stop } => {
            &&& s.strong > 0
            &&& stop == (s.strong == 1)
            &&& t == s.removed()
        },
        ShareCall::Close => t == s.completed(),
    }
}

/// Every call on the hub of a shared source is one of its run.
pub proof fn law_share_calls_are_run_calls<T>()
    ensures
        forall|hub: &mut ShareHub<T>, stream: ShareStream<T>| #[trigger]
            call_ensures(ShareHub::<T>::subscribe, (hub,), stream) && hub@.strong > 0 ==> share_leads(
                hub@,
                ShareCall::Subscribe,
                final(hub)@,
            ),
        forall|hub: &mut ShareHub<T>, stream: Option<ShareStream<T>>| #[trigger]
            call_ensures(ShareHub::<T>::upgrade, (hub,), stream) ==> share_leads(
                hub@,
                ShareCall::Upgrade { upgraded: stream is Some },
                final(hub)@,
            ),
        forall|hub: &mut ShareHub<T>, channel_closed: bool, added: bool| #[trigger]
            call_ensures(ShareHub::<T>::try_add_subscription, (hub, channel_closed), added) && (
            hub@.closed ==> channel_closed) ==> share_leads(
                hub@,
                ShareCall::TryAdd { channel_closed, added },
                final(hub)@,
            ),
        forall|hub: &mut ShareHub<T>, stop: bool| #[trigger]
            call_ensures(ShareHub::<T>::remove_subscription, (hub,), stop) && hub@.strong > 0
                ==> share_leads(hub@, ShareCall::Remove { stop }, final(hub)@),
        forall|hub: &mut ShareHub<T>| #[trigger]
            call_ensures(ShareHub::<T>::close, (hub,), ()) ==> share_leads(
                hub@,
                ShareCall::Close,
                final(hub)@,
            ),
{
}

/// A run of calls on a new shared source: each state follows from the one before it.
pub open spec fn is_hub_run(states: Seq<ShareState>, calls: Seq<ShareCall>) -> bool {
    &&& states.len() == calls.len() + 1
    &&& states[0].strong == 1
    &&& !states[0].closed
    &&& forall|j: int|
        0 <= j < calls.len() ==> share_leads(states[j], #[trigger] calls[j], states[j + 1])
}

/// How many strong handles there are after these calls: the first one and those that
/// were cloned or upgraded, without those that were dropped.
pub open spec fn handles(calls: Seq<ShareCall>) -> int
    decreases calls.len(),
{
    if calls.len() == 0 {
        1
    } else {
        let before = handles(calls.drop_last());
        match calls.last() {
            ShareCall::Subscribe => before + 1,
            ShareCall::Upgrade { upgraded: true } => before + 1,
            ShareCall::TryAdd { added: true, .. } => before + 1,
            ShareCall::Remove { .. } => before - 1,
            _ => before,
        }
    }
}

/// The source has completed in these calls, or no strong handle was left.
pub open spec fn has_stopped(calls: Seq<ShareCall>) -> bool
    decreases calls.len(),
{
    calls.len() > 0 && (has_stopped(calls.drop_last()) || calls.last() is Close || handles(calls)
        == 0)
}

proof fn lemma_share_history(states: Seq<ShareState>, calls: Seq<ShareCall>, n: int)
    requires
        is_hub_run(states, calls),
        0 <= n <= calls.len(),
    ensures
        states[n].strong == handles(calls.take(n)),
        states[n].closed == has_stopped(calls.take(n)),
    decreases n,
{
    if n > 0 {
        lemma_share_history(states, calls, n - 1);
        let past = calls.take(n);
        assert(past.drop_last() =~= calls.take(n - 1));
        assert(past.last() == calls[n - 1]);
        assert(share_leads(states[n - 1], calls[n - 1], states[n]));
        lemma_no_handle_has_stopped(calls.take(n - 1));
    }
}

proof fn lemma_no_handle_has_stopped(calls: Seq<ShareCall>)
    ensures
        handles(calls) == 0 ==> has_stopped(calls),
{
}

/// The count of strong handles is exact, and it alone keeps a source alive: the source
/// stops exactly when it completes or the last strong handle is dropped, and that drop,
/// and no other, says so. A weak handle is upgraded only while the source has not stopped
/// and a strong handle exists; it then counts as one.
pub proof fn law_strong_handles_are_counted(
    states: Seq<ShareState>,
    calls: Seq<ShareCall>,
    j: int,
)
    requires
        is_hub_run(states, calls),
        0 <= j < calls.len(),
    ensures
        states[j].strong == handles(calls.take(j)),
        states[j].closed == has_stopped(calls.take(j)),
        match calls[j] {
            ShareCall::Upgrade { upgraded } => upgraded ==> handles(calls.take(j)) > 0
                && !has_stopped(calls.take(j)),
            ShareCall::TryAdd { channel_closed, added } => added <==> handles(calls.take(j)) > 0
                && !channel_closed,
            ShareCall::Remove { stop } => stop <==> handles(calls.take(j + 1)) == 0,
            _ => true,
        },
{
    lemma_share_history(states, calls, j);
    assert(share_leads(states[j], calls[j], states[j + 1]));
    assert(calls.take(j + 1).drop_last() =~= calls.take(j));
    assert(calls.take(j + 1).last() == calls[j]);
}

/// The driver of a shared source goes on as long as the channel accepts what it sends,
/// and yields with every [`WORK_BUDGET`]-th item; it stops when the channel is closed.
pub proof fn law_forwarding_driver_is_told_what_to_do()
    ensures
        forall|driver: ShareDriver| #[trigger]
            call_ensures(ShareDriver::new, (), driver) ==> driver.spent() == 0 && driver.wf(),
        forall|driver: &mut ShareDriver, accepted: bool, step: DriverStep| #[trigger]
            call_ensures(ShareDriver::forwarded, (driver, accepted), step) && driver.wf() ==> {
                &&& accepted ==> final(driver).spent() == (driver.spent() + 1) % (
                WORK_BUDGET as nat)
                &&& step == (if !accepted {
                    DriverStep::Finish
                } else if (driver.spent() + 1) % (WORK_BUDGET as nat) == 0 {
                    DriverStep::Yield
                } else {
                    DriverStep::PollSource
                })
            },
{
}

/// A poll of a strong subscription is one poll of its own receiver in the context of the
/// polling task, and gives what that gave.
pub proof fn law_subscription_polls_its_receiver<T: Clone>()
    ensures
        forall|stream: &mut ShareStream<T>, cx: &mut Context<'_>, outcome: StreamPoll<T>| #[trigger]
            call_ensures(ShareStream::<T>::poll_next, (stream, cx), outcome) ==> exists|
                receiver: &mut Receiver<T>,
                task: &mut Context<'_>,
            | #[trigger]
                can_receive(receiver, task, outcome) && *receiver == stream.receiver() && *final(receiver) == final(stream).receiver() && *task == *cx && *final(task) == *final(cx),
{
}

} // verus!
