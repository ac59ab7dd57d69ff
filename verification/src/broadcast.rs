use std::pin::Pin;
use std::task::{Context, Poll};

use async_broadcast::{Receiver, Sender};
use futures::Stream;
use vstd::prelude::*;

use crate::poll::StreamPoll;

verus! {

/// The sending handle of a broadcast channel.
#[verifier::external_type_specification]
#[verifier::external_body]
#[verifier::reject_recursive_types(T)]
pub struct ExSender<T>(async_broadcast::Sender<T>);

/// A receiving handle of a broadcast channel.
#[verifier::external_type_specification]
#[verifier::external_body]
#[verifier::reject_recursive_types(T)]
pub struct ExReceiver<T>(async_broadcast::Receiver<T>);

/// The context of the task that polls.
#[verifier::external_type_specification]
#[verifier::external_body]
pub struct ExContext<'a>(std::task::Context<'a>);

/// `Sender::is_closed` can give this result for the channel.
pub open spec fn can_report<T>(sender: Sender<T>, reported: bool) -> bool {
    call_ensures(Sender::<T>::is_closed, (&sender,), reported)
}

/// The channel is closed, as `Sender::is_closed` reports it. A closed channel is
/// never opened again.
pub open spec fn reports_closed<T>(sender: Sender<T>) -> bool {
    forall|reported: bool| #[trigger]
        call_ensures(Sender::<T>::is_closed, (&sender,), reported) ==> reported
}

/// The channel of these two handles comes from `async_broadcast::broadcast` with
/// this capacity, and `Sender::set_overflow` with this mode was called on the
/// sender, which is given as it was before that call.
pub open spec fn makes_channel<T>(
    capacity: usize,
    overflow: bool,
    sender: &mut Sender<T>,
    receiver: Receiver<T>,
) -> bool {
    &&& call_ensures(async_broadcast::broadcast::<T>, (capacity,), (*sender, receiver))
    &&& call_ensures(Sender::<T>::set_overflow, (sender, overflow), ())
}

/// The receiver comes from `Sender::new_receiver` on this channel.
pub open spec fn receives_from<T>(receiver: Receiver<T>, sender: Sender<T>) -> bool {
    call_ensures(Sender::<T>::new_receiver, (&sender,), receiver)
}

/// The handle is a clone of this one, and so one of the same channel.
pub open spec fn is_handle_of<T>(handle: Sender<T>, sender: Sender<T>) -> bool {
    call_ensures(<Sender<T> as Clone>::clone, (&sender,), handle)
}

/// A channel of this capacity can be allocated: its queue holds each message
/// beside a count of the receivers that wait for it.
pub open spec fn fits_in_memory<T>(capacity: usize) -> bool {
    capacity * vstd::layout::size_of::<(T, usize)>() <= isize::MAX
}

/// `async_broadcast::broadcast`: a new open channel that holds at most `cap`
/// messages and, until told otherwise, makes a sender wait when it is full. It
/// panics on a zero capacity and on one that cannot be allocated.
///
/// Nothing is stated of the handles: what the channel holds, its capacity and its
/// mode are shared by all handles, and each of them can change them.
pub assume_specification<T>[ async_broadcast::broadcast::<T> ](cap: usize) -> (channel: (
    Sender<T>,
    Receiver<T>,
))
    requires
        cap > 0,
        fits_in_memory::<T>(cap),
;

/// `Sender::set_overflow`: sets whether broadcasting to a full channel removes its
/// oldest message.
///
/// That the mode stays is not stated: the other handles can set it again.
pub assume_specification<T>[ Sender::<T>::set_overflow ](sender: &mut Sender<T>, overflow: bool)
;

/// `Sender::clone`: another handle of the same channel.
pub assume_specification<T>[ <Sender<T> as Clone>::clone ](sender: &Sender<T>) -> (handle: Sender<T>)
;

/// `Sender::is_closed`: whether any handle has closed the channel, or all of its
/// receivers are gone.
///
/// That it is false is never stated: the other handles can close the channel.
pub assume_specification<T>[ Sender::<T>::is_closed ](sender: &Sender<T>) -> (closed: bool)
;

/// `Sender::close`: closes the channel for good. The messages that it holds can
/// still be received.
#[verifier::external_body]
pub(crate) fn close_channel<T>(sender: &mut Sender<T>)
    ensures
        reports_closed(*final(sender)),
{
    sender.close();
}

/// `Sender::new_receiver`: an active receiver for what is broadcast from now on.
///
/// What it will receive is not stated: that is up to the other handles.
pub assume_specification<T>[ Sender::<T>::new_receiver ](sender: &Sender<T>) -> (receiver: Receiver<T>)
;

/// `Receiver::poll_next`, of its `Stream` impl: the next message, the end once the
/// channel is closed and drained, or pending, with the task registered for waking.
/// Messages that an overflow has removed are passed over.
///
/// Nothing is stated of the outcome: it depends on what the other handles did.
#[verifier::external_body]
pub(crate) fn poll_receiver<T: Clone>(receiver: &mut Receiver<T>, cx: &mut Context<'_>) -> (outcome:
    StreamPoll<T>) {
    match Pin::new(receiver).poll_next(cx) {
        Poll::Ready(Some(message)) => StreamPoll::Item(message),
        Poll::Ready(None) => StreamPoll::End,
        Poll::Pending => StreamPoll::Pending,
    }
}

/// Whether a channel of this capacity can be made.
pub fn can_hold<T>(capacity: usize) -> (fits: bool)
    ensures
        fits == fits_in_memory::<T>(capacity),
{
    let size: usize = core::mem::size_of::<(T, usize)>();
    match capacity.checked_mul(size) {
        Some(bytes) => bytes <= isize::MAX as usize,
        None => false,
    }
}

/// A channel can be made as long as its messages, each with its count, can be addressed: up
/// to as many as `isize::MAX` bytes have room for. Where they take no room, any number can.
pub proof fn law_channel_holds_what_can_be_addressed<T>()
    ensures
        forall|capacity: usize, fits: bool| #[trigger]
            call_ensures(can_hold::<T>, (capacity,), fits) ==> {
                let size = vstd::layout::size_of::<(T, usize)>();
                fits <==> size == 0 || capacity as nat <= (isize::MAX as nat) / size
            },
{
    let size = vstd::layout::size_of::<(T, usize)>();
    assert forall|capacity: usize, fits: bool| #[trigger]
        call_ensures(can_hold::<T>, (capacity,), fits) implies (fits <==> size == 0 || capacity as nat
        <= (isize::MAX as nat) / size) by {
        let room = isize::MAX as nat;
        let messages = capacity as nat;
        assert(messages * size <= room <==> size == 0 || messages <= room / size) by (nonlinear_arith);
    }
}

} // verus!
