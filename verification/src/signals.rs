//! The start signal of a task and the channel on which tasks report that
//! they have finished.

use async_channel::{Receiver, Sender, TryRecvError};
use event_listener::Event;
use vstd::prelude::*;

verus! {

/// `event_listener::Event`: a signal that listeners wait for. Nothing inside
/// it is visible to the proofs.
#[verifier::external_type_specification]
#[verifier::external_body]
pub struct ExEvent(event_listener::Event);

/// `async_channel::Sender`: the sending end of a channel. Nothing inside it
/// is visible to the proofs.
#[verifier::external_type_specification]
#[verifier::external_body]
#[verifier::reject_recursive_types(T)]
pub struct ExSender<T>(async_channel::Sender<T>);

/// `async_channel::Receiver`: the receiving end of a channel. Nothing inside
/// it is visible to the proofs.
#[verifier::external_type_specification]
#[verifier::external_body]
#[verifier::reject_recursive_types(T)]
pub struct ExReceiver<T>(async_channel::Receiver<T>);

/// `async_channel::TryRecvError`: why nothing could be taken from a channel.
/// The proofs do not tell its variants apart.
#[verifier::external_type_specification]
#[verifier::external_body]
pub struct ExTryRecvError(async_channel::TryRecvError);

/// `Event::new`: an event that nobody listens to yet. Nothing is claimed of
/// it.
#[verifier::external_body]
pub(crate) fn new_event() -> Event {
    Event::new()
}

/// `Event::notify` with a count of one: makes sure that one listener of the
/// event is woken, if the event has listeners. Nothing comes back, so nothing
/// is claimed. The call panics only where a thread has panicked while it held
/// the lock inside the event.
#[verifier::external_body]
pub(crate) fn notify_one(event: &Event) {
    event.notify(1);
}

/// `async_channel::unbounded`: the two ends of a new channel that holds any
/// number of task identifiers. Nothing is claimed of them.
#[verifier::external_body]
pub(crate) fn unbounded() -> (Sender<usize>, Receiver<usize>) {
    async_channel::unbounded()
}

/// `Receiver::try_recv`: takes the oldest message out of the channel without
/// waiting, or says that there is none. What comes back depends on what the
/// senders have done, so nothing is claimed of it.
#[verifier::external_body]
pub(crate) fn try_recv(receiver: &Receiver<usize>) -> Result<usize, TryRecvError> {
    receiver.try_recv()
}

} // verus!
