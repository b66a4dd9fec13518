use vstd::prelude::*;

verus! {

#[verifier::external_type_specification]
#[verifier::external_body]
#[verifier::reject_recursive_types(T)]
pub struct ExSender<T>(crossbeam::channel::Sender<T>);

#[verifier::external_type_specification]
#[verifier::external_body]
#[verifier::reject_recursive_types(T)]
pub struct ExReceiver<T>(crossbeam::channel::Receiver<T>);

/// A push found no consumer left on the queue; the item comes back.
pub struct QueueClosed<T>(pub T);

/// What one attempt to take a message off a channel gave.
pub enum Received<T> {
    Message(T),
    Empty,
    Disconnected,
}

/// Relies on crossbeam::channel::unbounded: a fresh channel without a bound,
/// as a sending and a receiving handle.
#[verifier::external_body]
pub(crate) fn unbounded<T>() -> (crossbeam::channel::Sender<T>, crossbeam::channel::Receiver<T>) {
    crossbeam::channel::unbounded()
}

/// Relies on crossbeam::channel::Sender::clone: another handle on the same
/// channel.
#[verifier::external_body]
pub(crate) fn clone_sender<T>(s: &crossbeam::channel::Sender<T>) -> crossbeam::channel::Sender<T> {
    s.clone()
}

/// Relies on crossbeam::channel::Sender::send: when the channel has no
/// receiver left, the message comes back in the error.
#[verifier::external_body]
pub(crate) fn send<T>(s: &crossbeam::channel::Sender<T>, msg: T) -> (r: Result<(), T>)
    ensures
        r is Err ==> r->Err_0 == msg,
{
    s.send(msg).map_err(|e| e.0)
}

/// Relies on crossbeam::channel::Receiver::try_recv: takes one message if one
/// is ready, without waiting, or says why there was none.
#[verifier::external_body]
pub(crate) fn try_recv<T>(r: &crossbeam::channel::Receiver<T>) -> Received<T> {
    match r.try_recv() {
        Ok(m) => Received::Message(m),
        Err(crossbeam::channel::TryRecvError::Empty) => Received::Empty,
        Err(crossbeam::channel::TryRecvError::Disconnected) => Received::Disconnected,
    }
}

/// Relies on crossbeam::channel::Receiver::len: how many messages the channel
/// held at the moment of the call.
#[verifier::external_body]
pub(crate) fn pending<T>(r: &crossbeam::channel::Receiver<T>) -> usize {
    r.len()
}

} // verus!
