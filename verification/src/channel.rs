//! Declarations for the channel primitives of the `crossbeam` crate.
//!
//! The runtime uses one unbounded multi-producer channel as the external
//! self-render signal path: components hold cloneable senders, the host owns
//! the receiver and drains it when polled.  What a channel delivers depends
//! on other threads, so none of the declarations below promises anything
//! about the transported values; every caller in the runtime states what
//! holds of its own state for every possible outcome.

use vstd::prelude::*;

verus! {

#[verifier::external_type_specification]
#[verifier::external_body]
#[verifier::reject_recursive_types(T)]
pub struct ExSender<T>(crossbeam::channel::Sender<T>);

#[verifier::external_type_specification]
#[verifier::external_body]
#[verifier::reject_recursive_types(T)]
pub struct ExReceiver<T>(crossbeam::channel::Receiver<T>);

#[verifier::external_type_specification]
#[verifier::external_body]
#[verifier::reject_recursive_types(T)]
pub struct ExSendError<T>(crossbeam::channel::SendError<T>);

#[verifier::external_type_specification]
#[verifier::external_body]
pub struct ExTryRecvError(crossbeam::channel::TryRecvError);

/// Relies on crossbeam's `channel::unbounded`: creates a connected
/// sender/receiver pair of a channel of unbounded capacity.
pub assume_specification<T>[ crossbeam::channel::unbounded::<T> ]() -> (crossbeam::channel::Sender<
    T,
>, crossbeam::channel::Receiver<T>);

/// Relies on crossbeam's `Sender::send`: on an unbounded channel the call
/// never blocks; it fails only when all receivers were dropped, handing the
/// message back inside the error.  On a channel of bounded capacity `send`
/// would block while the channel is full; this crate only ever creates
/// unbounded channels (see `unbounded` below), so that case never arises
/// here.
pub assume_specification<T>[ crossbeam::channel::Sender::<T>::send ](
    s: &crossbeam::channel::Sender<T>,
    msg: T,
) -> Result<(), crossbeam::channel::SendError<T>>;

/// Relies on crossbeam's `Receiver::try_recv`: returns a pending message
/// without blocking, or an error when the channel is empty or disconnected.
pub assume_specification<T>[ crossbeam::channel::Receiver::<T>::try_recv ](
    r: &crossbeam::channel::Receiver<T>,
) -> Result<T, crossbeam::channel::TryRecvError>;

/// Relies on crossbeam's `Receiver::len`: the number of messages sitting in
/// the channel at some moment during the call.  Other threads may change it
/// at any time, so the runtime uses it only to bound one draining pass.
pub assume_specification<T>[ crossbeam::channel::Receiver::<T>::len ](
    r: &crossbeam::channel::Receiver<T>,
) -> usize;

/// Relies on crossbeam's `Clone` impl for `Sender`: the clone sends into the
/// same channel.
pub assume_specification<T>[ <crossbeam::channel::Sender<T> as Clone>::clone ](
    s: &crossbeam::channel::Sender<T>,
) -> crossbeam::channel::Sender<T>;

} // verus!
