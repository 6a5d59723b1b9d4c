//! The bridge from the synchronous graph to an asynchronous value stream.
//!
//! A memo can be turned into a stream of its values: an effect subscribed
//! to the memo publishes every new value into an unbounded channel, and the
//! receiving half is handed to the consumer.  The producer never blocks;
//! publishing into a channel whose receiver is gone or whose scope was
//! cleaned up is a silent no-op.  Everything the channel itself does is the
//! work of the `futures` crate; this module only declares it.
//!
//! The two names below stand for the identity of the channel a handle
//! belongs to.  They let contracts say that a sender, a cloned closer and
//! a receiver are halves of one channel; nothing is ever claimed about two
//! channels being distinct.

use vstd::prelude::*;

verus! {

#[verifier::external_type_specification]
#[verifier::external_body]
#[verifier::reject_recursive_types(T)]
pub struct ExUnboundedSender<T>(futures::channel::mpsc::UnboundedSender<T>);

#[verifier::external_type_specification]
#[verifier::external_body]
#[verifier::reject_recursive_types(T)]
pub struct ExUnboundedReceiver<T>(futures::channel::mpsc::UnboundedReceiver<T>);

/// The channel a sending half belongs to.
pub uninterp spec fn sender_channel(tx: futures::channel::mpsc::UnboundedSender<i64>) -> int;

/// The channel a receiving half belongs to.
pub uninterp spec fn receiver_channel(rx: futures::channel::mpsc::UnboundedReceiver<i64>) -> int;

/// Relies on futures::channel::mpsc::unbounded: creates a fresh unbounded
/// channel and returns its two halves — the sender and the receiver of
/// one and the same channel; the sender side never blocks.
#[verifier::external_body]
pub(crate) fn new_channel() -> (r: (
    futures::channel::mpsc::UnboundedSender<i64>,
    futures::channel::mpsc::UnboundedReceiver<i64>,
))
    ensures
        sender_channel(r.0) == receiver_channel(r.1),
{
    futures::channel::mpsc::unbounded()
}

/// Relies on futures' `impl Clone for UnboundedSender`: another handle to
/// the same channel.
#[verifier::external_body]
pub(crate) fn clone_sender(tx: &futures::channel::mpsc::UnboundedSender<i64>) -> (r: futures::channel::mpsc::UnboundedSender<i64>)
    ensures
        sender_channel(r) == sender_channel(*tx),
{
    tx.clone()
}

/// Relies on UnboundedSender::unbounded_send: enqueues the value into the
/// sender's channel, or does nothing when the channel is already closed;
/// it never blocks or panics.
#[verifier::external_body]
pub(crate) fn send_value(tx: &futures::channel::mpsc::UnboundedSender<i64>, v: i64) {
    let _ = tx.unbounded_send(v);
}

/// Relies on UnboundedSender::close_channel: closes the sender's channel
/// from the sender side, so later sends become no-ops and the receiver
/// terminates after draining.
#[verifier::external_body]
pub(crate) fn close_sender(tx: &futures::channel::mpsc::UnboundedSender<i64>) {
    tx.close_channel();
}

} // verus!
