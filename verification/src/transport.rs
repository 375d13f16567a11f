//! Handles into the asynchronous transport.
//!
//! The routing fabric stores channel endpoints of the surrounding runtime:
//! each node's relayer-side outbound queue is a broadcast sender, and each
//! node's local input queue is a bounded sender. The library carries these
//! handles as opaque values and hands messages to them; the loops that
//! drain the matching receivers live outside the library.

use vstd::prelude::*;
use crate::message::BridgeMessage;

verus! {

#[verifier::external_type_specification]
#[verifier::external_body]
#[verifier::reject_recursive_types(T)]
pub struct ExMpscSender<T>(tokio::sync::mpsc::Sender<T>);

#[verifier::external_type_specification]
#[verifier::external_body]
#[verifier::reject_recursive_types(T)]
pub struct ExMpscReceiver<T>(tokio::sync::mpsc::Receiver<T>);

#[verifier::external_type_specification]
#[verifier::external_body]
#[verifier::reject_recursive_types(T)]
pub struct ExBroadcastSender<T>(tokio::sync::broadcast::Sender<T>);

/// Relies on tokio's `broadcast::Sender::send`: hands the message to every
/// currently subscribed receiver of the channel; it fails only when no
/// receiver is subscribed, and that failure is tolerated here, as every
/// failure past routing is.
#[verifier::external_body]
pub fn channel_send(
    sender: &tokio::sync::broadcast::Sender<BridgeMessage>,
    item: BridgeMessage,
)
{
    let _ = sender.send(item);
}

} // verus!
