//! Expiry notification channels and shared handles.
use futures::channel::oneshot::{Canceled, Receiver, Sender};
use std::sync::Arc;
use vstd::prelude::*;

verus! {

/// `futures::channel::oneshot::Sender`, opaque: carried and dropped only.
#[verifier::external_type_specification]
#[verifier::external_body]
#[verifier::reject_recursive_types(T)]
pub struct ExOneshotSender<T>(Sender<T>);

/// `futures::channel::oneshot::Receiver`, opaque: carried only.
#[verifier::external_type_specification]
#[verifier::external_body]
#[verifier::reject_recursive_types(T)]
pub struct ExOneshotReceiver<T>(Receiver<T>);

/// `futures::channel::oneshot::Canceled`, the receiver's error, opaque; it
/// is declared because the receiver's `Future` impl names it.
#[verifier::external_type_specification]
#[verifier::external_body]
pub struct ExOneshotCanceled(Canceled);

/// The sending end of a farm's expiry channel. `channel` tags, for proofs
/// only, the channel the sender belongs to.
pub struct ExpirySender {
    sender: Sender<()>,
    channel: Ghost<int>,
}

/// The receiving end of a farm's expiry channel, tagged like its sender.
pub struct ExpiryReceiver {
    receiver: Receiver<()>,
    channel: Ghost<int>,
}

impl ExpirySender {
    /// The channel this sender belongs to.
    pub closed spec fn channel(&self) -> int {
        self.channel@
    }

    /// The sender itself, to signal or drop.
    pub fn into_sender(self) -> Sender<()> {
        self.sender
    }
}

impl ExpiryReceiver {
    /// The channel this receiver belongs to.
    pub closed spec fn channel(&self) -> int {
        self.channel@
    }

    /// The receiver itself, to await.
    pub fn into_receiver(self) -> Receiver<()> {
        self.receiver
    }
}

/// Creates a fresh one-shot channel by `futures::channel::oneshot::channel`
/// and returns its two ends, which share one inner state there. The
/// contract states that both carry one channel tag; nothing is stated of
/// the ends themselves: dropping the sender is what tells the holder of the
/// receiver that its farm expired.
#[verifier::external_body]
pub(crate) fn expiry_channel() -> (r: (ExpirySender, ExpiryReceiver))
    ensures
        r.0.channel() == r.1.channel(),
{
    let (sender, receiver) = futures::channel::oneshot::channel();
    (ExpirySender { sender, channel: Ghost(0) }, ExpiryReceiver { receiver, channel: Ghost(0) })
}

/// Another handle to the same allocation, by `Arc::clone`, whose
/// documentation says that it points to the same value.
#[verifier::external_body]
pub(crate) fn share<T>(handle: &Arc<T>) -> (r: Arc<T>)
    ensures
        r == *handle,
{
    Arc::clone(handle)
}

} // verus!
