//! The per-participant outbound queue: a bounded tokio channel. Whether a
//! frame fits depends on how fast the connection drains it; what is stated
//! is that each attempt is one real `try_send`, and that the queue took the
//! frame exactly when the attempt reports so.
use vstd::prelude::*;

use tokio::sync::mpsc::{Receiver, Sender};

use crate::state::Outbound;

verus! {

#[verifier::external_type_specification]
#[verifier::external_body]
#[verifier::reject_recursive_types(T)]
pub struct ExSender<T>(Sender<T>);

#[verifier::external_type_specification]
#[verifier::external_body]
#[verifier::reject_recursive_types(T)]
pub struct ExReceiver<T>(Receiver<T>);

/// The frames that the queue behind `tx` has taken so far, in order.
pub uninterp spec fn accepted(tx: Sender<Outbound>) -> Seq<Outbound>;

/// The number of frames the queue behind `tx` can hold.
pub uninterp spec fn queue_capacity(tx: Sender<Outbound>) -> nat;

/// Calls `tokio::sync::mpsc::channel(capacity)`, which opens a queue that
/// holds up to `capacity` frames and has taken none. tokio panics on a
/// capacity of zero or above its semaphore's limit (`usize::MAX >> 3`),
/// which `requires` rules out.
#[verifier::external_body]
pub(crate) fn open_queue(capacity: usize) -> (q: (Sender<Outbound>, Receiver<Outbound>))
    requires
        0 < capacity <= usize::MAX / 8,
    ensures
        accepted(q.0) == Seq::<Outbound>::empty(),
        queue_capacity(q.0) == capacity,
{
    tokio::sync::mpsc::channel(capacity)
}

/// Calls `Sender::try_send` once and reports whether the frame was queued:
/// on `Ok` the queue took `item`, on `Err` (full or closed) it took nothing.
/// Which of the two happens depends on how fast the connection drains the
/// queue and on whether the receiver is still alive, so that is not stated.
/// The history is modelled per `Sender` value; the library never clones one.
#[verifier::external_body]
pub(crate) fn try_queue(tx: &mut Sender<Outbound>, item: Outbound) -> (queued: bool)
    ensures
        accepted(*final(tx)) == if queued {
            accepted(*old(tx)).push(item)
        } else {
            accepted(*old(tx))
        },
        queue_capacity(*final(tx)) == queue_capacity(*old(tx)),
{
    tx.try_send(item).is_ok()
}

} // verus!
