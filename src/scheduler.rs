//! The decisions of a scheduled delivery task. The task itself (sleeping,
//! sending, persisting) runs outside the library; it asks `next_delivery_step`
//! what to do, and reports back through `finish_delivery`.

use vstd::prelude::*;
use crate::clock::{Duration, Timestamp};
use crate::message::{Activation, Message};
use crate::message_store::MessageStore;

verus! {

#[derive(Clone, Copy, Debug, PartialEq, Eq, Structural)]
pub enum DeliveryStep {
    /// Nothing to deliver: the message is gone from the store (cancelled or
    /// already delivered) or it has no deadline.
    Skip,
    /// The deadline lies this far ahead.
    Wait(Duration),
    /// The deadline has passed: deliver now.
    Deliver,
}

pub open spec fn delivery_step(present: bool, activation: Activation, now: Timestamp) -> DeliveryStep {
    if !present {
        DeliveryStep::Skip
    } else {
        match activation {
            Activation::OnNextMessage => DeliveryStep::Skip,
            Activation::Fixed(deadline) => if deadline.unix_seconds > now.unix_seconds {
                DeliveryStep::Wait(
                    Duration { secs: (deadline.unix_seconds - now.unix_seconds) as u64 },
                )
            } else {
                DeliveryStep::Deliver
            },
        }
    }
}

/// What the delivery task of `message` does at `now`. The store is asked
/// again each time, so a cancelled message is never delivered.
pub fn next_delivery_step(store: &MessageStore, message: &Message, now: Timestamp) -> (r:
    DeliveryStep)
    requires
        store.wf(),
    ensures
        r == delivery_step(store.contents().contains_key(message@.id), message@.activation, now),
{
    if !store.contains(message) {
        return DeliveryStep::Skip;
    }
    match *message.activation() {
        Activation::OnNextMessage => DeliveryStep::Skip,
        Activation::Fixed(deadline) => {
            if deadline.unix_seconds > now.unix_seconds {
                let diff: i128 = deadline.unix_seconds as i128 - now.unix_seconds as i128;
                DeliveryStep::Wait(Duration { secs: diff as u64 })
            } else {
                DeliveryStep::Deliver
            }
        },
    }
}

/// Records the outcome of a delivery: a delivered message leaves the store,
/// one whose delivery failed stays for a later try. Tells whether the store
/// changed and needs saving.
pub fn finish_delivery(store: &mut MessageStore, message: &Message, delivered: bool) -> (changed:
    bool)
    requires
        old(store).wf(),
    ensures
        final(store).wf(),
        final(store).path_spec() == old(store).path_spec(),
        delivered ==> changed == old(store).contents().contains_key(message@.id)
            && final(store).contents() == old(store).contents().remove(message@.id),
        !delivered ==> !changed && final(store).contents() == old(store).contents(),
{
    if delivered {
        store.remove(message)
    } else {
        false
    }
}

} // verus!
