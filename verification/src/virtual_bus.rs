//! The delivery decisions of the in-memory virtual bus.
use vstd::prelude::*;

verus! {

/// The timestamp a delivered frame carries: its own when timestamps are
/// preserved and it has one (non-zero), the delivery time otherwise.
pub fn delivery_timestamp(preserve_timestamps: bool, frame_timestamp: u64, now: u64) -> (t: u64)
    ensures
        t == (if preserve_timestamps && frame_timestamp > 0 {
            frame_timestamp
        } else {
            now
        }),
{
    if preserve_timestamps && frame_timestamp > 0 {
        frame_timestamp
    } else {
        now
    }
}

/// Whether a written frame goes to a receiver on the channel: to every
/// other receiver, and to the writer's own only when it receives its own
/// messages.
pub fn delivers_to(is_own_receiver: bool, receive_own_messages: bool) -> (b: bool)
    ensures
        b == (!is_own_receiver || receive_own_messages),
{
    !is_own_receiver || receive_own_messages
}

} // verus!
