//! The scheduling decisions of a periodic send task.
use vstd::prelude::*;

use crate::error::CanError;

verus! {

/// A handle to a periodic send task.
pub trait CyclicTask {
    /// Stops the periodic task.
    fn stop(&self) -> Result<(), CanError>;

    /// Returns true while the periodic task is active.
    fn is_running(&self) -> bool;
}

/// The index of the message sent after the one at `index`, cycling through
/// `len` messages (an empty list counts as one).
pub fn next_message_index(index: usize, len: usize) -> (next: usize)
    requires
        index < usize::MAX,
    ensures
        next == (index + 1) % (if len == 0 { 1 } else { len as int }),
{
    let n = if len == 0 { 1 } else { len };
    (index + 1) % n
}

/// The next send time, in nanoseconds on the task's clock, after a send
/// planned for `next_send` with the clock at `now`: one period later, or one
/// period from now when that is already past (the schedule does not try to
/// catch up). Times saturate at the bound of `u64`.
pub fn next_deadline(next_send: u64, period: u64, now: u64) -> (next: u64)
    ensures
        next == (if next_send + period < now {
            if now + period > u64::MAX { u64::MAX as int } else { now + period }
        } else if next_send + period > u64::MAX {
            u64::MAX as int
        } else {
            next_send + period
        }),
{
    let planned = next_send.saturating_add(period);
    if planned < now {
        now.saturating_add(period)
    } else {
        planned
    }
}

/// How long to wait before the send planned for `next_send`, with the clock
/// at `now`: nothing when it is due.
pub fn wait_before_send(next_send: u64, now: u64) -> (wait: u64)
    ensures
        wait == (if now < next_send { next_send - now } else { 0 }),
{
    if now < next_send {
        next_send - now
    } else {
        0
    }
}

} // verus!
