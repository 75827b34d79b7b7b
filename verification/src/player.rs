//! Replay timing for log playback.
use vstd::prelude::*;

use crate::event::LogEvent;

verus! {

/// One event paired with the delay before it should be replayed.
#[derive(Debug, Clone, PartialEq, Eq)]
pub struct ReplayItem {
    /// Delay before sending or emitting the event.
    pub delay: core::time::Duration,
    /// Event to replay.
    pub event: LogEvent,
}

} // verus!
