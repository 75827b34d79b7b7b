//! The decisions of the message dispatchers: what a buffered reader does to
//! fetch a message, and what the notifier does with each receive outcome.
use vstd::prelude::*;

use crate::error::CanError;
use crate::message::CanMessage;

verus! {

/// How a buffered reader fetches its next message.
#[derive(Debug, Clone, Copy, PartialEq, Eq, Structural)]
pub enum ReceiveMode {
    /// Take a buffered message if there is one, without waiting.
    TakeBuffered,
    /// Wait for a message up to the given number of nanoseconds.
    WaitNanos(u64),
    /// Return no message.
    Nothing,
}

/// A stopped reader only drains what is buffered; a running one waits up
/// to the timeout, and without a timeout returns nothing.
pub fn receive_mode(stopped: bool, timeout_nanos: Option<u64>) -> (m: ReceiveMode)
    ensures
        m == (if stopped {
            ReceiveMode::TakeBuffered
        } else {
            match timeout_nanos {
                Some(t) => ReceiveMode::WaitNanos(t),
                None => ReceiveMode::Nothing,
            }
        }),
{
    if stopped {
        ReceiveMode::TakeBuffered
    } else {
        match timeout_nanos {
            Some(t) => ReceiveMode::WaitNanos(t),
            None => ReceiveMode::Nothing,
        }
    }
}

/// What the notifier's reader task does next.
#[derive(Debug, Clone, Copy, PartialEq, Eq, Structural)]
pub enum NotifierStep {
    /// Leave the loop.
    Stop,
    /// Hand the received message to every listener.
    Deliver,
    /// Hand the error to every listener.
    Report,
    /// Receive again.
    Continue,
}

/// A stopped notifier stops before receiving; otherwise a message is
/// delivered, an error reported, and a receive that timed out ignored.
pub fn notifier_step(stopped: bool, received: Option<&Result<Option<CanMessage>, CanError>>) -> (s: NotifierStep)
    ensures
        s == (if stopped {
            NotifierStep::Stop
        } else {
            match received {
                None => NotifierStep::Continue,
                Some(Ok(Some(_))) => NotifierStep::Deliver,
                Some(Ok(None)) => NotifierStep::Continue,
                Some(Err(_)) => NotifierStep::Report,
            }
        }),
{
    if stopped {
        return NotifierStep::Stop;
    }
    match received {
        None => NotifierStep::Continue,
        Some(Ok(Some(_))) => NotifierStep::Deliver,
        Some(Ok(None)) => NotifierStep::Continue,
        Some(Err(_)) => NotifierStep::Report,
    }
}

} // verus!
