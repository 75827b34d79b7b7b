//! Receivers of bus messages.
use vstd::prelude::*;
use vstd::string::{StrSliceExecFns, StringExecFns};

use crate::error::CanError;
use crate::external::print_line;
use crate::message::{display_bytes, CanMessage};
use crate::text::chars_of;

verus! {

/// The basic listener trait.
pub trait Listener {
    /// Called when a new message is received.
    fn on_message_received(&self, msg: &CanMessage);

    /// Called when an error occurs in the notification thread.
    fn on_error(&self, error: &CanError) {
    }

    /// Called when the listener should stop and flush any pending data.
    fn stop(&self) {
    }
}

/// A listener that prints each message to standard output.
pub struct PrinterListener {
    prefix: String,
}

impl PrinterListener {
    /// The text put before each message.
    pub closed spec fn prefix_text(&self) -> Seq<char> {
        self.prefix@
    }

    /// Creates a printing listener with a prefix, which may be empty.
    pub fn new(prefix: &str) -> (p: Self)
        ensures
            p.prefix_text() == prefix@,
    {
        PrinterListener { prefix: String::from_str(prefix) }
    }

    /// The line printed for a message: its display form, after the prefix
    /// and a space when the prefix is not empty.
    pub fn line(&self, msg: &CanMessage) -> (s: String)
        ensures
            s@ == if self.prefix_text().len() == 0 {
                chars_of(display_bytes(*msg))
            } else {
                self.prefix_text() + " "@ + chars_of(display_bytes(*msg))
            },
    {
        let text = msg.to_display_string();
        if self.prefix.as_str().unicode_len() == 0 {
            text
        } else {
            let with_space = self.prefix.clone().concat(" ");
            with_space.concat(text.as_str())
        }
    }
}

impl Listener for PrinterListener {
    fn on_message_received(&self, msg: &CanMessage) {
        let text = self.line(msg);
        print_line(text.as_str());
    }
}

} // verus!
