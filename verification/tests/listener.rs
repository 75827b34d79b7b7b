use std::sync::{Arc, Mutex};

use rust_can::listener::{Listener, PrinterListener};
use rust_can::message::CanMessage;

struct CapturingPrinter {
    lines: Arc<Mutex<Vec<String>>>,
    prefix: String,
}

impl CapturingPrinter {
    fn new(prefix: impl Into<String>) -> (Self, Arc<Mutex<Vec<String>>>) {
        let lines = Arc::new(Mutex::new(Vec::new()));
        (
            Self {
                lines: lines.clone(),
                prefix: prefix.into(),
            },
            lines,
        )
    }
}

impl Listener for CapturingPrinter {
    fn on_message_received(&self, msg: &CanMessage) {
        let line = if self.prefix.is_empty() {
            msg.to_display_string()
        } else {
            format!("{} {}", self.prefix, msg.to_display_string())
        };
        self.lines.lock().unwrap().push(line);
    }
}

#[test]
fn e2e_cor_prt_001_printer_listener_captures_output() {
    let (listener, lines) = CapturingPrinter::new("CAN");
    let msg = CanMessage::new(0x123, &[0x01, 0x02, 0x03], false).unwrap();

    listener.on_message_received(&msg);

    let captured = lines.lock().unwrap();
    assert_eq!(captured.len(), 1);
    assert!(captured[0].starts_with("CAN "));
    assert!(captured[0].contains("123"));
}

#[test]
fn e2e_cor_prt_001_builtin_printer_listener_formats_without_prefix() {
    let listener = PrinterListener::new("");
    let msg = CanMessage::new(0x456, &[0xAA], false).unwrap();
    let rendered = msg.to_display_string();
    listener.on_message_received(&msg);
    assert!(!rendered.is_empty());
}

#[test]
fn printer_listener_accepts_empty_and_prefixed_output_paths() {
    let msg = CanMessage::new(0x100, &[0x01], false).unwrap();
    PrinterListener::new("").on_message_received(&msg);
    PrinterListener::new("can0").on_message_received(&msg);
}

#[test]
fn printer_line_puts_prefix_and_space_before_the_message() {
    let msg = CanMessage::new(0x123, &[0x01], false).unwrap();
    let plain = msg.to_display_string();
    assert_eq!(PrinterListener::new("").line(&msg), plain);
    assert_eq!(PrinterListener::new("can0").line(&msg), format!("can0 {plain}"));
}

#[test]
fn default_error_and_stop_hooks_do_nothing() {
    let (listener, lines) = CapturingPrinter::new("");
    listener.on_error(&rust_can::error::CanError::operation("x"));
    listener.stop();
    assert!(lines.lock().unwrap().is_empty());
}
