use rust_can::cyclic::{next_deadline, next_message_index, wait_before_send};
use rust_can::dispatch::{notifier_step, receive_mode, NotifierStep, ReceiveMode};
use rust_can::virtual_bus::{delivers_to, delivery_timestamp};

#[test]
fn message_index_cycles_through_the_list() {
    assert_eq!(next_message_index(0, 3), 1);
    assert_eq!(next_message_index(2, 3), 0);
    assert_eq!(next_message_index(5, 0), 0);
    assert_eq!(next_message_index(0, 1), 0);
}

#[test]
fn deadline_moves_one_period_unless_already_past() {
    assert_eq!(next_deadline(100, 10, 105), 110);
    assert_eq!(next_deadline(100, 10, 110), 110);
    assert_eq!(next_deadline(100, 10, 200), 210);
    assert_eq!(next_deadline(u64::MAX - 5, 10, 0), u64::MAX);
    assert_eq!(next_deadline(0, 10, u64::MAX), u64::MAX);
}

#[test]
fn wait_is_the_time_left_or_nothing() {
    assert_eq!(wait_before_send(150, 100), 50);
    assert_eq!(wait_before_send(100, 100), 0);
    assert_eq!(wait_before_send(100, 150), 0);
}

#[test]
fn virtual_bus_keeps_or_replaces_timestamps() {
    assert_eq!(delivery_timestamp(true, 42, 100), 42);
    assert_eq!(delivery_timestamp(true, 0, 100), 100);
    assert_eq!(delivery_timestamp(false, 42, 100), 100);
    assert!(delivers_to(false, false));
    assert!(!delivers_to(true, false));
    assert!(delivers_to(true, true));
}

#[test]
fn buffered_reader_and_notifier_decisions() {
    assert_eq!(receive_mode(true, None), ReceiveMode::TakeBuffered);
    assert_eq!(receive_mode(true, Some(5)), ReceiveMode::TakeBuffered);
    assert_eq!(receive_mode(false, Some(5)), ReceiveMode::WaitNanos(5));
    assert_eq!(receive_mode(false, None), ReceiveMode::Nothing);
    let msg = rust_can::message::CanMessage::new(0x1, &[], false).unwrap();
    assert_eq!(notifier_step(true, None), NotifierStep::Stop);
    assert_eq!(notifier_step(false, None), NotifierStep::Continue);
    assert_eq!(notifier_step(false, Some(&Ok(Some(msg)))), NotifierStep::Deliver);
    assert_eq!(notifier_step(false, Some(&Ok(None))), NotifierStep::Continue);
    let err = Err(rust_can::error::CanError::timeout("t"));
    assert_eq!(notifier_step(false, Some(&err)), NotifierStep::Report);
}
