use bytes::Bytes;
use rust_can::message::flags;
use rust_can::message::{CanMessage, CanMessageXL};
use rust_can::protocol::CanProtocol;

#[test]
fn test_can20_message() {
    let msg = CanMessage::new(0x123, &[0x01, 0x02, 0x03], false).unwrap();
    assert_eq!(msg.arbitration_id, 0x123);
    assert_eq!(msg.dlc, 3);
    assert!(!msg.is_extended_id());
    assert!(!msg.is_fd());
    assert!(!msg.is_remote_frame());
    assert_eq!(msg.data_slice(), &[0x01, 0x02, 0x03]);
}

#[test]
fn test_can_fd_message() {
    let data = vec![0xAA; 64];
    let msg = CanMessage::new_fd(0x12345678, &data, true, true).unwrap();
    assert!(msg.is_extended_id());
    assert!(msg.is_fd());
    assert!(msg.bitrate_switch());
    assert_eq!(msg.dlc, 64);
}

#[test]
fn test_remote_frame() {
    let msg = CanMessage::new_remote(0x100, 4, false).unwrap();
    assert!(msg.is_remote_frame());
    assert!(!msg.is_error_frame());
    assert_eq!(msg.dlc, 4);
}

#[test]
fn test_error_frame() {
    let msg = CanMessage::new_error();
    assert!(msg.is_error_frame());
}

#[test]
fn test_validation_can20_max_dlc() {
    let result = CanMessage::new(0x100, &[0u8; 9], false);
    assert!(result.is_err());
}

#[test]
fn test_validation_extended_id_range() {
    let mut msg = CanMessage::new(0x20000000, &[0x01], true).unwrap();
    assert!(msg.validate().is_err());

    msg.arbitration_id = 0x1FFFFFFF;
    assert!(msg.validate().is_ok());
}

#[test]
fn test_validation_fd_flags_on_non_fd() {
    let mut msg = CanMessage::new(0x100, &[0x01], false).unwrap();
    msg.flags |= flags::BITRATE_SWITCH;
    assert!(msg.validate().is_err());
}

#[test]
fn test_display_format() {
    let msg = CanMessage::new(0x123, &[0x01, 0x02], false).unwrap();
    let display = msg.to_display_string();
    assert!(display.contains("123"));
    assert!(display.contains("01 02"));
}

#[test]
fn test_flag_setters() {
    let msg = CanMessage::new(0x100, &[0x01], false).unwrap();
    assert!(msg.is_rx());
    let tx_msg = msg.as_tx();
    assert!(!tx_msg.is_rx());
}

#[test]
fn data_mut_updates_effective_payload_only() {
    let mut msg = CanMessage::new(0x100, &[0x01, 0x02], false).unwrap();
    msg.data_mut()[1] = 0xFF;
    assert_eq!(msg.data_slice(), &[0x01, 0xFF]);
}

#[test]
fn setters_toggle_fd_specific_flags_and_channel() {
    let msg = CanMessage::new_fd(0x123, &[0x01], false, false)
        .unwrap()
        .with_channel(7)
        .with_bitrate_switch(true)
        .with_error_state_indicator(true);
    assert_eq!(msg.channel, 7);
    assert!(msg.bitrate_switch());
    assert!(msg.error_state_indicator());

    let msg = msg
        .with_bitrate_switch(false)
        .with_error_state_indicator(false);
    assert!(!msg.bitrate_switch());
    assert!(!msg.error_state_indicator());
}

#[test]
fn protocol_tracks_classic_fd_and_xl_flags() {
    let classic = CanMessage::new(0x100, &[0x01], false).unwrap();
    assert_eq!(classic.protocol(), CanProtocol::Can20);

    let fd = CanMessage::new_fd(0x100, &[0x01], false, false).unwrap();
    assert_eq!(fd.protocol(), CanProtocol::CanFd);

    let xl = CanMessageXL::new(0x123, Bytes::from_static(&[0xAA; 128])).unwrap();
    assert_eq!(xl.header.protocol(), CanProtocol::CanXl);
}

#[test]
fn validation_rejects_conflicting_flags_and_standard_id_overflow() {
    let mut msg = CanMessage::new(0x123, &[0x01], false).unwrap();
    msg.flags |= flags::REMOTE_FRAME | flags::ERROR_FRAME;
    assert!(msg.validate().is_err());

    let mut msg = CanMessage::new(0x800, &[0x01], false).unwrap();
    assert!(msg.validate().is_err());

    msg.arbitration_id = 0x7FF;
    assert!(msg.validate().is_ok());
}

#[test]
fn can_xl_keeps_full_payload_and_rejects_oversized_data() {
    let payload = Bytes::from(vec![0x55; 256]);
    let msg = CanMessageXL::new(0x123, payload.clone()).unwrap();
    assert_eq!(msg.data(), payload.as_ref());
    assert_eq!(&msg.header.data[..64], &payload[..64]);

    let oversized = Bytes::from(vec![0_u8; 2049]);
    assert!(CanMessageXL::new(0x123, oversized).is_err());
}

#[test]
fn display_string_lists_id_dlc_and_bytes() {
    let mut msg = CanMessage::new(0x1AB, &[0x0F, 0xA0], false).unwrap();
    msg.timestamp = 1_500_000_000;
    let text = msg.to_display_string();
    let expected = format!("{:>15.6}  {:>8}  SRx{}  DL:{:2}  {}", 1.5f64, "1ab", " ".repeat(7), 2, "0f a0");
    assert_eq!(text, expected);
}

#[test]
fn data_length_limits_follow_the_protocol() {
    assert!(CanMessage::new(0x100, &[0u8; 8], false).is_ok());
    assert!(CanMessage::new_fd(0x100, &[0u8; 64], false, false).is_ok());
    assert!(CanMessage::new_fd(0x100, &[0u8; 65], false, false).is_err());
    assert!(CanMessage::new(0x800, &[0x01], false).is_ok());
    assert!(CanMessage::new_remote(0x100, 9, false).is_err());
}

#[test]
fn new_messages_carry_the_current_time() {
    let msg = CanMessage::new(0x1, &[], false).unwrap();
    // Later than 2020-01-01 in nanoseconds since the Unix epoch.
    assert!(msg.timestamp > 1_577_836_800_000_000_000);
    let stamped = CanMessage::new_error().with_timestamp_now();
    assert!(stamped.timestamp > 1_577_836_800_000_000_000);
}

#[test]
fn display_string_formats_the_f64_seconds() {
    for ts in [3_500u64, 7_812_500, 123_456_789_500, 1_780_662_896_789_012_345, u64::MAX] {
        let mut msg = CanMessage::new(0x1AB, &[0x0F, 0xA0], false).unwrap();
        msg.timestamp = ts;
        let text = msg.to_display_string();
        let seconds = format!("{:>15.6}", ts as f64 / 1e9);
        assert!(text.starts_with(&seconds), "{text} / {seconds}");
    }
}
