use bytes::Bytes;
use rust_can::frame::{CanFrame, FrameFlags};
use rust_can::message::CanMessage;

#[test]
fn test_frame_to_message_roundtrip() {
    let frame = CanFrame::new_data(0x123, Bytes::from(vec![1, 2, 3]), false).with_timestamp(1000);
    let msg: CanMessage = frame.clone().into();
    let frame2: CanFrame = msg.into();
    assert_eq!(frame.can_id, frame2.can_id);
    assert_eq!(frame.data, frame2.data);
    assert_eq!(frame.timestamp, frame2.timestamp);
}

#[test]
fn frame_flags_pack_and_unpack_all_bits() {
    let flags = FrameFlags {
        extended: true,
        remote: true,
        error: true,
        fd: true,
        brs: true,
        esi: true,
        xl: true,
    };
    assert_eq!(FrameFlags::from_byte(flags.to_byte()), flags);
}

#[test]
fn fd_xl_remote_and_channel_builders_set_expected_fields() {
    let fd = CanFrame::new_fd(0x18ff_50e5, Bytes::from_static(&[0xAA; 16]), true, true).with_channel(2);
    assert!(fd.flags.extended);
    assert!(fd.flags.fd);
    assert!(fd.flags.brs);
    assert_eq!(fd.channel, 2);

    let xl = CanFrame::new_xl(0x123, Bytes::from_static(&[0x55; 128]));
    assert!(xl.flags.extended);
    assert!(xl.flags.fd);
    assert!(xl.flags.xl);

    let remote = CanFrame::new_remote(0x321, 8, false);
    assert!(remote.flags.remote);
    assert!(remote.data.is_empty());
}

#[test]
fn conversion_truncates_wire_frame_payload_to_inline_message_capacity() {
    let frame = CanFrame::new_fd(0x123, Bytes::from(vec![0x11; 128]), false, false);
    let msg: CanMessage = frame.into();
    assert_eq!(msg.dlc, 64);
    assert_eq!(msg.data_slice(), &[0x11; 64]);
}

#[test]
fn flag_byte_round_trips_for_every_value() {
    for byte in 0u8..=255 {
        let flags = FrameFlags::from_byte(byte);
        assert_eq!(FrameFlags::from_byte(flags.to_byte()), flags);
    }
    assert_eq!(FrameFlags::default().to_byte(), 0);
}

#[test]
fn message_to_frame_keeps_flags_channel_and_payload() {
    let msg = CanMessage::new_fd(0x18ff_50e5, &[1, 2, 3, 4], true, true).unwrap().with_channel(3);
    let frame: CanFrame = msg.clone().into();
    assert_eq!(frame.can_id, 0x18ff_50e5);
    assert!(frame.flags.extended && frame.flags.fd && frame.flags.brs);
    assert_eq!(frame.channel, 3);
    assert_eq!(frame.data.as_ref(), &[1, 2, 3, 4]);
    let back: CanMessage = frame.into();
    assert_eq!(back.data_slice(), msg.data_slice());
    assert_eq!(back.flags, msg.flags);
}
