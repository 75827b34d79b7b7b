use rust_can::player::ReplayItem;
use rust_can::event::{
    CanFdLogEvent, CanLogEvent, Channel, Direction, LinLogEvent, LogEvent, Payload, UnknownEvent,
};

#[test]
fn can_event_keeps_classic_fields() {
    let event = LogEvent::Can(CanLogEvent {
        timestamp_ns: 42,
        channel: Channel::Number(2),
        arbitration_id: 0x1d1,
        direction: Direction::Rx,
        extended_id: false,
        remote_frame: false,
        data: Payload::from_slice(&[0, 1, 2, 3]),
    });

    match event {
        LogEvent::Can(frame) => {
            assert_eq!(frame.timestamp_ns, 42);
            assert_eq!(frame.channel, Channel::Number(2));
            assert_eq!(frame.arbitration_id, 0x1d1);
            assert_eq!(frame.direction, Direction::Rx);
            assert_eq!(frame.data.as_slice(), &[0, 1, 2, 3]);
        }
        _ => panic!("expected classic CAN event"),
    }
}

#[test]
fn canfd_event_distinguishes_dlc_code_and_payload_length() {
    let event = CanFdLogEvent {
        timestamp_ns: 0,
        channel: Channel::Number(6),
        arbitration_id: 0x637,
        direction: Direction::Rx,
        extended_id: false,
        bitrate_switch: false,
        error_state_indicator: false,
        dlc_code: 10,
        data: Payload::from_slice(&[0x20; 16]),
    };

    assert_eq!(event.dlc_code, 10);
    assert_eq!(event.data.len(), 16);
}

#[test]
fn lin_event_is_not_forced_into_can_message() {
    let event = LogEvent::Lin(LinLogEvent {
        timestamp_ns: 30_000,
        channel: Channel::Named("L11".to_string()),
        frame_id: 0x01,
        direction: Direction::Rx,
        data: Payload::from_slice(&[0x00, 0x4f, 0x3f]),
        checksum: Some(0),
    });

    match event {
        LogEvent::Lin(frame) => {
            assert_eq!(frame.channel, Channel::Named("L11".to_string()));
            assert_eq!(frame.frame_id, 1);
            assert_eq!(frame.checksum, Some(0));
        }
        _ => panic!("expected LIN event"),
    }
}

#[test]
fn unknown_event_preserves_raw_line_for_future_formats() {
    let event = LogEvent::Unknown(UnknownEvent {
        timestamp_ns: Some(1000),
        kind: "FlexRay".to_string(),
        raw: "0.001 FlexRay payload".to_string(),
    });

    match event {
        LogEvent::Unknown(unknown) => {
            assert_eq!(unknown.timestamp_ns, Some(1000));
            assert_eq!(unknown.kind, "FlexRay");
            assert_eq!(unknown.raw, "0.001 FlexRay payload");
        }
        _ => panic!("expected unknown event"),
    }
}

#[test]
fn payload_inlines_up_to_eight_bytes() {
    let p = Payload::from_slice(&[1, 2, 3, 4, 5, 6, 7, 8]);
    assert_eq!(p.as_slice(), &[1, 2, 3, 4, 5, 6, 7, 8]);
    assert_eq!(p.len(), 8);
    assert!(!p.is_empty());
    assert!(p.is_inline());
}

#[test]
fn payload_spills_to_heap_above_eight_bytes() {
    let p = Payload::from_slice(&[0u8; 64]);
    assert_eq!(p.len(), 64);
    assert!(!p.is_inline());
    let bytes = p.as_slice().to_vec();
    assert_eq!(bytes.len(), 64);
}

#[test]
fn empty_payload_reports_empty() {
    let p = Payload::from_slice(&[]);
    assert!(p.is_empty());
    assert!(p.is_inline());
    assert_eq!(p.len(), 0);
}

#[test]
fn payload_from_vec_keeps_bytes() {
    let v: Vec<u8> = vec![1, 2, 3];
    let p = Payload::from(v);
    assert_eq!(p.as_slice(), &[1, 2, 3]);
    assert!(p.is_inline());
}

#[test]
fn channel_named_carries_string() {
    let ch = Channel::Named("L11".to_string());
    match ch {
        Channel::Named(s) => assert_eq!(s, "L11"),
        _ => panic!("expected Named"),
    }
}

#[test]
fn payload_clone_keeps_bytes() {
    let p = Payload::from_slice(&[9, 8, 7, 6, 5, 4, 3, 2, 1]);
    let q = p.clone();
    assert_eq!(q.as_slice(), p.as_slice());
    assert_eq!(q, p);
}

#[test]
fn replay_items_clone_with_their_delay() {
    let item = ReplayItem {
        delay: std::time::Duration::from_millis(5),
        event: LogEvent::Unknown(UnknownEvent { timestamp_ns: None, kind: "x".to_string(), raw: "x".to_string() }),
    };
    let copy = item.clone();
    assert_eq!(copy, item);
    assert_eq!(copy.delay, std::time::Duration::from_millis(5));
}
