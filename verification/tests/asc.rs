use rust_can::asc::parse::parse_line;
use rust_can::asc::reader::AscReader;
use rust_can::asc::scan::AscCanStats;
use rust_can::asc::syntax::AscParseError;
use rust_can::asc::writer::AscWriter;
use rust_can::event::{CanFdLogEvent, CanLogEvent, Channel, Direction, LinLogEvent, LogEvent, Payload};

fn reader(text: &str) -> AscReader {
    AscReader::new(text.as_bytes().to_vec())
}

fn written(events: &[LogEvent]) -> String {
    let mut writer = AscWriter::new();
    for event in events {
        writer.write_event(event).expect("event should write");
    }
    String::from_utf8(writer.into_bytes()).expect("ASC output should be utf8")
}

#[test]
fn parses_classic_can_data_line() {
    let event = parse_line("0.000080 2 1D1 Rx d 8 00 00 00 00 F8 00 82 D9")
        .expect("line should parse")
        .expect("line should be an event");

    match event {
        LogEvent::Can(frame) => {
            assert_eq!(frame.timestamp_ns, 80_000);
            assert_eq!(frame.channel, Channel::Number(1));
            assert_eq!(frame.arbitration_id, 0x1d1);
            assert_eq!(frame.direction, Direction::Rx);
            assert!(!frame.extended_id);
            assert_eq!(frame.data.as_slice(), &[0, 0, 0, 0, 0xf8, 0, 0x82, 0xd9]);
        }
        _ => panic!("expected CAN event"),
    }
}

#[test]
fn parses_current_canfd_dialect_with_decimal_dlc_code() {
    let event = parse_line(
        "0.000000 CANFD 6 637 Rx 0 0 d 10 16 00 20 00 00 00 00 00 00 00 00 00 00 00 00 00 00",
    )
    .expect("line should parse")
    .expect("line should be an event");

    match event {
        LogEvent::CanFd(frame) => {
            assert_eq!(frame.channel, Channel::Number(5));
            assert_eq!(frame.arbitration_id, 0x637);
            assert_eq!(frame.dlc_code, 10);
            assert_eq!(frame.data.len(), 16);
            assert_eq!(frame.data.as_slice()[1], 0x20);
        }
        _ => panic!("expected CAN FD event"),
    }
}

#[test]
fn parses_lin_line_with_checksum() {
    let event = parse_line("0.000030 L11 1 Rx 8 00 4F 3F FF FF C0 FE FE checksum = 00")
        .expect("line should parse")
        .expect("line should be an event");

    match event {
        LogEvent::Lin(frame) => {
            assert_eq!(frame.timestamp_ns, 30_000);
            assert_eq!(frame.channel, Channel::Named("L11".to_string()));
            assert_eq!(frame.frame_id, 1);
            assert_eq!(frame.direction, Direction::Rx);
            assert_eq!(frame.checksum, Some(0));
            assert_eq!(frame.data.as_slice(), &[0, 0x4f, 0x3f, 0xff, 0xff, 0xc0, 0xfe, 0xfe]);
        }
        _ => panic!("expected LIN event"),
    }
}

#[test]
fn keeps_unknown_event_for_future_formats() {
    let event = parse_line("0.001000 FlexRay 1 2 3")
        .expect("line should parse")
        .expect("line should be an event");

    match event {
        LogEvent::Unknown(unknown) => {
            assert_eq!(unknown.timestamp_ns, Some(1_000_000));
            assert_eq!(unknown.kind, "FlexRay");
            assert_eq!(unknown.raw, "0.001000 FlexRay 1 2 3");
        }
        _ => panic!("expected unknown event"),
    }
}

#[test]
fn streams_events_without_returning_header_lines() {
    let input = [
        "date Fri May 29 09:08:31.774 AM 2026\n",
        "base hex timestamps absolute\n",
        "internal events logged\n",
        "Begin TriggerBlock Fri May 29 09:08:31.774 AM 2026\n",
        "0.000000 Start of measurement\n",
        "0.000080 2 1D1 Rx d 8 00 00 00 00 F8 00 82 D9\n",
        "0.000030 L11 1 Rx 8 00 4F 3F FF FF C0 FE FE checksum = 00\n",
    ].concat();
    let events = reader(&input).collect_events().expect("reader should succeed");

    assert_eq!(events.len(), 2);
    assert!(matches!(events[0], LogEvent::Can(_)));
    assert!(matches!(events[1], LogEvent::Lin(_)));
}

#[test]
fn collect_events_limit_stops_after_requested_count() {
    let input = ["0.100000 1 123 Rx d 1 aa\n", "0.200000 1 124 Rx d 1 bb\n"].concat();
    let events = reader(&input).collect_events_limit(1).expect("reader should succeed");
    assert_eq!(events.len(), 1);
    match &events[0] {
        LogEvent::Can(frame) => assert_eq!(frame.arbitration_id, 0x123),
        _ => panic!("expected CAN event"),
    }
}

#[test]
fn collect_can_events_limit_ignores_lin_for_python_can_comparable_counts() {
    let input = [
        "0.100000 L11 1 Rx 1 aa checksum = 00\n",
        "0.200000 1 123 Rx d 1 bb\n",
        "0.300000 1 124 Rx d 1 cc\n",
    ].concat();
    let events = reader(&input).collect_can_events_limit(1).expect("reader should succeed");
    assert_eq!(events.len(), 1);
    match &events[0] {
        LogEvent::Can(frame) => assert_eq!(frame.arbitration_id, 0x123),
        _ => panic!("expected CAN event"),
    }
}

#[test]
fn count_can_events_limit_matches_comparable_frame_count_without_storage() {
    let input = [
        "0.100000 L11 1 Rx 1 aa checksum = 00\n",
        "0.200000 1 123 Rx d 1 bb\n",
        "0.300000 CANFD 1 124 Rx 1 0 d 9 12 01 02 03 04 05 06 07 08 09 0A 0B 0C\n",
    ].concat();
    assert_eq!(reader(&input).count_can_events_limit(10).unwrap(), 2);
}

#[test]
fn numeric_can_channels_are_internal_zero_based_and_written_one_based() {
    let event = LogEvent::Can(CanLogEvent {
        timestamp_ns: 0,
        channel: Channel::Number(0),
        arbitration_id: 0x123,
        direction: Direction::Rx,
        extended_id: false,
        remote_frame: false,
        data: Payload::from_slice(&[0xAA]),
    });
    let text = written(std::slice::from_ref(&event));
    assert!(text.contains(" 1 123 Rx "));
    let parsed = reader(&text).collect_events().unwrap();
    assert_eq!(parsed, vec![event]);
}

#[test]
fn scan_can_stats_limit_counts_and_validates_payload_without_event_storage() {
    let input = [
        "0.100000 L11 1 Rx 1 aa checksum = 00\n",
        "0.200000 1 123 Rx d 2 aa bb\n",
        "0.300000 CANFD 1 124 Rx 1 0 d 9 12 01 02 03 04 05 06 07 08 09 0A 0B 0C 0D 0E 0F 10 11 12\n",
        "0.400000 1 125 Rx d 1 cc\n",
    ].concat();
    let stats = reader(&input).scan_can_stats_limit(2).expect("scan should parse valid CAN/CANFD");
    assert_eq!(
        stats,
        AscCanStats {
            messages: 2,
            classic: 1,
            fd: 1,
            payload_bytes: 14,
        }
    );
}

#[test]
fn scan_can_stats_limit_reports_bad_payload_tokens() {
    let input = "0.200000 1 123 Rx d 2 aa zz\n".to_string();
    let error = reader(&input)
        .scan_can_stats_limit(10)
        .expect_err("invalid hex payload should fail");
    assert!(matches!(error, AscParseError::InvalidField { field: "data", .. }));
}

#[test]
fn writer_roundtrips_can_canfd_and_lin_events() {
    let events = vec![
        LogEvent::Can(CanLogEvent {
            timestamp_ns: 80_000,
            channel: Channel::Number(2),
            arbitration_id: 0x1d1,
            direction: Direction::Rx,
            extended_id: false,
            remote_frame: false,
            data: Payload::from_slice(&[0, 0, 0, 0, 0xf8, 0, 0x82, 0xd9]),
        }),
        LogEvent::CanFd(CanFdLogEvent {
            timestamp_ns: 0,
            channel: Channel::Number(6),
            arbitration_id: 0x637,
            direction: Direction::Rx,
            extended_id: false,
            bitrate_switch: false,
            error_state_indicator: false,
            dlc_code: 10,
            data: Payload::from_slice(&[0x20; 16]),
        }),
        LogEvent::Lin(LinLogEvent {
            timestamp_ns: 30_000,
            channel: Channel::Named("L11".to_string()),
            frame_id: 1,
            direction: Direction::Rx,
            data: Payload::from_slice(&[0, 0x4f, 0x3f, 0xff, 0xff, 0xc0, 0xfe, 0xfe]),
            checksum: Some(0),
        }),
    ];

    let text = written(&events);
    let parsed = reader(&text).collect_events().expect("written ASC should parse");

    assert_eq!(parsed, events);
}

#[test]
fn writes_exact_lines_for_each_event_kind() {
    let events = vec![
        LogEvent::Can(CanLogEvent {
            timestamp_ns: 1_500_000,
            channel: Channel::Number(0),
            arbitration_id: 0x18ff_50e5,
            direction: Direction::Tx,
            extended_id: true,
            remote_frame: false,
            data: Payload::from_slice(&[0x01, 0xab]),
        }),
        LogEvent::Can(CanLogEvent {
            timestamp_ns: 2_000_000,
            channel: Channel::Number(1),
            arbitration_id: 0x100,
            direction: Direction::Rx,
            extended_id: false,
            remote_frame: true,
            data: Payload::from_slice(&[]),
        }),
    ];
    let text = written(&events);
    let lines: Vec<&str> = text.lines().collect();
    assert_eq!(lines.len(), 2);
    assert!(lines[0].starts_with("0.001500 1 18FF50E5x Tx d 2 01 AB"), "{text}");
    assert!(lines[1].starts_with("0.002000 2 100 Rx r"), "{text}");
    let parsed = reader(&text).collect_events().unwrap();
    assert_eq!(parsed, events);
}

#[test]
fn rejects_bad_tokens_with_the_field_name() {
    match parse_line("0.1 1 XYZ Rx d 1 aa") {
        Err(AscParseError::InvalidField { field, value }) => {
            assert_eq!(field, "arbitration_id");
            assert_eq!(value, "XYZ");
        }
        other => panic!("unexpected {other:?}"),
    }
    assert!(matches!(parse_line("0.1 1 123 Rx d 2 aa"), Err(AscParseError::MissingField("data"))));
    match parse_line("0.1 1 123 Up d 1 aa") {
        Ok(Some(LogEvent::Unknown(unknown))) => assert_eq!(unknown.kind, "1"),
        other => panic!("unexpected {other:?}"),
    }
}

#[test]
fn header_and_blank_lines_are_not_events() {
    assert!(parse_line("").unwrap().is_none());
    assert!(parse_line("   ").unwrap().is_none());
    assert!(parse_line("date Fri May 29 09:08:31.774 AM 2026").unwrap().is_none());
    assert!(parse_line("0.000000 Start of measurement").unwrap().is_none());
}

#[test]
fn negative_timestamps_extended_ids_and_fd_flags_read_back() {
    let events = vec![
        LogEvent::Can(CanLogEvent {
            timestamp_ns: -2_500_000,
            channel: Channel::Number(9),
            arbitration_id: 0x1FFF_FFFF,
            direction: Direction::Tx,
            extended_id: true,
            remote_frame: false,
            data: Payload::from_slice(&[]),
        }),
        LogEvent::CanFd(CanFdLogEvent {
            timestamp_ns: 123_456_789_000,
            channel: Channel::Number(0),
            arbitration_id: 0x7FF,
            direction: Direction::Tx,
            extended_id: false,
            bitrate_switch: true,
            error_state_indicator: true,
            dlc_code: 9,
            data: Payload::from_slice(&[0x00, 0xFF, 0x10]),
        }),
        LogEvent::Lin(LinLogEvent {
            timestamp_ns: 7_000,
            channel: Channel::Named("LIN2".to_string()),
            frame_id: 0x3c,
            direction: Direction::Tx,
            data: Payload::from_slice(&[]),
            checksum: None,
        }),
    ];
    let text = written(&events);
    assert!(text.starts_with("-0.002500 10 1FFFFFFFx Tx d 0 \n"), "{text}");
    assert_eq!(reader(&text).collect_events().unwrap(), events);
}

#[test]
fn sub_microsecond_timestamps_are_rounded_when_written() {
    let event = LogEvent::Can(CanLogEvent {
        timestamp_ns: 1_500,
        channel: Channel::Number(0),
        arbitration_id: 0x1,
        direction: Direction::Rx,
        extended_id: false,
        remote_frame: false,
        data: Payload::from_slice(&[1]),
    });
    let text = written(std::slice::from_ref(&event));
    assert!(text.starts_with("0.000002 1 1 Rx d 1 01"), "{text}");
    match &reader(&text).collect_events().unwrap()[0] {
        LogEvent::Can(frame) => assert_eq!(frame.timestamp_ns, 2_000),
        other => panic!("unexpected {other:?}"),
    }
}

#[test]
fn non_utf8_lines_are_io_errors() {
    let data = b"0.100000 1 123 Rx d 1 aa\n\xff\xfe\n".to_vec();
    match AscReader::new(data).collect_events() {
        Err(AscParseError::Io(e)) => assert_eq!(e.kind(), std::io::ErrorKind::InvalidData),
        other => panic!("unexpected {other:?}"),
    }
}

#[test]
fn parse_errors_render_their_field_and_value() {
    let missing = AscParseError::MissingField("dlc");
    assert_eq!(missing.message(), "ASC record is missing dlc");
    let invalid = AscParseError::InvalidField { field: "data", value: "z\"z".to_string() };
    assert_eq!(invalid.message(), "ASC field data has invalid value \"z\\\"z\"");
    let io = AscParseError::from(std::io::Error::other("gone"));
    assert_eq!(io.message(), "ASC I/O error: gone");
}

#[test]
fn scanned_counts_match_collected_can_events() {
    let input = [
        "date Fri May 29 09:08:31.774 AM 2026\n",
        "0.100000 L11 1 Rx 1 aa checksum = 00\n",
        "0.200000 1 123 Rx d 2 aa bb\r\n",
        "0.250000 2 7FF Tx r 4\n",
        "0.300000 CANFD 1 124 Rx 1 0 d 9 12 01 02 03 04 05 06 07 08 09 0A 0B 0C 0D 0E 0F 10 11 12\n",
        "0.400000 FlexRay 1 2 3\n",
        "0.500000 1 125 Rx d 1 cc",
    ]
    .concat();
    for limit in [0usize, 1, 2, 3, 10] {
        let stats = reader(&input).scan_can_stats_limit(limit).unwrap();
        let events = reader(&input).collect_can_events_limit(limit).unwrap();
        let classic = events.iter().filter(|e| matches!(e, LogEvent::Can(_))).count();
        let fd = events.iter().filter(|e| matches!(e, LogEvent::CanFd(_))).count();
        let payload: usize = events
            .iter()
            .map(|e| match e {
                LogEvent::Can(f) => f.data.len(),
                LogEvent::CanFd(f) => f.data.len(),
                _ => 0,
            })
            .sum();
        assert_eq!(stats, AscCanStats { messages: events.len(), classic, fd, payload_bytes: payload });
    }
}

#[test]
fn scanned_totals_count_frames_and_payload_bytes() {
    let text = "0.000080 2 1D1 Rx d 2 01 02\n\
                0.000100 CANFD 1 124 Rx 1 0 d 10 16 00 01 02 03 04 05 06 07 08 09 0A 0B 0C 0D 0E 0F\n\
                0.000200 1 123 Tx d 3 0A 0B 0C\n";
    let stats = reader(text).scan_can_stats_limit(usize::MAX).expect("scan should succeed");
    assert_eq!(stats.messages, 3);
    assert_eq!(stats.classic, 2);
    assert_eq!(stats.fd, 1);
    assert_eq!(stats.payload_bytes, 2 + 16 + 3);
}

fn written_can_at(timestamp_ns: i64) -> String {
    written(&[LogEvent::Can(CanLogEvent {
        timestamp_ns,
        channel: Channel::Number(0),
        arbitration_id: 0x123,
        direction: Direction::Rx,
        extended_id: false,
        remote_frame: false,
        data: Payload::from_slice(&[]),
    })])
}

#[test]
fn writer_formats_timestamps_as_f64_seconds_with_six_decimals() {
    assert!(written_can_at(3_500).starts_with("0.000003 "));
    assert!(written_can_at(2_500).starts_with("0.000003 "));
    assert!(written_can_at(1_500).starts_with("0.000002 "));
    assert!(written_can_at(500).starts_with("0.000000 "));
    assert!(written_can_at(7_812_500).starts_with("0.007812 "));
    assert!(written_can_at(123_456_789_500).starts_with("123.456789 "));
    assert!(written_can_at(-3_500).starts_with("-0.000003 "));
    assert!(written_can_at(-100).starts_with("-0.000000 "));
    assert!(written_can_at(999_999_999_999_999_999).starts_with("1000000000.000000 "));
}
