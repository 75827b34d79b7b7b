use std::io::Write as _;

use flate2::write::ZlibEncoder;
use flate2::Compression;
use rust_can::blf::codec::BlfParseError;
use rust_can::blf::objects::parse_object_header;
use rust_can::blf::reader::{systemtime_to_timestamp_nanos, BlfReader};
use rust_can::blf::scan::BlfCanStats;
use rust_can::blf::writer::BlfWriter;
use rust_can::event::{CanFdLogEvent, CanLogEvent, Channel, Direction, LinLogEvent, LogEvent, Payload};

const SYN_FILE_HEADER_SIZE: usize = 144;
const SYN_OBJ_HEADER_BASE_SIZE: usize = 16;
const SYN_OBJ_HEADER_V1_SIZE: usize = 16;
const SYN_LOG_CONTAINER_STRUCT_SIZE: usize = 16;
const SYN_LOG_CONTAINER_TYPE: u32 = 10;
const SYN_CAN_FD_MESSAGE_64_TYPE: u32 = 101;
const SYN_NO_COMPRESSION_METHOD: u16 = 0;
const SYN_ZLIB_DEFLATE_METHOD: u16 = 2;
const SYN_CAN_FD_MSG_64_STRUCT_SIZE: usize = 40;

fn write_all(events: &[LogEvent]) -> Vec<u8> {
    let mut writer = BlfWriter::new();
    for event in events {
        writer.write_event(event).expect("event should be encodable");
    }
    writer.finish().expect("writer should finish");
    writer.into_bytes()
}

fn sample_can() -> LogEvent {
    LogEvent::Can(CanLogEvent {
        timestamp_ns: 0,
        channel: Channel::Number(0),
        arbitration_id: 0x123,
        direction: Direction::Rx,
        extended_id: false,
        remote_frame: false,
        data: Payload::from_slice(&[1, 2, 3, 4]),
    })
}

fn sample_canfd() -> LogEvent {
    LogEvent::CanFd(CanFdLogEvent {
        timestamp_ns: 1_000,
        channel: Channel::Number(1),
        arbitration_id: 0x18ff_50e5,
        direction: Direction::Tx,
        extended_id: true,
        bitrate_switch: true,
        error_state_indicator: false,
        dlc_code: 15,
        data: Payload::from_slice(&[0xAA; 64]),
    })
}

fn zlib(data: &[u8]) -> Vec<u8> {
    let mut compressed = Vec::new();
    {
        let mut encoder = ZlibEncoder::new(&mut compressed, Compression::default());
        encoder.write_all(data).expect("zlib write");
        encoder.finish().expect("zlib finish");
    }
    compressed
}

fn file_header(file_size: usize, object_count: u32) -> Vec<u8> {
    let mut blf = Vec::with_capacity(file_size);
    blf.extend_from_slice(b"LOGG");
    blf.extend_from_slice(&(SYN_FILE_HEADER_SIZE as u32).to_le_bytes());
    blf.extend_from_slice(&[5, 0, 0, 0, 2, 6, 8, 1]);
    blf.extend_from_slice(&(file_size as u64).to_le_bytes());
    blf.extend_from_slice(&(file_size as u64).to_le_bytes());
    blf.extend_from_slice(&object_count.to_le_bytes());
    blf.extend_from_slice(&0_u32.to_le_bytes());
    blf.extend(std::iter::repeat_n(0_u8, 32));
    blf.resize(SYN_FILE_HEADER_SIZE, 0);
    blf
}

fn build_synthetic_blf(inner_object: &[u8], method: u16) -> Vec<u8> {
    let mut object = Vec::new();
    object.extend_from_slice(b"LOBJ");
    object.extend_from_slice(&(SYN_OBJ_HEADER_BASE_SIZE as u16).to_le_bytes());
    object.extend_from_slice(&1_u16.to_le_bytes());
    object.extend_from_slice(
        &((SYN_OBJ_HEADER_BASE_SIZE + SYN_LOG_CONTAINER_STRUCT_SIZE + inner_object.len()) as u32)
            .to_le_bytes(),
    );
    object.extend_from_slice(&SYN_LOG_CONTAINER_TYPE.to_le_bytes());
    object.extend_from_slice(&method.to_le_bytes());
    object.extend_from_slice(&[0_u8; 6]);
    object.extend_from_slice(&(inner_object.len() as u32).to_le_bytes());
    object.extend_from_slice(&[0_u8; 4]);
    object.extend_from_slice(inner_object);
    let align_pad = (4 - object.len() % 4) % 4;
    object.extend(std::iter::repeat_n(0_u8, align_pad));

    let mut blf = file_header(SYN_FILE_HEADER_SIZE + object.len(), 1);
    blf.extend_from_slice(&object);
    blf
}

fn build_can_fd_64_object(data: &[u8], timestamp_ns: u64) -> Vec<u8> {
    let mut obj = Vec::new();
    let header_size = (SYN_OBJ_HEADER_BASE_SIZE + SYN_OBJ_HEADER_V1_SIZE) as u16;
    let payload_size = SYN_CAN_FD_MSG_64_STRUCT_SIZE + data.len();
    obj.extend_from_slice(b"LOBJ");
    obj.extend_from_slice(&header_size.to_le_bytes());
    obj.extend_from_slice(&1_u16.to_le_bytes());
    obj.extend_from_slice(&((header_size as u32) + payload_size as u32).to_le_bytes());
    obj.extend_from_slice(&SYN_CAN_FD_MESSAGE_64_TYPE.to_le_bytes());
    obj.extend_from_slice(&2_u32.to_le_bytes());
    obj.extend_from_slice(&[0_u8; 4]);
    obj.extend_from_slice(&timestamp_ns.to_le_bytes());
    obj.push(1);
    obj.push(9);
    obj.push(data.len() as u8);
    obj.push(0);
    obj.extend_from_slice(&0x98ff_50e5u32.to_le_bytes());
    obj.extend_from_slice(&[0_u8; 4]);
    obj.extend_from_slice(&0x2000u32.to_le_bytes());
    obj.extend(std::iter::repeat_n(0_u8, 18));
    obj.push(1);
    obj.push(0);
    obj.extend(std::iter::repeat_n(0_u8, 4));
    assert_eq!(obj.len(), SYN_OBJ_HEADER_BASE_SIZE + SYN_OBJ_HEADER_V1_SIZE + 40);
    obj.extend_from_slice(data);
    let pad = (4 - obj.len() % 4) % 4;
    obj.extend(std::iter::repeat_n(0_u8, pad));
    obj
}

#[test]
fn writer_roundtrips_can_and_canfd_events() {
    let source = vec![sample_can(), sample_canfd()];
    let output = write_all(&source);
    let mut reader = BlfReader::new(output).expect("written BLF header should be valid");
    let decoded = reader.collect_events().expect("written BLF body should be valid");
    assert_eq!(decoded, source);
}

#[test]
fn systemtime_header_converts_to_unix_timestamp_nanos() {
    let mut systemtime = [0_u8; 16];
    systemtime[0..2].copy_from_slice(&1970_u16.to_le_bytes());
    systemtime[2..4].copy_from_slice(&1_u16.to_le_bytes());
    systemtime[6..8].copy_from_slice(&1_u16.to_le_bytes());
    assert_eq!(systemtime_to_timestamp_nanos(&systemtime), 0);

    systemtime[0..2].copy_from_slice(&2026_u16.to_le_bytes());
    systemtime[2..4].copy_from_slice(&6_u16.to_le_bytes());
    systemtime[6..8].copy_from_slice(&5_u16.to_le_bytes());
    systemtime[8..10].copy_from_slice(&12_u16.to_le_bytes());
    systemtime[10..12].copy_from_slice(&34_u16.to_le_bytes());
    systemtime[12..14].copy_from_slice(&56_u16.to_le_bytes());
    systemtime[14..16].copy_from_slice(&789_u16.to_le_bytes());
    assert_eq!(systemtime_to_timestamp_nanos(&systemtime), 1_780_662_896_789_000_000);
}

#[test]
fn roundtrips_events_through_zlib_compressed_container() {
    let can = sample_can();
    let canfd = sample_canfd();
    let uncompressed = write_all(&[can.clone(), canfd.clone()]);

    let size_offset = SYN_FILE_HEADER_SIZE + SYN_OBJ_HEADER_BASE_SIZE + 2 + 6;
    let object_buffer_size = u32::from_le_bytes([
        uncompressed[size_offset],
        uncompressed[size_offset + 1],
        uncompressed[size_offset + 2],
        uncompressed[size_offset + 3],
    ]) as usize;
    let object_buffer_start = SYN_FILE_HEADER_SIZE + SYN_OBJ_HEADER_BASE_SIZE + SYN_LOG_CONTAINER_STRUCT_SIZE;
    let object_buffer = &uncompressed[object_buffer_start..object_buffer_start + object_buffer_size];
    let compressed = zlib(object_buffer);

    let mut new_object = Vec::new();
    new_object.extend_from_slice(b"LOBJ");
    new_object.extend_from_slice(&(SYN_OBJ_HEADER_BASE_SIZE as u16).to_le_bytes());
    new_object.extend_from_slice(&1_u16.to_le_bytes());
    new_object.extend_from_slice(
        &((SYN_OBJ_HEADER_BASE_SIZE + SYN_LOG_CONTAINER_STRUCT_SIZE + compressed.len()) as u32).to_le_bytes(),
    );
    new_object.extend_from_slice(&SYN_LOG_CONTAINER_TYPE.to_le_bytes());
    new_object.extend_from_slice(&SYN_ZLIB_DEFLATE_METHOD.to_le_bytes());
    new_object.extend_from_slice(&[0_u8; 6]);
    new_object.extend_from_slice(&(object_buffer_size as u32).to_le_bytes());
    new_object.extend_from_slice(&[0_u8; 4]);
    new_object.extend_from_slice(&compressed);
    let align_pad = (4 - new_object.len() % 4) % 4;
    new_object.extend(std::iter::repeat_n(0_u8, align_pad));

    let mut blf = file_header(SYN_FILE_HEADER_SIZE + new_object.len(), 2);
    blf.extend_from_slice(&new_object);

    let mut reader = BlfReader::new(blf.clone()).expect("valid zlib BLF header");
    let events = reader.collect_events().expect("zlib BLF should decode");
    assert_eq!(events, vec![can, canfd]);

    let mut reader = BlfReader::new(blf).expect("valid zlib BLF header");
    let stats = reader.scan_can_stats().expect("zlib scan should work");
    assert_eq!(
        stats,
        BlfCanStats {
            messages: 2,
            classic: 1,
            fd: 1,
            payload_bytes: 4 + 64,
        }
    );
}

#[test]
fn parses_can_fd_64_message_via_synthetic_blf() {
    let payload = [0xDE_u8, 0xAD, 0xBE, 0xEF];
    let inner = build_can_fd_64_object(&payload, 1_000);
    let blf = build_synthetic_blf(&inner, SYN_NO_COMPRESSION_METHOD);

    let mut reader = BlfReader::new(blf.clone()).expect("valid BLF header");
    let events = reader.collect_events().expect("64-byte FD should parse");
    assert_eq!(events.len(), 1);
    let event = events.into_iter().next().unwrap();
    match event {
        LogEvent::CanFd(frame) => {
            assert_eq!(frame.timestamp_ns, 1_000);
            assert_eq!(frame.arbitration_id, 0x18ff_50e5);
            assert!(frame.extended_id);
            assert!(frame.bitrate_switch);
            assert!(!frame.error_state_indicator);
            assert_eq!(frame.dlc_code, 9);
            assert_eq!(frame.data.as_slice(), &payload);
        }
        other => panic!("expected CanFd, got {:?}", other),
    }

    let mut reader = BlfReader::new(blf).expect("valid BLF header");
    let stats = reader.scan_can_stats().expect("64-byte FD scan should work");
    assert_eq!(
        stats,
        BlfCanStats {
            messages: 1,
            classic: 0,
            fd: 1,
            payload_bytes: payload.len(),
        }
    );
}

#[test]
fn decompresses_zlib_container_with_zero_uncompressed_size() {
    let mut inner = Vec::new();
    inner.extend_from_slice(b"LOBJ");
    inner.extend_from_slice(&32_u16.to_le_bytes());
    inner.extend_from_slice(&1_u16.to_le_bytes());
    inner.extend_from_slice(&48_u32.to_le_bytes());
    inner.extend_from_slice(&1_u32.to_le_bytes());
    inner.extend_from_slice(&2_u32.to_le_bytes());
    inner.extend_from_slice(&[0_u8; 4]);
    inner.extend_from_slice(&[0_u8; 8]);
    inner.extend_from_slice(&[0_u8; 16]);
    let compressed = zlib(&inner);

    let mut object = Vec::new();
    object.extend_from_slice(b"LOBJ");
    let obj_size = SYN_OBJ_HEADER_BASE_SIZE + SYN_LOG_CONTAINER_STRUCT_SIZE + compressed.len();
    object.extend_from_slice(&(SYN_OBJ_HEADER_BASE_SIZE as u16).to_le_bytes());
    object.extend_from_slice(&1_u16.to_le_bytes());
    object.extend_from_slice(&(obj_size as u32).to_le_bytes());
    object.extend_from_slice(&SYN_LOG_CONTAINER_TYPE.to_le_bytes());
    object.extend_from_slice(&SYN_ZLIB_DEFLATE_METHOD.to_le_bytes());
    object.extend_from_slice(&[0_u8; 6]);
    object.extend_from_slice(&0_u32.to_le_bytes());
    object.extend_from_slice(&[0_u8; 4]);
    object.extend_from_slice(&compressed);
    let pad = (4 - object.len() % 4) % 4;
    object.extend(std::iter::repeat_n(0_u8, pad));

    let mut blf = file_header(SYN_FILE_HEADER_SIZE + object.len(), 1);
    blf.extend_from_slice(&object);

    let mut reader = BlfReader::new(blf).expect("valid zlib header");
    let events = reader.collect_events().expect("zlib w/ zero uncompressed_size should decode");
    assert_eq!(events.len(), 1);
}

#[test]
fn rejects_truncated_and_invalid_blf_inputs() {
    let mut bad_sig = vec![0u8; SYN_FILE_HEADER_SIZE];
    bad_sig[..4].copy_from_slice(b"NOPE");
    let err = match BlfReader::new(bad_sig) {
        Ok(_) => panic!("expected InvalidFileSignature"),
        Err(e) => e,
    };
    assert!(matches!(err, BlfParseError::InvalidFileSignature));
    assert_eq!(err.message(), "BLF file header signature must be LOGG");

    let mut tiny_header = vec![0u8; SYN_FILE_HEADER_SIZE];
    tiny_header[..4].copy_from_slice(b"LOGG");
    tiny_header[4..8].copy_from_slice(&32_u32.to_le_bytes());
    let err = match BlfReader::new(tiny_header) {
        Ok(_) => panic!("expected InvalidField"),
        Err(e) => e,
    };
    assert!(matches!(err, BlfParseError::InvalidField { field: "file header size", .. }));

    let mut method_body = Vec::new();
    method_body.extend_from_slice(b"LOBJ");
    let method_obj_size = SYN_OBJ_HEADER_BASE_SIZE + SYN_LOG_CONTAINER_STRUCT_SIZE;
    method_body.extend_from_slice(&(SYN_OBJ_HEADER_BASE_SIZE as u16).to_le_bytes());
    method_body.extend_from_slice(&1_u16.to_le_bytes());
    method_body.extend_from_slice(&(method_obj_size as u32).to_le_bytes());
    method_body.extend_from_slice(&SYN_LOG_CONTAINER_TYPE.to_le_bytes());
    method_body.extend_from_slice(&0xFFFF_u16.to_le_bytes());
    method_body.extend_from_slice(&[0_u8; 6]);
    method_body.extend_from_slice(&0_u32.to_le_bytes());
    method_body.extend_from_slice(&[0_u8; 4]);
    let mut blf = build_synthetic_blf(&[], SYN_NO_COMPRESSION_METHOD);
    blf.truncate(144 + SYN_OBJ_HEADER_BASE_SIZE);
    blf.extend_from_slice(&method_body);
    let mut reader = BlfReader::new(blf).expect("header ok");
    let err = reader.collect_events().unwrap_err();
    assert!(matches!(err, BlfParseError::InvalidField { field: "compression method", .. }));

    let mut log_container = Vec::new();
    log_container.extend_from_slice(b"LOBJ");
    log_container.extend_from_slice(&16_u16.to_le_bytes());
    log_container.extend_from_slice(&1_u16.to_le_bytes());
    log_container.extend_from_slice(&24_u32.to_le_bytes());
    log_container.extend_from_slice(&SYN_LOG_CONTAINER_TYPE.to_le_bytes());
    log_container.extend_from_slice(&[0_u8; 8]);
    let mut blf = Vec::with_capacity(SYN_FILE_HEADER_SIZE + log_container.len());
    blf.resize(SYN_FILE_HEADER_SIZE, 0);
    blf.extend_from_slice(&log_container);
    blf[..4].copy_from_slice(b"LOGG");
    blf[4..8].copy_from_slice(&(SYN_FILE_HEADER_SIZE as u32).to_le_bytes());
    let mut reader = BlfReader::new(blf).expect("header ok");
    let err = reader.collect_events().unwrap_err();
    assert!(matches!(err, BlfParseError::Truncated { context: "log container" }));

    let mut bad_version2 = Vec::new();
    bad_version2.extend_from_slice(b"LOBJ");
    let v2_header_size = (SYN_OBJ_HEADER_BASE_SIZE + 24) as u16;
    bad_version2.extend_from_slice(&v2_header_size.to_le_bytes());
    bad_version2.extend_from_slice(&99_u16.to_le_bytes());
    let v2_obj_size = (v2_header_size as u32) + 16;
    bad_version2.extend_from_slice(&v2_obj_size.to_le_bytes());
    bad_version2.extend_from_slice(&1_u32.to_le_bytes());
    bad_version2.extend_from_slice(&[0_u8; 24]);
    bad_version2.extend_from_slice(&[0_u8; 16]);
    let blf = build_synthetic_blf(&bad_version2, SYN_NO_COMPRESSION_METHOD);
    let mut reader = BlfReader::new(blf).expect("header ok");
    let err = reader.collect_events().unwrap_err();
    assert!(matches!(err, BlfParseError::InvalidField { field: "object header version", .. }));

    let mut header_too_big = Vec::new();
    header_too_big.extend_from_slice(b"LOBJ");
    header_too_big.extend_from_slice(&200_u16.to_le_bytes());
    header_too_big.extend_from_slice(&1_u16.to_le_bytes());
    header_too_big.extend_from_slice(&32_u32.to_le_bytes());
    header_too_big.extend_from_slice(&1_u32.to_le_bytes());
    header_too_big.extend_from_slice(&[0_u8; 32]);
    let blf = build_synthetic_blf(&header_too_big, SYN_NO_COMPRESSION_METHOD);
    let mut reader = BlfReader::new(blf).expect("header ok");
    let _ = reader.collect_events();

    let io_err = BlfParseError::from(std::io::Error::other("boom"));
    assert!(matches!(io_err, BlfParseError::Io(_)));
    assert!(io_err.message().contains("boom"));
    let truncated = BlfParseError::Truncated { context: "x" };
    assert_eq!(truncated.message(), "truncated BLF input while reading x");
    let invalid_obj = BlfParseError::InvalidObjectSignature;
    assert_eq!(invalid_obj.message(), "BLF object header signature must be LOBJ");
    let invalid_field = BlfParseError::InvalidField { field: "y", value: "z".to_string() };
    assert_eq!(invalid_field.message(), "invalid BLF y: z");
}

#[test]
fn flushes_short_can_frame_with_padding() {
    let output = write_all(&[LogEvent::Can(CanLogEvent {
        timestamp_ns: 0,
        channel: Channel::Number(0),
        arbitration_id: 0x7df,
        direction: Direction::Tx,
        extended_id: false,
        remote_frame: false,
        data: Payload::from_slice(&[0x11, 0x22, 0x33]),
    })]);

    let mut reader = BlfReader::new(output).expect("read header");
    let events = reader.collect_events().expect("collect");
    assert_eq!(events.len(), 1);
    match &events[0] {
        LogEvent::Can(frame) => {
            assert_eq!(frame.arbitration_id, 0x7df);
            assert_eq!(frame.data.as_slice(), &[0x11, 0x22, 0x33]);
        }
        other => panic!("expected Can, got {:?}", other),
    }
}

#[test]
fn scan_counts_match_collected_events() {
    let events = vec![sample_can(), sample_canfd(), sample_can()];
    let output = write_all(&events);
    let stats = BlfReader::new(output.clone()).unwrap().scan_can_stats().unwrap();
    let collected = BlfReader::new(output).unwrap().collect_events().unwrap();
    assert_eq!(collected, events);
    assert_eq!(stats, BlfCanStats { messages: 3, classic: 2, fd: 1, payload_bytes: 4 + 64 + 4 });
}

#[test]
fn writer_header_records_size_and_object_count() {
    let output = write_all(&[sample_can(), sample_canfd()]);
    assert_eq!(&output[..4], b"LOGG");
    assert_eq!(u32::from_le_bytes(output[4..8].try_into().unwrap()), 144);
    let file_size = u64::from_le_bytes(output[16..24].try_into().unwrap());
    assert_eq!(file_size as usize, output.len());
    let count = u32::from_le_bytes(output[32..36].try_into().unwrap());
    assert_eq!(count, 2);
    assert_eq!(output.len() % 4, 0);
}

#[test]
fn empty_writer_reads_back_nothing() {
    let output = write_all(&[]);
    assert_eq!(output.len(), 144);
    let mut reader = BlfReader::new(output).unwrap();
    assert!(reader.collect_events().unwrap().is_empty());
}

#[test]
fn short_file_header_is_rejected() {
    let short = b"LOGG".to_vec();
    assert!(BlfReader::new(short).is_err());
}

#[test]
fn truncated_object_body_is_an_io_error() {
    let mut output = write_all(&[sample_can()]);
    output.truncate(output.len() - 8);
    let mut reader = BlfReader::new(output).expect("header ok");
    match reader.collect_events() {
        Err(BlfParseError::Io(e)) => assert_eq!(e.kind(), std::io::ErrorKind::UnexpectedEof),
        other => panic!("unexpected {other:?}"),
    }
    let io = BlfParseError::from(std::io::Error::other("gone"));
    assert_eq!(io.message(), "BLF IO error: gone");
}

#[test]
fn object_header_cut_short_is_truncated() {
    let short = b"LOBJ\x20\x00\x01\x00";
    match parse_object_header(short, 0, 0) {
        Err(BlfParseError::Truncated { context }) => assert_eq!(context, "object header"),
        _ => panic!("expected a truncated object header"),
    }
    let mut v1_cut = Vec::new();
    v1_cut.extend_from_slice(b"LOBJ");
    v1_cut.extend_from_slice(&32u16.to_le_bytes());
    v1_cut.extend_from_slice(&1u16.to_le_bytes());
    v1_cut.extend_from_slice(&48u32.to_le_bytes());
    v1_cut.extend_from_slice(&1u32.to_le_bytes());
    v1_cut.extend_from_slice(&[0u8; 8]);
    match parse_object_header(&v1_cut, 0, 0) {
        Err(BlfParseError::Truncated { context }) => assert_eq!(context, "object header v1"),
        _ => panic!("expected a truncated v1 extension"),
    }
}

#[test]
fn object_header_may_reach_past_the_data() {
    let mut data = Vec::new();
    data.extend_from_slice(b"LOBJ");
    data.extend_from_slice(&32u16.to_le_bytes());
    data.extend_from_slice(&1u16.to_le_bytes());
    data.extend_from_slice(&4096u32.to_le_bytes());
    data.extend_from_slice(&1u32.to_le_bytes());
    data.extend_from_slice(&2u32.to_le_bytes());
    data.extend_from_slice(&[0u8; 4]);
    data.extend_from_slice(&7u64.to_le_bytes());
    let header = parse_object_header(&data, 0, 100).expect("header should parse");
    assert_eq!(header.payload_offset, 32);
    assert_eq!(header.next_offset, 4096);
    assert_eq!(header.object_type, 1);
    assert_eq!(header.timestamp_nanos, 107);
}

#[test]
fn written_frames_read_back_relative_to_the_first_frame() {
    let lin = LogEvent::Lin(LinLogEvent {
        timestamp_ns: 10,
        channel: Channel::Named("L1".to_string()),
        frame_id: 0x12,
        direction: Direction::Rx,
        data: Payload::from_slice(&[1]),
        checksum: None,
    });
    let mut can = sample_can();
    if let LogEvent::Can(frame) = &mut can {
        frame.timestamp_ns = 5_000;
    }
    let mut canfd = sample_canfd();
    if let LogEvent::CanFd(frame) = &mut canfd {
        frame.timestamp_ns = 7_500;
    }
    let output = write_all(&[lin, can.clone(), canfd.clone()]);
    let mut reader = BlfReader::new(output).expect("written BLF header should be valid");
    let decoded = reader.collect_events().expect("written BLF body should be valid");
    let mut expected_can = can;
    if let LogEvent::Can(frame) = &mut expected_can {
        frame.timestamp_ns = 0;
    }
    let mut expected_fd = canfd;
    if let LogEvent::CanFd(frame) = &mut expected_fd {
        frame.timestamp_ns = 2_500;
    }
    assert_eq!(decoded, vec![expected_can, expected_fd]);
}

#[test]
fn scanned_totals_match_the_written_frames() {
    let output = write_all(&[sample_can(), sample_canfd(), sample_can()]);
    let mut reader = BlfReader::new(output).expect("written BLF header should be valid");
    let stats = reader.scan_can_stats().expect("scan should succeed");
    assert_eq!(stats.messages, 3);
    assert_eq!(stats.classic, 2);
    assert_eq!(stats.fd, 1);
    assert_eq!(stats.payload_bytes, 4 + 64 + 4);
}
