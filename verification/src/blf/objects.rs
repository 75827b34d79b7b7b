//! Object headers, CAN message objects and the object stream inside a log
//! container.
use vstd::prelude::*;

use crate::blf::codec::{
    agrees, field_fault, invalid_number, is_fault, le16, le32, le64, read_u16, read_u32, read_u64,
    read_u8, BlfParseError, Fault, CAN_FD_MESSAGE, CAN_FD_MESSAGE_64, CAN_FD_MSG_64_STRUCT_SIZE,
    CAN_FD_MSG_STRUCT_SIZE, CAN_MESSAGE, CAN_MESSAGE2, CAN_MSG_EXT, CAN_MSG_STRUCT_SIZE, DIR, BRS,
    ESI, FD64_BRS, FD64_ESI, OBJ_HEADER_BASE_SIZE, OBJ_HEADER_V1_SIZE, OBJ_HEADER_V2_SIZE,
    REMOTE_FLAG, TIME_TEN_MICS,
};
use crate::event::{
    CanFdLogEvent, CanLogEvent, Channel, ChannelModel, Direction, EventModel, LogEvent,
    Payload, TimestampNanos,
};

verus! {

/// The common header of every object.
#[derive(Debug, Clone, Copy, PartialEq, Eq, Structural)]
pub struct BaseHeader {
    /// Size of the object header (common part and extension).
    pub header_size: usize,
    /// Version of the header extension.
    pub header_version: u16,
    /// Size of the whole object.
    pub object_size: usize,
    /// Object type.
    pub object_type: u32,
}

/// Where an object's payload lies, its type and its absolute timestamp.
#[derive(Debug, Clone, Copy, PartialEq, Eq, Structural)]
pub struct ObjectHeader {
    /// Offset of the payload.
    pub payload_offset: usize,
    /// Offset just past the object.
    pub next_offset: usize,
    /// Object type.
    pub object_type: u32,
    /// Timestamp in nanoseconds.
    pub timestamp_nanos: TimestampNanos,
}

/// `LOBJ` at offset `o`.
pub open spec fn is_lobj_at(d: Seq<u8>, o: int) -> bool {
    &&& 0 <= o
    &&& o + 4 <= d.len()
    &&& d[o] == 76 && d[o + 1] == 79 && d[o + 2] == 66 && d[o + 3] == 74
}

/// The common header in the first 16 bytes of `h`.
pub open spec fn spec_base_header(h: Seq<u8>) -> Result<BaseHeader, Fault> {
    if h.len() < 16 {
        Err(Fault::Truncated("object header"@))
    } else if !is_lobj_at(h, 0) {
        Err(Fault::ObjectSignature)
    } else {
        Ok(
            BaseHeader {
                header_size: le16(h, 4) as usize,
                header_version: le16(h, 6),
                object_size: le32(h, 8) as usize,
                object_type: le32(h, 12),
            },
        )
    }
}

/// Parses the common object header at the start of `data`.
pub fn parse_base_header(data: &[u8]) -> (r: Result<BaseHeader, BlfParseError>)
    ensures
        agrees(r, spec_base_header(data@)),
{
    if data.len() < OBJ_HEADER_BASE_SIZE {
        return Err(BlfParseError::Truncated { context: "object header" });
    }
    if !(data[0] == 76 && data[1] == 79 && data[2] == 66 && data[3] == 74) {
        return Err(BlfParseError::InvalidObjectSignature);
    }
    let header_size = match read_u16(data, 4) {
        Ok(v) => v,
        Err(e) => return Err(e),
    };
    let header_version = match read_u16(data, 6) {
        Ok(v) => v,
        Err(e) => return Err(e),
    };
    let object_size = match read_u32(data, 8) {
        Ok(v) => v,
        Err(e) => return Err(e),
    };
    let object_type = match read_u32(data, 12) {
        Ok(v) => v,
        Err(e) => return Err(e),
    };
    Ok(
        BaseHeader {
            header_size: header_size as usize,
            header_version,
            object_size: object_size as usize,
            object_type,
        },
    )
}

/// The first `LOBJ` at a position in `[p, last]`.
pub open spec fn find_lobj_from(d: Seq<u8>, p: int, last: int) -> Option<int>
    decreases last - p + 1,
{
    if p > last {
        None
    } else if is_lobj_at(d, p) {
        Some(p)
    } else {
        find_lobj_from(d, p + 1, last)
    }
}

/// The first `LOBJ` that starts at `offset` or within the next four bytes
/// (the search window ends eight bytes after `offset`).
pub open spec fn spec_find_lobj(d: Seq<u8>, offset: int) -> Option<int> {
    let max = if offset + 8 <= d.len() { offset + 8 } else { d.len() as int };
    find_lobj_from(d, offset, max - 4)
}

/// A found signature lies in the searched range.
pub proof fn lemma_find_lobj_from_bounds(d: Seq<u8>, p: int, last: int)
    ensures
        find_lobj_from(d, p, last) matches Some(q) ==> p <= q <= last && is_lobj_at(d, q),
    decreases last - p + 1,
{
    if p <= last && !is_lobj_at(d, p) {
        lemma_find_lobj_from_bounds(d, p + 1, last);
    }
}

/// A found signature lies at or after `offset`, in the data.
pub proof fn lemma_find_lobj_bounds(d: Seq<u8>, offset: int)
    ensures
        spec_find_lobj(d, offset) matches Some(p) ==> offset <= p && p + 4 <= d.len() && is_lobj_at(
            d,
            p,
        ),
{
    let max = if offset + 8 <= d.len() { offset + 8 } else { d.len() as int };
    lemma_find_lobj_from_bounds(d, offset, max - 4);
}

/// Finds the next `LOBJ` signature at `offset` or shortly after it.
pub fn find_lobj(data: &[u8], offset: usize) -> (r: Option<usize>)
    requires
        offset <= data@.len(),
    ensures
        r matches Some(p) ==> spec_find_lobj(data@, offset as int) == Some(p as int),
        r is None ==> spec_find_lobj(data@, offset as int) is None,
{
    let max: usize = if data.len() - offset >= 8 { offset + 8 } else { data.len() };
    let mut p = offset;
    while p <= max && max - p >= 4
        invariant
            offset <= p <= max,
            max <= data@.len(),
            max == (if offset + 8 <= data@.len() { offset + 8 } else { data@.len() as int }),
            find_lobj_from(data@, offset as int, max - 4) == find_lobj_from(data@, p as int, max - 4),
        decreases max - p,
    {
        if data[p] == 76 && data[p + 1] == 79 && data[p + 2] == 66 && data[p + 3] == 74 {
            return Some(p);
        }
        p = p + 1;
    }
    None
}

/// Checks that `len` bytes start at `offset`; `Truncated(context)` otherwise.
pub fn slice_at<'a>(data: &'a [u8], offset: usize, len: usize, context: &'static str) -> (r: Result<&'a [u8], BlfParseError>)
    ensures
        r matches Ok(s) ==> offset + len <= data@.len() && s@ == data@.subrange(
            offset as int,
            offset + len,
        ),
        r matches Err(e) ==> offset + len > data@.len() && is_fault(e, Fault::Truncated(context@)),
{
    if offset <= data.len() && data.len() - offset >= len {
        Ok(&data[offset..offset + len])
    } else {
        Err(BlfParseError::Truncated { context })
    }
}

/// An object timestamp in nanoseconds: units of 10 microseconds for
/// `TIME_TEN_MICS`, nanoseconds otherwise; the value wraps to 64 bits.
pub open spec fn ts_to_nanos(flags: u32, timestamp: u64) -> i64 {
    if flags == TIME_TEN_MICS {
        (timestamp as i64).wrapping_mul(10_000)
    } else {
        timestamp as i64
    }
}

/// Converts an object timestamp to nanoseconds.
pub fn timestamp_to_nanos(flags: u32, timestamp: u64) -> (t: TimestampNanos)
    ensures
        t == ts_to_nanos(flags, timestamp),
{
    if flags == TIME_TEN_MICS {
        (timestamp as i64).wrapping_mul(10_000)
    } else {
        timestamp as i64
    }
}

/// The full header of the object at `offset`: the version 1 or 2 extension
/// holds the timestamp flags and value; the header must end within the object.
pub open spec fn spec_object_header(d: Seq<u8>, offset: int, start: i64) -> Result<ObjectHeader, Fault> {
    if offset + 16 > d.len() {
        Err(Fault::Truncated("object header"@))
    } else {
        match spec_base_header(d.subrange(offset, offset + 16)) {
            Err(f) => Err(f),
            Ok(base) => {
                let ext = offset + 16;
                if base.header_version == 1 && ext + 16 > d.len() {
                    Err(Fault::Truncated("object header v1"@))
                } else if base.header_version == 2 && ext + 24 > d.len() {
                    Err(Fault::Truncated("object header v2"@))
                } else if base.header_version != 1 && base.header_version != 2 {
                    Err(field_fault("object header version"@, base.header_version as nat))
                } else if offset + base.header_size > offset + base.object_size {
                    Err(field_fault("object header size"@, base.header_size as nat))
                } else {
                    Ok(
                        ObjectHeader {
                            payload_offset: (offset + base.header_size) as usize,
                            next_offset: (offset + base.object_size) as usize,
                            object_type: base.object_type,
                            timestamp_nanos: start.wrapping_add(
                                ts_to_nanos(le32(d, ext), le64(d, ext + 8)),
                            ),
                        },
                    )
                }
            },
        }
    }
}

/// Parses the full header of the object at `offset`. The offsets of the
/// object's end and of its payload must fit in `usize`.
pub fn parse_object_header(data: &[u8], offset: usize, start_timestamp_nanos: TimestampNanos) -> (r: Result<ObjectHeader, BlfParseError>)
    requires
        offset + 16 <= data@.len() ==> ({
            let b = spec_base_header(data@.subrange(offset as int, offset + 16));
            b matches Ok(base) ==> offset + base.object_size <= usize::MAX && offset + base.header_size
                <= usize::MAX
        }),
    ensures
        agrees(r, spec_object_header(data@, offset as int, start_timestamp_nanos)),
        r matches Ok(h) ==> offset <= h.payload_offset <= h.next_offset,
{
    let base = match slice_at(data, offset, OBJ_HEADER_BASE_SIZE, "object header") {
        Ok(h) => {
            assert(h@ =~= data@.subrange(offset as int, offset + 16));
            match parse_base_header(h) {
                Ok(b) => b,
                Err(e) => return Err(e),
            }
        },
        Err(e) => return Err(e),
    };
    let len = data.len();
    assert(offset + 16 <= len);
    let next_offset = offset + base.object_size;
    let header_start = offset + OBJ_HEADER_BASE_SIZE;
    let ghost d = data@;
    let ghost ext = header_start as int;
    let (timestamp_flags, timestamp) = if base.header_version == 1 {
        let header = match slice_at(data, header_start, OBJ_HEADER_V1_SIZE, "object header v1") {
            Ok(h) => h,
            Err(e) => return Err(e),
        };
        let f = match read_u32(header, 0) {
            Ok(v) => v,
            Err(e) => return Err(e),
        };
        let t = match read_u64(header, 8) {
            Ok(v) => v,
            Err(e) => return Err(e),
        };
        assert(le32(header@, 0) == le32(d, ext));
        assert(le64(header@, 8) == le64(d, ext + 8));
        (f, t)
    } else if base.header_version == 2 {
        let header = match slice_at(data, header_start, OBJ_HEADER_V2_SIZE, "object header v2") {
            Ok(h) => h,
            Err(e) => return Err(e),
        };
        let f = match read_u32(header, 0) {
            Ok(v) => v,
            Err(e) => return Err(e),
        };
        let t = match read_u64(header, 8) {
            Ok(v) => v,
            Err(e) => return Err(e),
        };
        assert(le32(header@, 0) == le32(d, ext));
        assert(le64(header@, 8) == le64(d, ext + 8));
        (f, t)
    } else {
        return Err(invalid_number("object header version", base.header_version as u64));
    };
    if base.header_size > base.object_size {
        return Err(invalid_number("object header size", base.header_size as u64));
    }
    let payload_offset = offset + base.header_size;
    let ts = timestamp_to_nanos(timestamp_flags, timestamp);
    Ok(
        ObjectHeader {
            payload_offset,
            next_offset,
            object_type: base.object_type,
            timestamp_nanos: start_timestamp_nanos.wrapping_add(ts),
        },
    )
}

/// A stored channel number is one-based; channel 0 stays 0.
pub open spec fn spec_decode_channel(channel: u16) -> ChannelModel {
    ChannelModel::Number(if channel == 0 { 0 } else { (channel - 1) as u16 })
}

/// Receive unless the direction bit is set.
pub open spec fn spec_direction(flags: u8) -> Direction {
    if flags & DIR == 0 {
        Direction::Rx
    } else {
        Direction::Tx
    }
}

/// Decodes a stored channel number.
pub fn decode_channel(channel: u16) -> (c: Channel)
    ensures
        c@ == spec_decode_channel(channel),
{
    Channel::Number(if channel == 0 { 0 } else { channel - 1 })
}

/// Decodes the direction bit.
pub fn decode_direction_from_flags(flags: u8) -> (d: Direction)
    ensures
        d == spec_direction(flags),
{
    if flags & DIR == 0 {
        Direction::Rx
    } else {
        Direction::Tx
    }
}

/// The CAN event in a CAN message object's payload.
pub open spec fn spec_can_message(p: Seq<u8>, timestamp: i64) -> Result<EventModel, Fault> {
    if p.len() < 16 {
        Err(Fault::Truncated("CAN message"@))
    } else {
        let id = le32(p, 4);
        let n = if p[3] <= 8 { p[3] as int } else { 8 };
        Ok(
            EventModel::Can {
                timestamp_ns: timestamp as int,
                channel: spec_decode_channel(le16(p, 0)),
                arbitration_id: id & !CAN_MSG_EXT,
                direction: spec_direction(p[2]),
                extended_id: id & CAN_MSG_EXT != 0,
                remote_frame: p[2] & REMOTE_FLAG != 0,
                data: p.subrange(8, 8 + n),
            },
        )
    }
}

/// The CAN FD event in a CAN FD message object's payload.
pub open spec fn spec_can_fd_message(p: Seq<u8>, timestamp: i64) -> Result<EventModel, Fault> {
    if p.len() < 84 {
        Err(Fault::Truncated("CAN FD message"@))
    } else {
        let id = le32(p, 4);
        let n = if p[14] <= 64 { p[14] as int } else { 64 };
        Ok(
            EventModel::CanFd {
                timestamp_ns: timestamp as int,
                channel: spec_decode_channel(le16(p, 0)),
                arbitration_id: id & !CAN_MSG_EXT,
                direction: spec_direction(p[2]),
                extended_id: id & CAN_MSG_EXT != 0,
                bitrate_switch: p[13] & BRS != 0,
                error_state_indicator: p[13] & ESI != 0,
                dlc_code: p[3],
                data: p.subrange(20, 20 + n),
            },
        )
    }
}

/// Where the data of a CAN FD 64 message starts: after the structure, or at
/// the extension offset stored in it.
pub open spec fn fd64_data_offset(h: ObjectHeader, ext: u8) -> int {
    if ext == 0 {
        h.payload_offset + 40
    } else {
        h.payload_offset + ext
    }
}

/// How many data bytes of a CAN FD 64 message are read: the valid-byte
/// count, at most what remains of the object.
pub open spec fn fd64_data_len(h: ObjectHeader, valid: u8, data_offset: int) -> int {
    let room = if h.next_offset >= data_offset { h.next_offset - data_offset } else { 0 };
    if valid <= room {
        valid as int
    } else {
        room
    }
}

/// The CAN FD event of a CAN FD 64 message object.
pub open spec fn spec_can_fd_64_message(d: Seq<u8>, h: ObjectHeader) -> Result<EventModel, Fault> {
    let p = d.subrange(h.payload_offset as int, h.next_offset as int);
    if p.len() < 40 {
        Err(Fault::Truncated("CAN FD 64 message"@))
    } else {
        let data_offset = fd64_data_offset(h, p[35]);
        let n = fd64_data_len(h, p[2], data_offset);
        if data_offset + n > d.len() {
            Err(Fault::Truncated("CAN FD 64 message data"@))
        } else {
            let id = le32(p, 4);
            let fd_flags = le32(p, 12);
            Ok(
                EventModel::CanFd {
                    timestamp_ns: h.timestamp_nanos as int,
                    channel: spec_decode_channel(p[0] as u16),
                    arbitration_id: id & !CAN_MSG_EXT,
                    direction: if p[34] == 0 {
                        Direction::Rx
                    } else {
                        Direction::Tx
                    },
                    extended_id: id & CAN_MSG_EXT != 0,
                    bitrate_switch: fd_flags & FD64_BRS != 0,
                    error_state_indicator: fd_flags & FD64_ESI != 0,
                    dlc_code: p[1],
                    data: d.subrange(data_offset, data_offset + n),
                },
            )
        }
    }
}

/// The event of a message object, if its type is a CAN message type.
pub open spec fn spec_message_object(d: Seq<u8>, h: ObjectHeader) -> Result<Option<EventModel>, Fault> {
    let p = d.subrange(h.payload_offset as int, h.next_offset as int);
    if h.object_type == CAN_MESSAGE || h.object_type == CAN_MESSAGE2 {
        match spec_can_message(p, h.timestamp_nanos) {
            Ok(e) => Ok(Some(e)),
            Err(f) => Err(f),
        }
    } else if h.object_type == CAN_FD_MESSAGE {
        match spec_can_fd_message(p, h.timestamp_nanos) {
            Ok(e) => Ok(Some(e)),
            Err(f) => Err(f),
        }
    } else if h.object_type == CAN_FD_MESSAGE_64 {
        match spec_can_fd_64_message(d, h) {
            Ok(e) => Ok(Some(e)),
            Err(f) => Err(f),
        }
    } else {
        Ok(None)
    }
}

/// An exec event result agrees with a spec one.
pub open spec fn agrees_event(r: Result<LogEvent, BlfParseError>, s: Result<EventModel, Fault>) -> bool {
    match (r, s) {
        (Ok(e), Ok(m)) => e@ == m,
        (Err(e), Err(f)) => is_fault(e, f),
        _ => false,
    }
}

/// Decodes a CAN message object's payload.
pub fn parse_can_message(payload: &[u8], timestamp_nanos: TimestampNanos) -> (r: Result<LogEvent, BlfParseError>)
    ensures
        agrees_event(r, spec_can_message(payload@, timestamp_nanos)),
{
    if payload.len() < CAN_MSG_STRUCT_SIZE {
        return Err(BlfParseError::Truncated { context: "CAN message" });
    }
    let channel = match read_u16(payload, 0) {
        Ok(v) => v,
        Err(e) => return Err(e),
    };
    let flags = match read_u8(payload, 2) {
        Ok(v) => v,
        Err(e) => return Err(e),
    };
    let dlc = match read_u8(payload, 3) {
        Ok(v) => v,
        Err(e) => return Err(e),
    };
    let arbitration_id = match read_u32(payload, 4) {
        Ok(v) => v,
        Err(e) => return Err(e),
    };
    let dlc_len: usize = if dlc <= 8 { dlc as usize } else { 8 };
    let data = &payload[8..8 + dlc_len];
    Ok(
        LogEvent::Can(
            CanLogEvent {
                timestamp_ns: timestamp_nanos,
                channel: decode_channel(channel),
                arbitration_id: arbitration_id & !CAN_MSG_EXT,
                extended_id: arbitration_id & CAN_MSG_EXT != 0,
                remote_frame: flags & REMOTE_FLAG != 0,
                direction: decode_direction_from_flags(flags),
                data: Payload::from_slice(data),
            },
        ),
    )
}

/// Decodes a CAN FD message object's payload.
pub fn parse_can_fd_message(payload: &[u8], timestamp_nanos: TimestampNanos) -> (r: Result<LogEvent, BlfParseError>)
    ensures
        agrees_event(r, spec_can_fd_message(payload@, timestamp_nanos)),
{
    if payload.len() < CAN_FD_MSG_STRUCT_SIZE {
        return Err(BlfParseError::Truncated { context: "CAN FD message" });
    }
    let channel = match read_u16(payload, 0) {
        Ok(v) => v,
        Err(e) => return Err(e),
    };
    let flags = match read_u8(payload, 2) {
        Ok(v) => v,
        Err(e) => return Err(e),
    };
    let dlc = match read_u8(payload, 3) {
        Ok(v) => v,
        Err(e) => return Err(e),
    };
    let arbitration_id = match read_u32(payload, 4) {
        Ok(v) => v,
        Err(e) => return Err(e),
    };
    let fd_flags = match read_u8(payload, 13) {
        Ok(v) => v,
        Err(e) => return Err(e),
    };
    let valid = match read_u8(payload, 14) {
        Ok(v) => v,
        Err(e) => return Err(e),
    };
    let valid_bytes: usize = if valid <= 64 { valid as usize } else { 64 };
    let data = &payload[20..20 + valid_bytes];
    Ok(
        LogEvent::CanFd(
            CanFdLogEvent {
                timestamp_ns: timestamp_nanos,
                channel: decode_channel(channel),
                arbitration_id: arbitration_id & !CAN_MSG_EXT,
                extended_id: arbitration_id & CAN_MSG_EXT != 0,
                direction: decode_direction_from_flags(flags),
                dlc_code: dlc,
                data: Payload::from_slice(data),
                bitrate_switch: fd_flags & BRS != 0,
                error_state_indicator: fd_flags & ESI != 0,
            },
        ),
    )
}

/// Decodes a CAN FD 64 message object. When the stored data offset points
/// past the end of the container data, the message is reported as truncated.
pub fn parse_can_fd_64_message(data: &[u8], header: &ObjectHeader) -> (r: Result<LogEvent, BlfParseError>)
    requires
        header.payload_offset <= header.next_offset <= data@.len(),
    ensures
        agrees_event(r, spec_can_fd_64_message(data@, *header)),
{
    let payload = &data[header.payload_offset..header.next_offset];
    if payload.len() < CAN_FD_MSG_64_STRUCT_SIZE {
        return Err(BlfParseError::Truncated { context: "CAN FD 64 message" });
    }
    let channel = match read_u8(payload, 0) {
        Ok(v) => v,
        Err(e) => return Err(e),
    };
    let dlc = match read_u8(payload, 1) {
        Ok(v) => v,
        Err(e) => return Err(e),
    };
    let valid_bytes = match read_u8(payload, 2) {
        Ok(v) => v,
        Err(e) => return Err(e),
    };
    let arbitration_id = match read_u32(payload, 4) {
        Ok(v) => v,
        Err(e) => return Err(e),
    };
    let fd_flags = match read_u32(payload, 12) {
        Ok(v) => v,
        Err(e) => return Err(e),
    };
    let direction = match read_u8(payload, 34) {
        Ok(v) => v,
        Err(e) => return Err(e),
    };
    let ext_data_offset = match read_u8(payload, 35) {
        Ok(v) => v,
        Err(e) => return Err(e),
    };
    if ext_data_offset as usize > data.len() - header.payload_offset {
        return Err(BlfParseError::Truncated { context: "CAN FD 64 message data" });
    }
    let data_offset: usize = if ext_data_offset == 0 {
        header.payload_offset + CAN_FD_MSG_64_STRUCT_SIZE
    } else {
        header.payload_offset + ext_data_offset as usize
    };
    let max_len: usize = if header.next_offset >= data_offset { header.next_offset - data_offset } else { 0 };
    let data_len: usize = if (valid_bytes as usize) <= max_len { valid_bytes as usize } else { max_len };
    if data_offset > data.len() || data.len() - data_offset < data_len {
        return Err(BlfParseError::Truncated { context: "CAN FD 64 message data" });
    }
    let msg_data = &data[data_offset..data_offset + data_len];
    Ok(
        LogEvent::CanFd(
            CanFdLogEvent {
                timestamp_ns: header.timestamp_nanos,
                channel: decode_channel(channel as u16),
                arbitration_id: arbitration_id & !CAN_MSG_EXT,
                extended_id: arbitration_id & CAN_MSG_EXT != 0,
                direction: if direction == 0 {
                    Direction::Rx
                } else {
                    Direction::Tx
                },
                dlc_code: dlc,
                data: Payload::from_slice(msg_data),
                bitrate_switch: fd_flags & FD64_BRS != 0,
                error_state_indicator: fd_flags & FD64_ESI != 0,
            },
        ),
    )
}

/// Decodes a message object, if its type is a CAN message type.
pub fn parse_message_object(data: &[u8], header: &ObjectHeader) -> (r: Result<Option<LogEvent>, BlfParseError>)
    requires
        header.payload_offset <= header.next_offset <= data@.len(),
    ensures
        match (r, spec_message_object(data@, *header)) {
            (Ok(Some(e)), Ok(Some(m))) => e@ == m,
            (Ok(None), Ok(None)) => true,
            (Err(e), Err(f)) => is_fault(e, f),
            _ => false,
        },
{
    let payload = &data[header.payload_offset..header.next_offset];
    if header.object_type == CAN_MESSAGE || header.object_type == CAN_MESSAGE2 {
        match parse_can_message(payload, header.timestamp_nanos) {
            Ok(e) => Ok(Some(e)),
            Err(e) => Err(e),
        }
    } else if header.object_type == CAN_FD_MESSAGE {
        match parse_can_fd_message(payload, header.timestamp_nanos) {
            Ok(e) => Ok(Some(e)),
            Err(e) => Err(e),
        }
    } else if header.object_type == CAN_FD_MESSAGE_64 {
        match parse_can_fd_64_message(data, header) {
            Ok(e) => Ok(Some(e)),
            Err(e) => Err(e),
        }
    } else {
        Ok(None)
    }
}

} // verus!
