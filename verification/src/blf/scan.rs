//! Counting the CAN and CAN FD frames of a BLF stream without building
//! events.
use vstd::prelude::*;

use crate::blf::codec::{
    field_fault, invalid_number, is_fault, push_bytes, read_u16, BlfParseError, Fault,
    CAN_FD_MESSAGE, CAN_FD_MESSAGE_64, CAN_FD_MSG_64_STRUCT_SIZE, CAN_FD_MSG_STRUCT_SIZE, CAN_MESSAGE, CAN_MESSAGE2, CAN_MSG_STRUCT_SIZE,
    LOG_CONTAINER_STRUCT_SIZE, NO_COMPRESSION, OBJ_HEADER_BASE_SIZE, ZLIB_DEFLATE,
};
use crate::blf::objects::{
    find_lobj, lemma_find_lobj_bounds, parse_base_header, slice_at, spec_base_header,
    spec_find_lobj, BaseHeader,
};
use crate::blf::reader::{decompress_container, spec_container_data, zero_size_fault};

verus! {

/// Aggregate counts from a scan of CAN and CAN FD objects.
#[derive(Debug, Clone, Copy, PartialEq, Eq, Structural)]
pub struct BlfCanStats {
    /// Total CAN and CAN FD frames scanned.
    pub messages: usize,
    /// Classical CAN frames scanned.
    pub classic: usize,
    /// CAN FD frames scanned.
    pub fd: usize,
    /// Payload bytes validated while scanning.
    pub payload_bytes: usize,
}

/// All counts zero.
pub open spec fn zero_stats() -> BlfCanStats {
    BlfCanStats { messages: 0, classic: 0, fd: 0, payload_bytes: 0 }
}

impl Default for BlfCanStats {
    fn default() -> (s: Self)
        ensures
            s == zero_stats(),
    {
        BlfCanStats { messages: 0, classic: 0, fd: 0, payload_bytes: 0 }
    }
}

/// The counts after one more frame with `n` payload bytes (counts wrap
/// around at the bound of `usize`).
pub open spec fn add_frame(s: BlfCanStats, fd: bool, n: usize) -> BlfCanStats {
    BlfCanStats {
        messages: s.messages.wrapping_add(1),
        classic: if fd {
            s.classic
        } else {
            s.classic.wrapping_add(1)
        },
        fd: if fd {
            s.fd.wrapping_add(1)
        } else {
            s.fd
        },
        payload_bytes: s.payload_bytes.wrapping_add(n),
    }
}

/// Counts one frame.
pub fn count_frame(stats: &mut BlfCanStats, fd: bool, n: usize)
    ensures
        *final(stats) == add_frame(*old(stats), fd, n),
{
    stats.messages = stats.messages.wrapping_add(1);
    if fd {
        stats.fd = stats.fd.wrapping_add(1);
    } else {
        stats.classic = stats.classic.wrapping_add(1);
    }
    stats.payload_bytes = stats.payload_bytes.wrapping_add(n);
}

/// Where a scanned object's payload lies, and its type.
#[derive(Debug, Clone, Copy, PartialEq, Eq, Structural)]
pub struct ScanObjectHeader {
    /// Offset of the payload.
    pub payload_offset: usize,
    /// Offset just past the object.
    pub next_offset: usize,
    /// Object type.
    pub object_type: u32,
}

/// The frame of a message object, as whether it is CAN FD and how many
/// payload bytes it has; `None` for other object types.
pub open spec fn spec_scan_message(d: Seq<u8>, h: ScanObjectHeader) -> Result<Option<(bool, usize)>, Fault> {
    let p = d.subrange(h.payload_offset as int, h.next_offset as int);
    if h.object_type == CAN_MESSAGE || h.object_type == CAN_MESSAGE2 {
        if p.len() < 16 {
            Err(Fault::Truncated("CAN message"@))
        } else {
            Ok(Some((false, if p[3] <= 8 { p[3] as usize } else { 8 })))
        }
    } else if h.object_type == CAN_FD_MESSAGE {
        if p.len() < 84 {
            Err(Fault::Truncated("CAN FD message"@))
        } else {
            Ok(Some((true, if p[14] <= 64 { p[14] as usize } else { 64 })))
        }
    } else if h.object_type == CAN_FD_MESSAGE_64 {
        if p.len() < 40 {
            Err(Fault::Truncated("CAN FD 64 message"@))
        } else {
            let data_offset = if p[35] == 0 {
                h.payload_offset + 40
            } else {
                h.payload_offset + p[35]
            };
            let room = if h.next_offset >= data_offset { h.next_offset - data_offset } else { 0 };
            let n = if p[2] <= room { p[2] as int } else { room };
            if data_offset + n > d.len() {
                Err(Fault::Truncated("CAN FD 64 message data"@))
            } else {
                Ok(Some((true, n as usize)))
            }
        }
    } else {
        Ok(None)
    }
}

/// The counts after an optional frame.
pub open spec fn add_opt_frame(s: BlfCanStats, f: Option<(bool, usize)>) -> BlfCanStats {
    match f {
        Some((fd, n)) => add_frame(s, fd, n),
        None => s,
    }
}

/// Checks a message object and counts its frame.
pub fn scan_message_object(data: &[u8], header: &ScanObjectHeader, stats: &mut BlfCanStats) -> (r: Result<(), BlfParseError>)
    requires
        header.payload_offset <= header.next_offset <= data@.len(),
    ensures
        match (r, spec_scan_message(data@, *header)) {
            (Ok(_), Ok(f)) => *final(stats) == add_opt_frame(*old(stats), f),
            (Err(e), Err(f)) => is_fault(e, f),
            _ => false,
        },
{
    let payload = &data[header.payload_offset..header.next_offset];
    let t = header.object_type;
    if t == CAN_MESSAGE || t == CAN_MESSAGE2 {
        if payload.len() < CAN_MSG_STRUCT_SIZE {
            return Err(BlfParseError::Truncated { context: "CAN message" });
        }
        let dlc = payload[3];
        count_frame(stats, false, if dlc <= 8 { dlc as usize } else { 8 });
        Ok(())
    } else if t == CAN_FD_MESSAGE {
        if payload.len() < CAN_FD_MSG_STRUCT_SIZE {
            return Err(BlfParseError::Truncated { context: "CAN FD message" });
        }
        let valid = payload[14];
        count_frame(stats, true, if valid <= 64 { valid as usize } else { 64 });
        Ok(())
    } else if t == CAN_FD_MESSAGE_64 {
        if payload.len() < CAN_FD_MSG_64_STRUCT_SIZE {
            return Err(BlfParseError::Truncated { context: "CAN FD 64 message" });
        }
        let valid = payload[2];
        let ext = payload[35];
        if ext as usize > data.len() - header.payload_offset {
            return Err(BlfParseError::Truncated { context: "CAN FD 64 message data" });
        }
        let data_offset: usize = if ext == 0 {
            header.payload_offset + CAN_FD_MSG_64_STRUCT_SIZE
        } else {
            header.payload_offset + ext as usize
        };
        let room: usize = if header.next_offset >= data_offset { header.next_offset - data_offset } else { 0 };
        let n: usize = if (valid as usize) <= room { valid as usize } else { room };
        if data_offset > data.len() || data.len() - data_offset < n {
            return Err(BlfParseError::Truncated { context: "CAN FD 64 message data" });
        }
        count_frame(stats, true, n);
        Ok(())
    } else {
        Ok(())
    }
}

/// The payload range of an object whose header must end within the object.
pub open spec fn spec_scan_object_header(offset: int, base: BaseHeader) -> Result<ScanObjectHeader, Fault> {
    if base.header_size > base.object_size {
        Err(field_fault("object header size"@, base.header_size as nat))
    } else {
        Ok(
            ScanObjectHeader {
                payload_offset: (offset + base.header_size) as usize,
                next_offset: (offset + base.object_size) as usize,
                object_type: base.object_type,
            },
        )
    }
}

/// The counts after scanning the objects from `offset` on, starting from
/// `s`, and where scanning stopped (as for parsing events).
pub open spec fn scan_from(d: Seq<u8>, offset: int, s: BlfCanStats) -> Result<(BlfCanStats, int), Fault>
    decreases d.len() - offset,
{
    if offset < 0 || offset + 16 > d.len() {
        Ok((s, offset))
    } else {
        match spec_find_lobj(d, offset) {
            None => Ok((s, offset)),
            Some(p) => {
                if p + 16 > d.len() {
                    Err(Fault::Truncated("object header"@))
                } else {
                    match spec_base_header(d.subrange(p, p + 16)) {
                        Err(f) => Err(f),
                        Ok(base) => {
                            if p + base.object_size > d.len() || p + base.header_size > d.len() {
                                Ok((s, p))
                            } else {
                                match spec_scan_object_header(p, base) {
                                    Err(f) => Err(f),
                                    Ok(h) => match spec_scan_message(d, h) {
                                        Err(f) => Err(f),
                                        Ok(fr) => {
                                            if base.object_size == 0 {
                                                Err(zero_size_fault())
                                            } else {
                                                proof {
                                                    lemma_find_lobj_bounds(d, offset);
                                                }
                                                scan_from(d, p + base.object_size, add_opt_frame(s, fr))
                                            }
                                        },
                                    },
                                }
                            }
                        },
                    }
                }
            },
        }
    }
}

/// Scanning stops within the data.
pub proof fn lemma_scan_end(d: Seq<u8>, offset: int, s: BlfCanStats)
    requires
        0 <= offset <= d.len(),
    ensures
        scan_from(d, offset, s) matches Ok((_, c)) ==> offset <= c <= d.len(),
    decreases d.len() - offset,
{
    if offset + 16 <= d.len() {
        lemma_find_lobj_bounds(d, offset);
        match spec_find_lobj(d, offset) {
            Some(p) => {
                if p + 16 <= d.len() {
                    match spec_base_header(d.subrange(p, p + 16)) {
                        Ok(base) => {
                            if base.object_size > 0 && p + base.object_size <= d.len() && p
                                + base.header_size <= d.len() {
                                match spec_scan_object_header(p, base) {
                                    Ok(h) => match spec_scan_message(d, h) {
                                        Ok(fr) => lemma_scan_end(
                                            d,
                                            p + base.object_size,
                                            add_opt_frame(s, fr),
                                        ),
                                        Err(_) => {},
                                    },
                                    Err(_) => {},
                                }
                            }
                        },
                        Err(_) => {},
                    }
                }
            },
            None => {},
        }
    }
}

/// Scans the objects of a container's data, counting into `stats`; returns
/// the offset of the first byte not consumed.
pub fn scan_objects(data: &[u8], stats: &mut BlfCanStats) -> (r: Result<usize, BlfParseError>)
    ensures
        match (r, scan_from(data@, 0, *old(stats))) {
            (Ok(c), Ok((s, sc))) => *final(stats) == s && c == sc && c <= data@.len(),
            (Err(e), Err(f)) => is_fault(e, f),
            _ => false,
        },
{
    let ghost d = data@;
    let ghost whole = scan_from(d, 0, *stats);
    let len = data.len();
    let mut offset: usize = 0;
    while offset <= len && len - offset >= OBJ_HEADER_BASE_SIZE
        invariant
            d == data@,
            len == d.len(),
            offset <= len,
            whole == scan_from(data@, 0, *old(stats)),
            whole == scan_from(d, offset as int, *stats),
        decreases len - offset,
    {
        proof {
            lemma_find_lobj_bounds(d, offset as int);
        }
        let p = match find_lobj(data, offset) {
            Some(found) => found,
            None => return Ok(offset),
        };
        let h = match slice_at(data, p, OBJ_HEADER_BASE_SIZE, "object header") {
            Ok(h) => h,
            Err(e) => return Err(e),
        };
        assert(h@ =~= d.subrange(p as int, p + 16));
        let base = match parse_base_header(h) {
            Ok(b) => b,
            Err(e) => return Err(e),
        };
        if base.object_size > len - p || base.header_size > len - p {
            return Ok(p);
        }
        if base.header_size > base.object_size {
            return Err(invalid_number("object header size", base.header_size as u64));
        }
        let header = ScanObjectHeader {
            payload_offset: p + base.header_size,
            next_offset: p + base.object_size,
            object_type: base.object_type,
        };
        match scan_message_object(data, &header, stats) {
            Ok(_) => {},
            Err(e) => return Err(e),
        }
        if base.object_size == 0 {
            return Err(invalid_number("object size", 0));
        }
        offset = header.next_offset;
    }
    proof {
        lemma_scan_end(d, offset as int, *stats);
    }
    Ok(offset)
}

/// The counts after scanning a container's data after the tail, and the
/// new tail.
pub open spec fn spec_scan_container_with_tail(tail: Seq<u8>, data: Seq<u8>, s: BlfCanStats) -> Result<(BlfCanStats, Seq<u8>), Fault> {
    let d = tail + data;
    match scan_from(d, 0, s) {
        Ok((s2, c)) => Ok((s2, d.subrange(c, d.len() as int))),
        Err(f) => Err(f),
    }
}

/// Scans a container's data after the tail left by the previous one, and
/// keeps what is left unscanned as the new tail (unchanged on an error).
pub fn scan_container_with_tail(data: &[u8], tail: &mut Vec<u8>, stats: &mut BlfCanStats) -> (r: Result<(), BlfParseError>)
    ensures
        match (r, spec_scan_container_with_tail(old(tail)@, data@, *old(stats))) {
            (Ok(_), Ok((s, t))) => *final(stats) == s && final(tail)@ == t,
            (Err(e), Err(f)) => is_fault(e, f) && final(tail)@ == old(tail)@,
            _ => false,
        },
{
    let mut buffer: Vec<u8> = Vec::new();
    if tail.len() > 0 {
        push_bytes(&mut buffer, tail.as_slice());
        push_bytes(&mut buffer, data);
    }
    let parse_data: &[u8] = if tail.len() == 0 {
        data
    } else {
        buffer.as_slice()
    };
    assert(parse_data@ =~= old(tail)@ + data@);
    match scan_objects(parse_data, stats) {
        Ok(consumed) => {
            let mut rest: Vec<u8> = Vec::new();
            push_bytes(&mut rest, &parse_data[consumed..parse_data.len()]);
            *tail = rest;
            Ok(())
        },
        Err(e) => Err(e),
    }
}

/// The counts after scanning a log container's body after the tail, and
/// the new tail.
pub open spec fn spec_scan_log_container(body: Seq<u8>, tail: Seq<u8>, s: BlfCanStats) -> Result<(BlfCanStats, Seq<u8>), Fault> {
    match spec_container_data(body) {
        Ok(data) => spec_scan_container_with_tail(tail, data, s),
        Err(f) => Err(f),
    }
}

/// Scans a log container's body after the tail, keeping the new tail.
pub fn scan_log_container(body: &[u8], tail: &mut Vec<u8>, stats: &mut BlfCanStats) -> (r: Result<(), BlfParseError>)
    ensures
        match (r, spec_scan_log_container(body@, old(tail)@, *old(stats))) {
            (Ok(_), Ok((s, t))) => *final(stats) == s && final(tail)@ == t,
            (Err(e), Err(f)) => is_fault(e, f) && final(tail)@ == old(tail)@,
            _ => false,
        },
{
    if body.len() < LOG_CONTAINER_STRUCT_SIZE {
        return Err(BlfParseError::Truncated { context: "log container" });
    }
    let method = match read_u16(body, 0) {
        Ok(v) => v,
        Err(e) => return Err(e),
    };
    if method == NO_COMPRESSION {
        let stored = &body[LOG_CONTAINER_STRUCT_SIZE..body.len()];
        scan_container_with_tail(stored, tail, stats)
    } else if method == ZLIB_DEFLATE {
        let data = match decompress_container(body) {
            Ok(v) => v,
            Err(e) => return Err(e),
        };
        scan_container_with_tail(data.as_slice(), tail, stats)
    } else {
        Err(invalid_number("compression method", method as u64))
    }
}

} // verus!
