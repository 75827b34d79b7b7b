//! The object stream inside log containers, the container layer and the
//! reader over the bytes of a whole BLF file.
use vstd::prelude::*;

use crate::blf::codec::{
    field_fault, invalid_number, is_fault, le16, le32, push_bytes, read_u16, read_u32,
    BlfParseError, Fault, FILE_HEADER_STRUCT_SIZE, LOG_CONTAINER, LOG_CONTAINER_STRUCT_SIZE,
    NO_COMPRESSION, OBJ_HEADER_BASE_SIZE, ZLIB_DEFLATE,
};
use crate::blf::objects::{
    find_lobj, lemma_find_lobj_bounds, parse_base_header, parse_message_object,
    parse_object_header, slice_at, spec_base_header, spec_find_lobj, spec_message_object,
    spec_object_header,
};
use crate::blf::scan::{scan_log_container, spec_scan_log_container, zero_stats, BlfCanStats};
use crate::event::{models, EventModel, LogEvent, TimestampNanos};
use crate::external::{unexpected_eof_error, zlib_exact, zlib_read_exact, zlib_read_to_end, zlib_to_end};

verus! {

/// The events of an optional event.
pub open spec fn opt_seq(e: Option<EventModel>) -> Seq<EventModel> {
    match e {
        Some(m) => seq![m],
        None => Seq::empty(),
    }
}

/// The model of an optional event.
pub open spec fn opt_model(e: Option<LogEvent>) -> Option<EventModel> {
    match e {
        Some(v) => Some(v@),
        None => None,
    }
}

/// The fault for an object of size zero, which would not advance the stream.
pub open spec fn zero_size_fault() -> Fault {
    field_fault("object size"@, 0)
}

/// The events of the objects from `offset` on, and the offset where parsing
/// stopped: before fewer than 16 bytes, where no signature follows, or at
/// an object that does not fit in the data (it is continued by the next
/// container).
pub open spec fn objects_from(d: Seq<u8>, offset: int, start: i64) -> Result<(Seq<EventModel>, int), Fault>
    decreases d.len() - offset,
{
    if offset < 0 || offset + 16 > d.len() {
        Ok((Seq::empty(), offset))
    } else {
        match spec_find_lobj(d, offset) {
            None => Ok((Seq::empty(), offset)),
            Some(p) => {
                if p + 16 > d.len() {
                    Err(Fault::Truncated("object header"@))
                } else {
                    match spec_base_header(d.subrange(p, p + 16)) {
                        Err(f) => Err(f),
                        Ok(base) => {
                            if p + base.object_size > d.len() || p + base.header_size > d.len() {
                                Ok((Seq::empty(), p))
                            } else {
                                match spec_object_header(d, p, start) {
                                    Err(f) => Err(f),
                                    Ok(h) => match spec_message_object(d, h) {
                                        Err(f) => Err(f),
                                        Ok(ev) => {
                                            if base.object_size == 0 {
                                                Err(zero_size_fault())
                                            } else {
                                                proof {
                                                    lemma_find_lobj_bounds(d, offset);
                                                }
                                                match objects_from(d, p + base.object_size, start) {
                                                    Err(f) => Err(f),
                                                    Ok((rest, c)) => Ok((opt_seq(ev) + rest, c)),
                                                }
                                            }
                                        },
                                    },
                                }
                            }
                        },
                    }
                }
            },
        }
    }
}

/// `whole` is `done` followed by `rest`: the events concatenate, the end
/// offset is that of `rest`, and a fault of `rest` is the fault of `whole`.
pub open spec fn prepends<T>(
    whole: Result<(Seq<EventModel>, T), Fault>,
    done: Seq<EventModel>,
    rest: Result<(Seq<EventModel>, T), Fault>,
) -> bool {
    match rest {
        Ok((ms, c)) => whole == Ok::<(Seq<EventModel>, T), Fault>((done + ms, c)),
        Err(f) => whole == Err::<(Seq<EventModel>, T), Fault>(f),
    }
}

/// Parsing stops within the data.
pub proof fn lemma_objects_end(d: Seq<u8>, offset: int, start: i64)
    requires
        0 <= offset <= d.len(),
    ensures
        objects_from(d, offset, start) matches Ok((_, c)) ==> offset <= c <= d.len(),
    decreases d.len() - offset,
{
    if offset + 16 <= d.len() {
        lemma_find_lobj_bounds(d, offset);
        match spec_find_lobj(d, offset) {
            Some(p) => {
                if p + 16 <= d.len() {
                    match spec_base_header(d.subrange(p, p + 16)) {
                        Ok(base) => {
                            if base.object_size > 0 && p + base.object_size <= d.len() {
                                lemma_objects_end(d, p + base.object_size, start);
                            }
                        },
                        Err(_) => {},
                    }
                }
            },
            None => {},
        }
    }
}

/// Parses the objects of a container's data: the events found and the
/// offset of the first byte not consumed.
pub fn parse_objects(data: &[u8], start_timestamp_nanos: TimestampNanos) -> (r: Result<(Vec<LogEvent>, usize), BlfParseError>)
    ensures
        match (r, objects_from(data@, 0, start_timestamp_nanos)) {
            (Ok((evs, c)), Ok((ms, sc))) => models(evs@) == ms && c == sc && c <= data@.len(),
            (Err(e), Err(f)) => is_fault(e, f),
            _ => false,
        },
{
    let ghost d = data@;
    let ghost start = start_timestamp_nanos;
    let len = data.len();
    let mut events: Vec<LogEvent> = Vec::new();
    let mut offset: usize = 0;
    assert(models(events@) =~= Seq::<EventModel>::empty());
    assert(prepends(objects_from(d, 0, start), models(events@), objects_from(d, 0, start))) by {
        match objects_from(d, 0, start) {
            Ok((ms, c)) => {
                assert(Seq::<EventModel>::empty() + ms =~= ms);
            },
            Err(f) => {},
        }
    }
    while offset <= len && len - offset >= OBJ_HEADER_BASE_SIZE
        invariant
            d == data@,
            len == d.len(),
            offset <= len,
            start == start_timestamp_nanos,
            prepends(objects_from(d, 0, start), models(events@), objects_from(d, offset as int, start)),
        decreases len - offset,
    {
        proof {
            lemma_find_lobj_bounds(d, offset as int);
        }
        let p = match find_lobj(data, offset) {
            Some(found) => found,
            None => {
                assert(models(events@) + Seq::<EventModel>::empty() =~= models(events@));
                return Ok((events, offset));
            },
        };
        let h = match slice_at(data, p, OBJ_HEADER_BASE_SIZE, "object header") {
            Ok(h) => h,
            Err(e) => return Err(e),
        };
        assert(h@ =~= d.subrange(p as int, p + 16));
        let base = match parse_base_header(h) {
            Ok(b) => b,
            Err(e) => return Err(e),
        };
        if base.object_size > len - p || base.header_size > len - p {
            assert(models(events@) + Seq::<EventModel>::empty() =~= models(events@));
            return Ok((events, p));
        }
        let header = match parse_object_header(data, p, start_timestamp_nanos) {
            Ok(h) => h,
            Err(e) => return Err(e),
        };
        let event = match parse_message_object(data, &header) {
            Ok(ev) => ev,
            Err(e) => return Err(e),
        };
        if base.object_size == 0 {
            return Err(invalid_number("object size", 0));
        }
        let ghost before = models(events@);
        let ghost ev = opt_model(event);
        match event {
            Some(e) => {
                events.push(e);
            },
            None => {},
        }
        assert(models(events@) =~= before + opt_seq(ev));
        offset = header.next_offset;
        proof {
            match objects_from(d, offset as int, start) {
                Ok((ms, c)) => {
                    assert(before + (opt_seq(ev) + ms) =~= models(events@) + ms);
                },
                Err(f) => {},
            }
        }
    }
    assert(models(events@) + Seq::<EventModel>::empty() =~= models(events@));
    Ok((events, offset))
}

/// The events of a container's data parsed after the unparsed tail of the
/// previous container, and the new tail.
pub open spec fn spec_container_with_tail(tail: Seq<u8>, data: Seq<u8>, start: i64) -> Result<(Seq<EventModel>, Seq<u8>), Fault> {
    let d = tail + data;
    match objects_from(d, 0, start) {
        Ok((evs, c)) => Ok((evs, d.subrange(c, d.len() as int))),
        Err(f) => Err(f),
    }
}

/// Parses a container's data after the tail left by the previous one, and
/// keeps what is left unparsed as the new tail. On an error the tail is
/// unchanged.
pub fn parse_container_with_tail(data: &[u8], start_timestamp_nanos: TimestampNanos, tail: &mut Vec<u8>) -> (r: Result<Vec<LogEvent>, BlfParseError>)
    ensures
        match (r, spec_container_with_tail(old(tail)@, data@, start_timestamp_nanos)) {
            (Ok(evs), Ok((ms, t))) => models(evs@) == ms && final(tail)@ == t,
            (Err(e), Err(f)) => is_fault(e, f) && final(tail)@ == old(tail)@,
            _ => false,
        },
{
    let mut buffer: Vec<u8> = Vec::new();
    if tail.len() > 0 {
        push_bytes(&mut buffer, tail.as_slice());
        push_bytes(&mut buffer, data);
    }
    let parse_data: &[u8] = if tail.len() == 0 {
        data
    } else {
        buffer.as_slice()
    };
    assert(parse_data@ =~= old(tail)@ + data@);
    match parse_objects(parse_data, start_timestamp_nanos) {
        Ok((events, consumed)) => {
            let mut rest: Vec<u8> = Vec::new();
            push_bytes(&mut rest, &parse_data[consumed..parse_data.len()]);
            *tail = rest;
            Ok(events)
        },
        Err(e) => Err(e),
    }
}

/// The objects' bytes of a log container's body: stored as they are, or
/// zlib-deflated (inflated to the stored uncompressed size, or to the end of
/// the stream when that size is zero).
pub open spec fn spec_container_data(body: Seq<u8>) -> Result<Seq<u8>, Fault> {
    if body.len() < 16 {
        Err(Fault::Truncated("log container"@))
    } else {
        let method = le16(body, 0);
        let stored = body.subrange(16, body.len() as int);
        if method == NO_COMPRESSION {
            Ok(stored)
        } else if method == ZLIB_DEFLATE {
            let size = le32(body, 8);
            let inflated = if size > 0 {
                zlib_exact(stored, size as nat)
            } else {
                zlib_to_end(stored)
            };
            match inflated {
                Some(v) => Ok(v),
                None => Err(Fault::Io),
            }
        } else {
            Err(field_fault("compression method"@, method as nat))
        }
    }
}

/// The events of a log container's body parsed after the tail, and the new tail.
pub open spec fn spec_log_container(body: Seq<u8>, tail: Seq<u8>, start: i64) -> Result<(Seq<EventModel>, Seq<u8>), Fault> {
    match spec_container_data(body) {
        Ok(data) => spec_container_with_tail(tail, data, start),
        Err(f) => Err(f),
    }
}

/// Inflates a zlib-deflated log container body.
pub fn decompress_container(body: &[u8]) -> (r: Result<Vec<u8>, BlfParseError>)
    requires
        body@.len() >= 16,
        le16(body@, 0) == ZLIB_DEFLATE,
    ensures
        match (r, spec_container_data(body@)) {
            (Ok(v), Ok(s)) => v@ == s,
            (Err(e), Err(f)) => is_fault(e, f),
            _ => false,
        },
{
    let stored = &body[LOG_CONTAINER_STRUCT_SIZE..body.len()];
    let size = match read_u32(body, 8) {
        Ok(v) => v,
        Err(e) => return Err(e),
    };
    let inflated = if size > 0 {
        zlib_read_exact(stored, size as usize)
    } else {
        zlib_read_to_end(stored)
    };
    match inflated {
        Ok(v) => Ok(v),
        Err(error) => Err(BlfParseError::Io(error)),
    }
}

/// Parses a log container's body after the tail, keeping the new tail.
pub fn parse_log_container(body: &[u8], start_timestamp_nanos: TimestampNanos, tail: &mut Vec<u8>) -> (r: Result<Vec<LogEvent>, BlfParseError>)
    ensures
        match (r, spec_log_container(body@, old(tail)@, start_timestamp_nanos)) {
            (Ok(evs), Ok((ms, t))) => models(evs@) == ms && final(tail)@ == t,
            (Err(e), Err(f)) => is_fault(e, f) && final(tail)@ == old(tail)@,
            _ => false,
        },
{
    if body.len() < LOG_CONTAINER_STRUCT_SIZE {
        return Err(BlfParseError::Truncated { context: "log container" });
    }
    let method = match read_u16(body, 0) {
        Ok(v) => v,
        Err(e) => return Err(e),
    };
    if method == NO_COMPRESSION {
        let stored = &body[LOG_CONTAINER_STRUCT_SIZE..body.len()];
        parse_container_with_tail(stored, start_timestamp_nanos, tail)
    } else if method == ZLIB_DEFLATE {
        let data = match decompress_container(body) {
            Ok(v) => v,
            Err(e) => return Err(e),
        };
        parse_container_with_tail(data.as_slice(), start_timestamp_nanos, tail)
    } else {
        Err(invalid_number("compression method", method as u64))
    }
}

/// The events of the object stream of a file from `pos` on, with the
/// position and tail where it ended. Each object is its 16-byte common header,
/// its body and `object_size % 4` padding bytes; only log containers yield
/// events. The stream ends where fewer than 16 bytes are left; an object
/// whose body or padding is cut short is an input/output error.
pub open spec fn stream_from(d: Seq<u8>, pos: int, tail: Seq<u8>, start: i64) -> Result<(Seq<EventModel>, (int, Seq<u8>)), Fault>
    decreases d.len() - pos,
{
    if pos < 0 || pos + 16 > d.len() {
        Ok((Seq::empty(), (pos, tail)))
    } else {
        match spec_base_header(d.subrange(pos, pos + 16)) {
            Err(f) => Err(f),
            Ok(base) => {
                let size = base.object_size as int;
                let next = pos + size + size % 4;
                if size < 16 {
                    Err(field_fault("object size"@, size as nat))
                } else if next > d.len() {
                    Err(Fault::Io)
                } else if base.object_type == LOG_CONTAINER {
                    match spec_log_container(d.subrange(pos + 16, pos + size), tail, start) {
                        Err(f) => Err(f),
                        Ok((evs, t)) => match stream_from(d, next, t, start) {
                            Err(f) => Err(f),
                            Ok((rest, end)) => Ok((evs + rest, end)),
                        },
                    }
                } else {
                    stream_from(d, next, tail, start)
                }
            },
        }
    }
}

/// The counts after scanning the object stream of a file from `pos` on,
/// starting from `s`, with the position and tail at its end (objects are
/// read as for [`stream_from`]).
pub open spec fn scan_stream_from(d: Seq<u8>, pos: int, tail: Seq<u8>, s: BlfCanStats) -> Result<(BlfCanStats, (int, Seq<u8>)), Fault>
    decreases d.len() - pos,
{
    if pos < 0 || pos + 16 > d.len() {
        Ok((s, (pos, tail)))
    } else {
        match spec_base_header(d.subrange(pos, pos + 16)) {
            Err(f) => Err(f),
            Ok(base) => {
                let size = base.object_size as int;
                let next = pos + size + size % 4;
                if size < 16 {
                    Err(field_fault("object size"@, size as nat))
                } else if next > d.len() {
                    Err(Fault::Io)
                } else if base.object_type == LOG_CONTAINER {
                    match spec_scan_log_container(d.subrange(pos + 16, pos + size), tail, s) {
                        Err(f) => Err(f),
                        Ok((s2, t)) => scan_stream_from(d, next, t, s2),
                    }
                } else {
                    scan_stream_from(d, next, tail, s)
                }
            },
        }
    }
}

/// Clamps an integer to the range of `i64`.
pub open spec fn clamp_i64(x: int) -> i64 {
    if x > i64::MAX {
        i64::MAX
    } else if x < i64::MIN {
        i64::MIN
    } else {
        x as i64
    }
}

/// Days from 1970-01-01 to a day of the proleptic Gregorian calendar, with
/// months and days counted from 1 (month 0 counts as the tenth month of the
/// year before; day 0 as day 1).
pub open spec fn spec_days_from_civil(year: int, month: int, day: int) -> int {
    let y = if month <= 2 { year - 1 } else { year };
    let era = if y >= 0 { y / 400 } else { -((399 - y) / 400) };
    let yoe = y - era * 400;
    let ma = if month > 2 { month - 3 } else { month + 9 };
    let doy = (153 * ma + 2) / 5 + if day >= 1 { day - 1 } else { 0 };
    let doe = yoe * 365 + yoe / 4 - yoe / 100 + doy;
    era * 146097 + doe - 719468
}

/// Days from 1970-01-01 to a calendar date.
pub fn days_from_civil(year: i32, month: u32, day: u32) -> (days: i64)
    requires
        year >= i32::MIN + 400,
        month <= 65535,
        day <= 65535,
    ensures
        days == spec_days_from_civil(year as int, month as int, day as int),
        0 <= year <= 65535 ==> -800_000 <= days <= 30_000_000,
{
    let y: i64 = if month <= 2 { year as i64 - 1 } else { year as i64 };
    let era: i64 = if y >= 0 {
        ((y as u64) / 400) as i64
    } else {
        -((((399 - y) as u64) / 400) as i64)
    };
    assert(0 <= y - era * 400 < 400) by {
        if y >= 0 {
            assert(era == y / 400);
        } else {
            assert(era == -((399 - y) / 400));
        }
    }
    let yoe: u64 = (y - era * 400) as u64;
    let ma: u64 = if month > 2 { month as u64 - 3 } else { month as u64 + 9 };
    let doy: u64 = (153 * ma + 2) / 5 + if day >= 1 { day as u64 - 1 } else { 0 };
    let doe: u64 = yoe * 365 + yoe / 4 - yoe / 100 + doy;
    era * 146097 + doe as i64 - 719468
}

/// The little-endian 16-bit value at `o`, or 0 past the end.
pub open spec fn u16_or_zero(s: Seq<u8>, o: int) -> int {
    if o + 2 <= s.len() {
        le16(s, o) as int
    } else {
        0
    }
}

/// The Unix time in nanoseconds of a Windows `SYSTEMTIME` structure (year,
/// month, day of week, day, hour, minute, second, millisecond as
/// little-endian 16-bit values); 0 when the year, month or day is 0. The
/// result saturates at the bounds of `i64`.
pub open spec fn spec_systemtime_nanos(s: Seq<u8>) -> i64 {
    let year = u16_or_zero(s, 0);
    let month = u16_or_zero(s, 2);
    let day = u16_or_zero(s, 6);
    if year == 0 || month == 0 || day == 0 {
        0
    } else {
        let seconds = spec_days_from_civil(year, month, day) * 86400 + u16_or_zero(s, 8) * 3600
            + u16_or_zero(s, 10) * 60 + u16_or_zero(s, 12);
        clamp_i64(clamp_i64(seconds * 1_000_000_000) + u16_or_zero(s, 14) * 1_000_000)
    }
}

/// Reads a 16-bit field of a `SYSTEMTIME`, 0 when it is missing.
fn systemtime_field(systemtime: &[u8], offset: usize) -> (v: u16)
    ensures
        v == u16_or_zero(systemtime@, offset as int),
{
    match read_u16(systemtime, offset) {
        Ok(v) => v,
        Err(_) => 0,
    }
}

/// Converts a BLF `SYSTEMTIME` to Unix time in nanoseconds.
pub fn systemtime_to_timestamp_nanos(systemtime: &[u8]) -> (t: TimestampNanos)
    ensures
        t == spec_systemtime_nanos(systemtime@),
{
    let year = systemtime_field(systemtime, 0);
    let month = systemtime_field(systemtime, 2);
    let day = systemtime_field(systemtime, 6);
    let hour = systemtime_field(systemtime, 8);
    let minute = systemtime_field(systemtime, 10);
    let second = systemtime_field(systemtime, 12);
    let millisecond = systemtime_field(systemtime, 14);
    if year == 0 || month == 0 || day == 0 {
        return 0;
    }
    let days = days_from_civil(year as i32, month as u32, day as u32);
    let seconds: i64 = days * 86_400 + hour as i64 * 3_600 + minute as i64 * 60 + second as i64;
    let nanos: i64 = match seconds.checked_mul(1_000_000_000) {
        Some(v) => v,
        None => if seconds > 0 {
            i64::MAX
        } else {
            i64::MIN
        },
    };
    let extra: i64 = millisecond as i64 * 1_000_000;
    match nanos.checked_add(extra) {
        Some(v) => v,
        None => i64::MAX,
    }
}

/// The position of the first object and the start time of a file: the
/// header starts with `LOGG` and its 32-bit size at offset 4, at least 72,
/// says where the objects begin; the start time is the `SYSTEMTIME` at
/// offset 40.
pub open spec fn spec_file_header(d: Seq<u8>) -> Result<(int, i64), Fault> {
    if d.len() < 72 {
        Err(Fault::Io)
    } else if !(d[0] == 76 && d[1] == 79 && d[2] == 71 && d[3] == 71) {
        Err(Fault::FileSignature)
    } else {
        let size = le32(d, 4) as int;
        if size < 72 {
            Err(field_fault("file header size"@, size as nat))
        } else if size > d.len() {
            Err(Fault::Io)
        } else {
            Ok((size, spec_systemtime_nanos(d.subrange(40, 56))))
        }
    }
}

/// Reader over the bytes of a BLF file containing CAN and CAN FD objects.
pub struct BlfReader {
    data: Vec<u8>,
    pos: usize,
    start_timestamp_nanos: TimestampNanos,
    tail: Vec<u8>,
}

impl BlfReader {
    /// The bytes of the file.
    pub closed spec fn contents(&self) -> Seq<u8> {
        self.data@
    }

    /// The offset of the next object.
    pub closed spec fn position(&self) -> int {
        self.pos as int
    }

    /// The start time from the file header.
    pub closed spec fn start(&self) -> i64 {
        self.start_timestamp_nanos
    }

    /// The unparsed end of the last container.
    pub closed spec fn pending(&self) -> Seq<u8> {
        self.tail@
    }

    /// Validates the file header and positions the reader at the first object.
    pub fn new(data: Vec<u8>) -> (r: Result<Self, BlfParseError>)
        ensures
            match (r, spec_file_header(data@)) {
                (Ok(reader), Ok((pos, start))) => reader.contents() == data@ && reader.position() == pos
                    && reader.start() == start && reader.pending() == Seq::<u8>::empty(),
                (Err(e), Err(f)) => is_fault(e, f),
                _ => false,
            },
    {
        if data.len() < FILE_HEADER_STRUCT_SIZE {
            return Err(BlfParseError::Io(unexpected_eof_error()));
        }
        if !(data[0] == 76 && data[1] == 79 && data[2] == 71 && data[3] == 71) {
            return Err(BlfParseError::InvalidFileSignature);
        }
        let header_size = match read_u32(data.as_slice(), 4) {
            Ok(v) => v,
            Err(e) => return Err(e),
        };
        if (header_size as usize) < FILE_HEADER_STRUCT_SIZE {
            return Err(invalid_number("file header size", header_size as u64));
        }
        if header_size as usize > data.len() {
            return Err(BlfParseError::Io(unexpected_eof_error()));
        }
        let start_timestamp_nanos = systemtime_to_timestamp_nanos(&data.as_slice()[40..56]);
        Ok(BlfReader { data, pos: header_size as usize, start_timestamp_nanos, tail: Vec::new() })
    }

    /// The start time of the file in nanoseconds.
    pub fn start_timestamp_nanos(&self) -> (t: TimestampNanos)
        ensures
            t == self.start(),
    {
        self.start_timestamp_nanos
    }

    /// Reads the rest of the object stream into events. On success the
    /// reader is where the stream ended and keeps the unparsed tail.
    pub fn collect_events(&mut self) -> (r: Result<Vec<LogEvent>, BlfParseError>)
        ensures
            final(self).contents() == old(self).contents(),
            final(self).start() == old(self).start(),
            match (r, stream_from(old(self).contents(), old(self).position(), old(self).pending(), old(self).start())) {
                (Ok(evs), Ok((ms, (pos, tail)))) => models(evs@) == ms && final(self).position() == pos
                    && final(self).pending() == tail,
                (Err(e), Err(f)) => is_fault(e, f),
                _ => false,
            },
    {
        let ghost d = self.data@;
        let ghost start = self.start_timestamp_nanos;
        let ghost whole = stream_from(d, self.pos as int, self.tail@, start);
        let len = self.data.len();
        let mut events: Vec<LogEvent> = Vec::new();
        assert(models(events@) =~= Seq::<EventModel>::empty());
        assert(prepends(whole, models(events@), stream_from(d, self.pos as int, self.tail@, start))) by {
            match whole {
                Ok((ms, c)) => {
                    assert(Seq::<EventModel>::empty() + ms =~= ms);
                },
                Err(f) => {},
            }
        }
        while self.pos <= len && len - self.pos >= OBJ_HEADER_BASE_SIZE
            invariant
                self.data@ == d,
                old(self).contents() == d,
                old(self).start() == start,
                whole == stream_from(
                    old(self).contents(),
                    old(self).position(),
                    old(self).pending(),
                    old(self).start(),
                ),
                len == d.len(),
                self.start_timestamp_nanos == start,
                prepends(whole, models(events@), stream_from(d, self.pos as int, self.tail@, start)),
            decreases len - self.pos,
        {
            let pos = self.pos;
            let h = &self.data.as_slice()[pos..pos + OBJ_HEADER_BASE_SIZE];
            assert(h@ =~= d.subrange(pos as int, pos + 16));
            self.pos = pos + OBJ_HEADER_BASE_SIZE;
            let base = match parse_base_header(h) {
                Ok(b) => b,
                Err(e) => return Err(e),
            };
            let size = base.object_size;
            if size < OBJ_HEADER_BASE_SIZE {
                return Err(invalid_number("object size", size as u64));
            }
            let padding = size % 4;
            if size > len - pos || padding > len - pos - size {
                self.pos = len;
                return Err(BlfParseError::Io(unexpected_eof_error()));
            }
            let next = pos + size + padding;
            let ghost before = models(events@);
            if base.object_type == LOG_CONTAINER {
                let body = &self.data.as_slice()[pos + OBJ_HEADER_BASE_SIZE..pos + size];
                assert(body@ =~= d.subrange(pos + 16, pos + size));
                let mut chunk = match parse_log_container(body, self.start_timestamp_nanos, &mut self.tail) {
                    Ok(c) => c,
                    Err(e) => {
                        self.pos = next;
                        return Err(e);
                    },
                };
                let ghost found = models(chunk@);
                events.append(&mut chunk);
                assert(models(events@) =~= before + found);
                self.pos = next;
                proof {
                    match stream_from(d, next as int, self.tail@, start) {
                        Ok((ms, c)) => {
                            assert(before + (found + ms) =~= models(events@) + ms);
                        },
                        Err(f) => {},
                    }
                }
            } else {
                self.pos = next;
            }
        }
        assert(models(events@) + Seq::<EventModel>::empty() =~= models(events@));
        Ok(events)
    }

    /// Counts the CAN and CAN FD frames of the rest of the object stream
    /// without building events. On success the reader is where the stream
    /// ended and keeps the unscanned tail.
    pub fn scan_can_stats(&mut self) -> (r: Result<BlfCanStats, BlfParseError>)
        ensures
            final(self).contents() == old(self).contents(),
            final(self).start() == old(self).start(),
            match (r, scan_stream_from(old(self).contents(), old(self).position(), old(self).pending(), zero_stats())) {
                (Ok(s), Ok((ss, (pos, tail)))) => s == ss && final(self).position() == pos
                    && final(self).pending() == tail,
                (Err(e), Err(f)) => is_fault(e, f),
                _ => false,
            },
    {
        let ghost d = self.data@;
        let ghost start = self.start_timestamp_nanos;
        let mut stats = BlfCanStats::default();
        let ghost whole = scan_stream_from(d, self.pos as int, self.tail@, stats);
        let len = self.data.len();
        while self.pos <= len && len - self.pos >= OBJ_HEADER_BASE_SIZE
            invariant
                self.data@ == d,
                old(self).contents() == d,
                old(self).start() == start,
                self.start_timestamp_nanos == start,
                whole == scan_stream_from(
                    old(self).contents(),
                    old(self).position(),
                    old(self).pending(),
                    zero_stats(),
                ),
                len == d.len(),
                whole == scan_stream_from(d, self.pos as int, self.tail@, stats),
            decreases len - self.pos,
        {
            let pos = self.pos;
            let h = &self.data.as_slice()[pos..pos + OBJ_HEADER_BASE_SIZE];
            assert(h@ =~= d.subrange(pos as int, pos + 16));
            self.pos = pos + OBJ_HEADER_BASE_SIZE;
            let base = match parse_base_header(h) {
                Ok(b) => b,
                Err(e) => return Err(e),
            };
            let size = base.object_size;
            if size < OBJ_HEADER_BASE_SIZE {
                return Err(invalid_number("object size", size as u64));
            }
            let padding = size % 4;
            if size > len - pos || padding > len - pos - size {
                self.pos = len;
                return Err(BlfParseError::Io(unexpected_eof_error()));
            }
            let next = pos + size + padding;
            if base.object_type == LOG_CONTAINER {
                let body = &self.data.as_slice()[pos + OBJ_HEADER_BASE_SIZE..pos + size];
                assert(body@ =~= d.subrange(pos + 16, pos + size));
                match scan_log_container(body, &mut self.tail, &mut stats) {
                    Ok(_) => {},
                    Err(e) => {
                        self.pos = next;
                        return Err(e);
                    },
                }
            }
            self.pos = next;
        }
        Ok(stats)
    }
}

} // verus!
